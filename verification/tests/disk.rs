//! The structures on disk.

use btrfs_peek::checksum::{invert_crc, name_hash};
use btrfs_peek::disk::{
    bytes, parse_dir_entries, u16_at, u32_at, u64_at, u8_at, Chunk, Extent, ExtentKind, Inode,
    Key, Superblock,
};
use btrfs_peek::error::Error;

fn ok<T>(r: Result<T, Error>) -> T {
    match r {
        Ok(x) => x,
        Err(e) => panic!("{}", e.message()),
    }
}

fn failure<T>(r: Result<T, Error>) -> String {
    match r {
        Ok(_) => panic!("no error"),
        Err(e) => e.message(),
    }
}

#[test]
fn name_hash_matches_the_kernel() {
    // The root tree's `default` entry: `(ROOT_TREE_DIR DIR_ITEM 2378154706)` in any dump-tree.
    assert_eq!(name_hash(b"default"), 2_378_154_706);
}

#[test]
fn name_hash_inverts_the_checksum() {
    assert_eq!(invert_crc(0), 0xffff_ffff);
    assert_eq!(invert_crc(0xffff_ffff), 0);
    assert_eq!(invert_crc(0x1234_5678), 0xedcb_a987);
    // The seed of an empty name, with every bit inverted on the way in and out.
    assert_eq!(name_hash(b""), 0xffff_fffe);
}

#[test]
fn numbers_are_little_endian() {
    let b = [1u8, 2, 3, 4, 5, 6, 7, 8, 9];
    assert_eq!(ok(u8_at(&b, 8)), 9);
    assert_eq!(ok(u16_at(&b, 1)), 0x0302);
    assert_eq!(ok(u32_at(&b, 1)), 0x0504_0302);
    assert_eq!(ok(u64_at(&b, 1)), 0x0908_0706_0504_0302);
    assert_eq!(ok(bytes(&b, 9, 0)), &[] as &[u8]);
    assert_eq!(
        failure(u64_at(&b, 2)),
        "corrupt structure: wanted 8 bytes at offset 2, have 9"
    );
    assert_eq!(
        failure(bytes(&b, usize::MAX, 2)),
        "corrupt structure: wanted 2 bytes at offset 18446744073709551615, have 9"
    );
}

#[test]
fn keys_are_ordered_by_object_then_type_then_offset() {
    let mut b = vec![0xffu8; 3];
    b.extend_from_slice(&256u64.to_le_bytes());
    b.push(84);
    b.extend_from_slice(&7u64.to_le_bytes());
    let k = ok(Key::parse(&b, 3));
    assert_eq!(k, Key::new(256, 84, 7));
    assert!(failure(Key::parse(&b, 4)).starts_with("corrupt structure"));
    assert!(k.before(&Key::new(257, 0, 0)));
    assert!(k.before(&Key::new(256, 85, 0)));
    assert!(k.before(&Key::new(256, 84, 8)));
    assert!(!k.before(&k));
    assert!(!k.before(&Key::new(256, 84, 6)));
}

fn put(b: &mut [u8], off: usize, v: u64, n: usize) {
    b[off..off + n].copy_from_slice(&v.to_le_bytes()[..n]);
}

fn superblock() -> Vec<u8> {
    let mut b = vec![0u8; 4096];
    b[0x40..0x48].copy_from_slice(b"_BHRfS_M");
    for i in 0..16 {
        b[0x20 + i] = i as u8;
    }
    put(&mut b, 0x48, 1, 8);
    put(&mut b, 0x50, 2, 8);
    put(&mut b, 0x58, 3, 8);
    put(&mut b, 0x60, 4, 8);
    put(&mut b, 0x70, 5, 8);
    put(&mut b, 0x78, 6, 8);
    put(&mut b, 0x80, 7, 8);
    put(&mut b, 0x88, 8, 8);
    put(&mut b, 0x90, 4096, 4);
    put(&mut b, 0x94, 16384, 4);
    put(&mut b, 0xa0, 3, 4);
    put(&mut b, 0xbc, 9, 8);
    put(&mut b, 0xc9, 10, 8);
    b[0x12b..0x12b + 5].copy_from_slice(b"data\0");
    b[0x12b + 5] = b'x';
    b[0x32b..0x32b + 3].copy_from_slice(&[1, 2, 3]);
    sealed(b)
}

fn sealed(mut b: Vec<u8>) -> Vec<u8> {
    let sum = crc32c::crc32c(&b[32..4096]);
    put(&mut b, 0, sum as u64, 4);
    b
}

#[test]
fn a_superblock_is_read() {
    let sb = ok(Superblock::parse(&superblock()));
    assert_eq!(sb.fsid, [0, 1, 2, 3, 4, 5, 6, 7, 8, 9, 10, 11, 12, 13, 14, 15]);
    assert_eq!((sb.generation, sb.root, sb.chunk_root, sb.log_root), (1, 2, 3, 4));
    assert_eq!((sb.total_bytes, sb.bytes_used), (5, 6));
    assert_eq!((sb.root_dir_objectid, sb.num_devices), (7, 8));
    assert_eq!((sb.sectorsize, sb.nodesize), (4096, 16384));
    assert_eq!((sb.incompat_flags, sb.csum_type, sb.devid), (9, 0, 10));
    assert_eq!(sb.label, "data");
    assert_eq!(sb.sys_chunk_array, vec![1, 2, 3]);
    assert_eq!(sb.csum_name(), "crc32c");
}

#[test]
fn a_label_without_an_end_is_taken_whole() {
    let mut b = superblock();
    for i in 0..256 {
        b[0x12b + i] = 0xff;
    }
    let sb = ok(Superblock::parse(&sealed(b)));
    assert_eq!(sb.label, "\u{fffd}".repeat(256));
}

#[test]
fn a_checksum_of_another_type_is_not_verified() {
    let mut b = superblock();
    put(&mut b, 0xc4, 1, 2);
    assert_eq!(ok(Superblock::parse(&b)).csum_name(), "xxhash64");
    put(&mut b, 0xc4, 2, 2);
    assert_eq!(ok(Superblock::parse(&b)).csum_name(), "sha256");
    put(&mut b, 0xc4, 3, 2);
    assert_eq!(ok(Superblock::parse(&b)).csum_name(), "blake2b");
    put(&mut b, 0xc4, 4, 2);
    assert_eq!(ok(Superblock::parse(&b)).csum_name(), "unknown");
}

#[test]
fn bad_superblocks_are_refused() {
    let fails = |off: usize, v: u64, n: usize| -> String {
        let mut b = superblock();
        put(&mut b, off, v, n);
        failure(Superblock::parse(&sealed(b)))
    };
    assert_eq!(fails(0x40, 0, 1), "no btrfs magic");
    assert_eq!(fails(0x90, 0, 4), "corrupt superblock: sectorsize 0");
    assert_eq!(fails(0x90, 6000, 4), "corrupt superblock: sectorsize 6000");
    assert_eq!(fails(0x94, 0, 4), "corrupt superblock: nodesize 0");
    assert_eq!(fails(0xa0, 2049, 4), "corrupt superblock: sys_chunk_array_size 2049");
    let mut b = superblock();
    b[0x48] ^= 1;
    assert_eq!(failure(Superblock::parse(&b)), "superblock checksum mismatch");
    assert!(failure(Superblock::parse(&b[..100])).starts_with("corrupt structure: wanted"));
}

#[test]
fn chunks_are_read() {
    let mut b = vec![0u8; 48 + 64];
    put(&mut b, 0, 1000, 8);
    put(&mut b, 24, 4 | 0x10, 8);
    put(&mut b, 44, 2, 2);
    put(&mut b, 48, 1, 8);
    put(&mut b, 56, 77, 8);
    put(&mut b, 80, 2, 8);
    put(&mut b, 88, 88, 8);
    let (c, used) = ok(Chunk::parse(5, &b));
    assert_eq!(used, 112);
    assert_eq!((c.start, c.length, c.ty), (5, 1000, 0x14));
    assert_eq!(c.stripes, vec![(1, 77), (2, 88)]);
    assert_eq!((c.profile(), c.kind()), ("raid1", "metadata"));
    // All of the last stripe has to be there.
    assert_eq!(
        failure(Chunk::parse(5, &b[..111])),
        "corrupt structure: wanted 32 bytes at offset 80, have 111"
    );
    assert_eq!(ok(Chunk::parse(5, &[&b[..], &[7]].concat())).1, 112);
    put(&mut b, 44, 0, 2);
    assert_eq!(failure(Chunk::parse(5, &b)), "corrupt chunk at 5: zero stripes");
}

#[test]
fn profiles_and_kinds_have_names() {
    let of = |ty: u64| -> (&'static str, &'static str) {
        let c = Chunk { start: 0, length: 0, ty, stripes: Vec::new() };
        (c.profile(), c.kind())
    };
    assert_eq!(of(1), ("single", "data"));
    assert_eq!(of(2 | 0x20), ("dup", "system"));
    assert_eq!(of(4 | 8), ("raid0", "metadata"));
    assert_eq!(of(0x40).0, "raid10");
    assert_eq!(of(0x80).0, "raid5");
    assert_eq!(of(0x100).0, "raid6");
    assert_eq!(of(0x200).0, "raid1c3");
    assert_eq!(of(0x400).0, "raid1c4");
    assert_eq!(of(5).1, "data+metadata");
}

fn inode(mode: u32) -> Inode {
    let mut b = vec![0u8; 160];
    put(&mut b, 16, 123, 8);
    put(&mut b, 40, 2, 4);
    put(&mut b, 44, 1000, 4);
    put(&mut b, 48, 100, 4);
    put(&mut b, 52, mode as u64, 4);
    put(&mut b, 136, (-5i64) as u64, 8);
    put(&mut b, 144, 999, 4);
    ok(Inode::parse(&b))
}

#[test]
fn inodes_have_a_type() {
    let i = inode(0o100644);
    assert_eq!((i.size, i.nlink, i.uid, i.gid), (123, 2, 1000, 100));
    assert_eq!((i.mode, i.mtime_sec, i.mtime_nsec), (0o100644, -5, 999));
    assert!(i.is_file() && !i.is_dir() && !i.is_symlink());
    assert!(inode(0o040755).is_dir());
    assert!(inode(0o120777).is_symlink());
    let name = |m: u32| inode(m).file_type();
    assert_eq!(name(0o100644), "file");
    assert_eq!(name(0o040755), "dir");
    assert_eq!(name(0o120777), "symlink");
    assert_eq!(name(0o020000), "chardev");
    assert_eq!(name(0o060000), "blockdev");
    assert_eq!(name(0o010000), "fifo");
    assert_eq!(name(0o140000), "socket");
    assert_eq!(name(0), "unknown");
    assert!(failure(Inode::parse(&[0u8; 100])).starts_with("corrupt structure"));
}

#[test]
fn several_names_can_share_an_item() {
    let mut b = Vec::new();
    for (n, ino) in [(&b"one"[..], 300u64), (&b"three"[..], 301)] {
        b.extend_from_slice(&ino.to_le_bytes());
        b.push(1);
        b.extend_from_slice(&[0u8; 8]);
        b.extend_from_slice(&[0u8; 8]);
        b.extend_from_slice(&[2, 0]);
        b.extend_from_slice(&(n.len() as u16).to_le_bytes());
        b.push(7);
        b.extend_from_slice(n);
        b.extend_from_slice(b"dd");
    }
    let all = ok(parse_dir_entries(&b));
    assert_eq!(all.len(), 2);
    assert_eq!(all[0].name, b"one");
    assert_eq!(all[0].location, Key::new(300, 1, 0));
    assert_eq!((all[1].name.as_slice(), all[1].ftype), (&b"three"[..], 7));
    assert!(ok(parse_dir_entries(&[])).is_empty());
    // Two runs put together are the entries of the first, then those of the second.
    let twice = ok(parse_dir_entries(&[&b[..], &b[..]].concat()));
    let names: Vec<&[u8]> = twice.iter().map(|e| e.name.as_slice()).collect();
    assert_eq!(names, [&b"one"[..], b"three", b"one", b"three"]);
    let cut = b.len() - 8;
    assert!(failure(parse_dir_entries(&b[..cut])).starts_with("corrupt structure"));
}

#[test]
fn extents_are_read() {
    let mut b = vec![0u8; 53];
    put(&mut b, 8, 8192, 8);
    b[16] = 3;
    b[20] = 1;
    put(&mut b, 21, 100, 8);
    put(&mut b, 29, 200, 8);
    put(&mut b, 37, 300, 8);
    put(&mut b, 45, 400, 8);
    let e = ok(Extent::parse(5, &b));
    assert_eq!((e.file_off, e.len, e.ram_bytes, e.compression), (5, 400, 8192, 3));
    assert!(matches!(
        e.kind,
        ExtentKind::Regular { disk_bytenr: 100, disk_num_bytes: 200, offset: 300 }
    ));
    assert_eq!(e.compression_name(), "zstd");
    b[20] = 2;
    assert!(matches!(ok(Extent::parse(5, &b)).kind, ExtentKind::Prealloc));
    b[20] = 0;
    b[16] = 0;
    let e = ok(Extent::parse(5, &b));
    assert_eq!(e.len, 8192);
    assert_eq!(e.compression_name(), "none");
    match e.kind {
        ExtentKind::Inline(d) => assert_eq!(d, &b[21..]),
        _ => panic!("not inline"),
    }
    b[16] = 1;
    assert_eq!(ok(Extent::parse(5, &b)).compression_name(), "zlib");
    b[16] = 2;
    assert_eq!(ok(Extent::parse(5, &b)).compression_name(), "lzo");
    b[16] = 9;
    assert_eq!(ok(Extent::parse(5, &b)).compression_name(), "unknown");
    b[20] = 3;
    assert_eq!(failure(Extent::parse(5, &b)), "unknown file extent type 3");
    b[17] = 1;
    assert_eq!(failure(Extent::parse(5, &b)), "encrypted extents are not supported");
    b[17] = 0;
    assert_eq!(
        failure(Extent::parse(5, &b[..20])),
        "corrupt structure: wanted 1 bytes at offset 20, have 20"
    );
}
