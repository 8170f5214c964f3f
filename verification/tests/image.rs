//! Reading a small filesystem that is built here, block by block.

use btrfs_peek::checksum::name_hash;
use btrfs_peek::copy::{Action, Copier, Options, Thing, Told};
use btrfs_peek::decompress::Segment;
use btrfs_peek::disk::{
    Key, CHUNK_ITEM_KEY, DIR_INDEX_KEY, DIR_ITEM_KEY, EXTENT_DATA_KEY, INODE_ITEM_KEY,
    INODE_REF_KEY, ROOT_BACKREF_KEY, ROOT_ITEM_KEY, ROOT_REF_KEY,
};
use btrfs_peek::error::{Error, ErrorKind};
use btrfs_peek::find::{check_type, join, FindQuery, Finder, Finding};
use btrfs_peek::fs::{Fs, Request, Stop};
use btrfs_peek::glob::{exclude_globs, exclude_set, name_set, set_or_error};
use btrfs_peek::host::{link_path, seek_step, windows_target};
use btrfs_peek::lookup::Loc;
use btrfs_peek::names::{partial_name, Host};
use btrfs_peek::open::{Outcome, Probe};
use btrfs_peek::path::{parts, symlink_error, Resolved};
use btrfs_peek::range::{gather, Piece, RangeReader, Step};
use btrfs_peek::tree::Query;
use std::io::{Read, Write};

const NODE: usize = 4096;

fn put(b: &mut [u8], off: usize, v: u64, n: usize) {
    b[off..off + n].copy_from_slice(&v.to_le_bytes()[..n]);
}

fn key_bytes(k: Key) -> Vec<u8> {
    let mut b = k.objectid.to_le_bytes().to_vec();
    b.push(k.ty);
    b.extend_from_slice(&k.offset.to_le_bytes());
    b
}

fn sealed(mut b: Vec<u8>, addr: u64) -> Vec<u8> {
    put(&mut b, 48, addr, 8);
    let sum = crc32c::crc32c(&b[32..]);
    put(&mut b, 0, sum as u64, 4);
    b
}

fn leaf(addr: u64, items: &[(Key, Vec<u8>)]) -> Vec<u8> {
    let mut items: Vec<(Key, Vec<u8>)> = items.to_vec();
    items.sort_by_key(|(k, _)| (k.objectid, k.ty, k.offset));
    let mut b = vec![0u8; NODE];
    put(&mut b, 96, items.len() as u64, 4);
    let mut end = NODE;
    for (i, (k, d)) in items.iter().enumerate() {
        end -= d.len();
        b[end..end + d.len()].copy_from_slice(d);
        let o = 101 + i * 25;
        assert!(o + 25 <= end);
        b[o..o + 17].copy_from_slice(&key_bytes(*k));
        put(&mut b, o + 17, (end - 101) as u64, 4);
        put(&mut b, o + 21, d.len() as u64, 4);
    }
    sealed(b, addr)
}

fn inner(addr: u64, level: u8, ptrs: &[(Key, u64)]) -> Vec<u8> {
    let mut b = vec![0u8; NODE];
    put(&mut b, 96, ptrs.len() as u64, 4);
    b[100] = level;
    for (i, (k, child)) in ptrs.iter().enumerate() {
        let o = 101 + i * 33;
        b[o..o + 17].copy_from_slice(&key_bytes(*k));
        put(&mut b, o + 17, *child, 8);
    }
    sealed(b, addr)
}

fn chunk_item(length: u64, ty: u64, stripes: &[(u64, u64)]) -> Vec<u8> {
    let mut b = vec![0u8; 48 + 32 * stripes.len()];
    put(&mut b, 0, length, 8);
    put(&mut b, 24, ty, 8);
    put(&mut b, 44, stripes.len() as u64, 2);
    for (i, (id, phys)) in stripes.iter().enumerate() {
        put(&mut b, 48 + i * 32, *id, 8);
        put(&mut b, 56 + i * 32, *phys, 8);
    }
    b
}

fn superblock(root: u64, chunk_root: u64, generation: u64, devid: u64, sys: &[u8]) -> Vec<u8> {
    let mut b = vec![0u8; 4096];
    b[0x40..0x48].copy_from_slice(b"_BHRfS_M");
    b[0x20] = 7;
    put(&mut b, 0x48, generation, 8);
    put(&mut b, 0x50, root, 8);
    put(&mut b, 0x58, chunk_root, 8);
    put(&mut b, 0x80, 6, 8);
    put(&mut b, 0x88, 1, 8);
    put(&mut b, 0x90, 4096, 4);
    put(&mut b, 0x94, NODE as u64, 4);
    put(&mut b, 0xa0, sys.len() as u64, 4);
    put(&mut b, 0xc9, devid, 8);
    b[0x12b..0x12b + 4].copy_from_slice(b"test");
    b[0x32b..0x32b + sys.len()].copy_from_slice(sys);
    resum(b)
}

fn resum(mut b: Vec<u8>) -> Vec<u8> {
    let sum = crc32c::crc32c(&b[32..4096]);
    put(&mut b, 0, sum as u64, 4);
    b
}

fn inode_item(size: u64, mode: u32, mtime: i64) -> Vec<u8> {
    let mut b = vec![0u8; 160];
    put(&mut b, 16, size, 8);
    put(&mut b, 40, 1, 4);
    put(&mut b, 44, 1000, 4);
    put(&mut b, 48, 100, 4);
    put(&mut b, 52, mode as u64, 4);
    put(&mut b, 136, mtime as u64, 8);
    b
}

fn dir_entry(name: &[u8], to: Key, ftype: u8) -> Vec<u8> {
    let mut b = vec![0u8; 30];
    b[..17].copy_from_slice(&key_bytes(to));
    put(&mut b, 27, name.len() as u64, 2);
    b[29] = ftype;
    b.extend_from_slice(name);
    b
}

fn inode_ref(name: &[u8]) -> Vec<u8> {
    let mut b = vec![0u8; 10];
    put(&mut b, 8, name.len() as u64, 2);
    b.extend_from_slice(name);
    b
}

fn root_item(bytenr: u64, readonly: bool, snapshot: bool) -> Vec<u8> {
    let mut b = vec![0u8; 439];
    put(&mut b, 160, 11, 8);
    put(&mut b, 168, 256, 8);
    put(&mut b, 176, bytenr, 8);
    put(&mut b, 208, readonly as u64, 8);
    if snapshot {
        b[270] = 1;
    }
    b
}

fn root_ref(dirid: u64, name: &[u8]) -> Vec<u8> {
    let mut b = vec![0u8; 18];
    put(&mut b, 0, dirid, 8);
    put(&mut b, 16, name.len() as u64, 2);
    b.extend_from_slice(name);
    b
}

fn extent(ty: u8, compression: u8, ram: u64) -> Vec<u8> {
    let mut b = vec![0u8; 21];
    put(&mut b, 8, ram, 8);
    b[16] = compression;
    b[20] = ty;
    b
}

fn inline(data: &[u8], compression: u8, ram: u64) -> Vec<u8> {
    let mut b = extent(0, compression, ram);
    b.extend_from_slice(data);
    b
}

fn regular(ty: u8, compression: u8, ram: u64, at: u64, on_disk: u64, offset: u64, len: u64) -> Vec<u8> {
    let mut b = extent(ty, compression, ram);
    b.resize(53, 0);
    put(&mut b, 21, at, 8);
    put(&mut b, 29, on_disk, 8);
    put(&mut b, 37, offset, 8);
    put(&mut b, 45, len, 8);
    b
}

fn key(objectid: u64, ty: u8, offset: u64) -> Key {
    Key::new(objectid, ty, offset)
}

fn zlib(data: &[u8]) -> Vec<u8> {
    let mut e = flate2::write::ZlibEncoder::new(Vec::new(), flate2::Compression::default());
    e.write_all(data).unwrap();
    e.finish().unwrap()
}

/// One entry of a directory: its name twice in the tree, and the way back.
fn link(items: &mut Vec<(Key, Vec<u8>)>, dir: u64, index: u64, name: &[u8], to: Key, ftype: u8) {
    items.push((key(dir, DIR_ITEM_KEY, name_hash(name)), dir_entry(name, to, ftype)));
    items.push((key(dir, DIR_INDEX_KEY, index), dir_entry(name, to, ftype)));
    if to.ty == INODE_ITEM_KEY {
        items.push((key(to.objectid, INODE_REF_KEY, dir), inode_ref(name)));
    }
}

fn ino(n: u64) -> Key {
    key(n, INODE_ITEM_KEY, 0)
}

const CHUNKS: u64 = 0x1000;
const ROOTS: u64 = 0x2000;
const TOP: u64 = 0x3000;
const HOME: u64 = 0x4000;
const SNAP: u64 = 0x5000;
const DATA: u64 = 0x10000;
const PACKED: u64 = 0x20000;
const MIRROR: u64 = 0x100000;
const SIZE: u64 = 0x100000;

struct Image {
    /// The bytes of the device, both mirrors.
    dev: Vec<u8>,
    sb: Vec<u8>,
}

impl Image {
    fn store(&mut self, addr: u64, b: &[u8]) {
        let at = addr as usize;
        self.dev[at..at + b.len()].copy_from_slice(b);
        let at = (addr + MIRROR) as usize;
        self.dev[at..at + b.len()].copy_from_slice(b);
    }

    fn read(&self, req: Request) -> Result<Vec<u8>, String> {
        assert_eq!(req.devid, 1);
        let at = req.phys as usize;
        if at + req.len as usize > self.dev.len() {
            return Err("past the end".to_string());
        }
        Ok(self.dev[at..at + req.len as usize].to_vec())
    }
}

fn file_bytes() -> Vec<u8> {
    (0..10000u32).map(|i| (i * 7 % 251) as u8).collect()
}

fn packed_bytes() -> Vec<u8> {
    b"a line of text that packs well\n".repeat(200)
}

fn image() -> Image {
    let mut im = Image { dev: vec![0u8; 2 * SIZE as usize], sb: Vec::new() };
    let chunk = chunk_item(SIZE, 2 | 0x20, &[(1, 0), (1, MIRROR)]);
    let mut sys = key_bytes(key(256, CHUNK_ITEM_KEY, 0));
    sys.extend_from_slice(&chunk);
    im.sb = superblock(ROOTS, CHUNKS, 10, 1, &sys);
    im.store(CHUNKS, &leaf(CHUNKS, &[(key(256, CHUNK_ITEM_KEY, 0), chunk)]));

    im.store(
        ROOTS,
        &leaf(
            ROOTS,
            &[
                (key(5, ROOT_ITEM_KEY, 0), root_item(TOP, false, false)),
                (key(5, ROOT_REF_KEY, 256), root_ref(256, b"@home")),
                (key(5, ROOT_REF_KEY, 258), root_ref(257, b"snap")),
                (
                    key(6, DIR_ITEM_KEY, name_hash(b"default")),
                    dir_entry(b"default", key(256, ROOT_ITEM_KEY, u64::MAX), 2),
                ),
                (key(256, ROOT_ITEM_KEY, 0), root_item(HOME, false, false)),
                (key(256, ROOT_BACKREF_KEY, 5), root_ref(256, b"@home")),
                (key(258, ROOT_ITEM_KEY, 9), root_item(SNAP, true, true)),
                (key(258, ROOT_BACKREF_KEY, 5), root_ref(257, b"snap")),
            ],
        ),
    );

    // The top-level subvolume: @home, sub/, sub/snap, sub/link, file, odd names.
    let mut top = vec![
        (ino(256), inode_item(0, 0o040755, 1)),
        (ino(257), inode_item(0, 0o040700, 2)),
        (ino(258), inode_item(10000, 0o100644, 951_782_400)),
        (key(258, EXTENT_DATA_KEY, 0), regular(1, 0, 12288, DATA, 12288, 0, 12288)),
        (ino(259), inode_item(9, 0o120777, 3)),
        (key(259, EXTENT_DATA_KEY, 0), inline(b"over/here", 0, 9)),
        (ino(260), inode_item(5, 0o100600, 4)),
        (key(260, EXTENT_DATA_KEY, 0), inline(b"small", 0, 5)),
        (ino(261), inode_item(0, 0o010600, 4)),
    ];
    link(&mut top, 256, 2, b"@home", key(256, ROOT_ITEM_KEY, u64::MAX), 2);
    link(&mut top, 256, 3, b"sub", ino(257), 2);
    link(&mut top, 256, 4, b"file", ino(258), 1);
    link(&mut top, 257, 2, b"link", ino(259), 7);
    link(&mut top, 257, 3, b"a/b", ino(260), 1);
    link(&mut top, 257, 4, b"snap", key(258, ROOT_ITEM_KEY, u64::MAX), 2);
    link(&mut top, 257, 5, b"pipe", ino(261), 5);
    im.store(TOP, &leaf(TOP, &top));
    let mut data = file_bytes();
    data.resize(12288, 0xee);
    im.store(DATA, &data);

    // @home: one sparse file with a hole, compressed data and a trailing hole.
    let plain = packed_bytes();
    let packed = zlib(&plain[..4096]);
    let mut home = vec![
        (ino(256), inode_item(0, 0o040755, 1)),
        (ino(257), inode_item(20000, 0o100644, 5)),
        (key(257, EXTENT_DATA_KEY, 4096), regular(1, 1, 4096, PACKED, 4096, 0, 4096)),
        (key(257, EXTENT_DATA_KEY, 8192), regular(2, 0, 4096, 0x30000, 4096, 0, 4096)),
        (key(257, EXTENT_DATA_KEY, 12288), regular(1, 0, 4096, 0, 0, 0, 4096)),
    ];
    link(&mut home, 256, 2, b"sparse", ino(257), 1);
    im.store(HOME, &leaf(HOME, &home));
    im.store(PACKED, &packed);

    // The snapshot: holds a nested subvolume that only its origin has.
    let mut snap = vec![(ino(256), inode_item(0, 0o040755, 1))];
    link(&mut snap, 256, 2, b"nested", key(256, ROOT_ITEM_KEY, u64::MAX), 2);
    im.store(SNAP, &leaf(SNAP, &snap));
    im
}

fn probe(im: &Image) -> Vec<Probe> {
    vec![Probe { path: "dev".to_string(), outcome: Outcome::Super(im.sb.clone()) }]
}

/// Runs an operation, performing the reads it asks for.
fn run<T>(
    im: &Image,
    fs: &mut Fs,
    mut op: impl FnMut(&mut Fs) -> Result<T, Stop>,
) -> Result<T, Error> {
    for _ in 0..1000 {
        match op(fs) {
            Ok(x) => {
                fs.settle();
                return Ok(x);
            }
            Err(Stop::Error(e)) => {
                fs.settle();
                return Err(e);
            }
            Err(Stop::Read(req)) => {
                let reply = im.read(req);
                fs.supply(req, reply);
            }
        }
    }
    panic!("no end of reads");
}

fn open(im: &Image) -> Fs {
    let mut fs = match Fs::open(probe(im)) {
        Ok(fs) => fs,
        Err(e) => panic!("{}", e.message()),
    };
    ok(run(im, &mut fs, |fs| fs.load_chunks()));
    fs
}

fn ok<T>(r: Result<T, Error>) -> T {
    match r {
        Ok(x) => x,
        Err(e) => panic!("{}", e.message()),
    }
}

fn failure<T>(r: Result<T, Error>) -> Error {
    match r {
        Ok(_) => panic!("no error"),
        Err(e) => e,
    }
}

fn drain(im: &Image, fs: &mut Fs, mut r: RangeReader) -> Result<Vec<(bool, Vec<u8>)>, Error> {
    let mut out = Vec::new();
    for _ in 0..10000 {
        match r.step(fs) {
            Step::Again => {}
            Step::Piece(Piece::Data(b)) => out.push((true, b)),
            Step::Piece(Piece::Zeros(n)) => out.push((false, vec![0u8; n as usize])),
            Step::Read(req) => {
                let reply = im.read(req);
                r.supply(fs, req, reply);
            }
            Step::Segment(b) => {
                let plain = lzokay_native::decompress_all(&b, Some(4096)).unwrap();
                r.decoded(Segment::Plain(plain));
            }
            Step::Stream { bytes, limit } => {
                let mut plain = Vec::new();
                let dec = ruzstd::decoding::StreamingDecoder::new(bytes.as_slice()).unwrap();
                dec.take(limit).read_to_end(&mut plain).unwrap();
                r.decoded(Segment::Plain(plain));
            }
            Step::Done => return Ok(out),
            Step::Failed(e) => return Err(e),
        }
    }
    panic!("no end of steps");
}

fn contents(im: &Image, fs: &mut Fs, loc: Loc, start: u64, end: u64) -> Result<Vec<u8>, Error> {
    let r = run(im, fs, |fs| fs.read_range(loc, start, end))?;
    Ok(drain(im, fs, r)?.into_iter().flat_map(|(_, b)| b).collect())
}

fn at(im: &Image, fs: &mut Fs, path: &str) -> Loc {
    match ok(run(im, fs, |fs| fs.resolve(path))) {
        Resolved::At(loc) => loc,
        Resolved::Link { path, .. } => panic!("{path} is a link"),
    }
}

fn names(im: &Image, fs: &mut Fs, path: &str) -> Vec<String> {
    let loc = at(im, fs, path);
    let all = ok(run(im, fs, |fs| fs.readdir(loc)));
    all.iter().map(|e| e.name_lossy()).collect()
}

#[test]
fn the_filesystem_opens() {
    let im = image();
    let fs = open(&im);
    assert_eq!(fs.sb().label, "test");
    assert_eq!(fs.sb().generation, 10);
    assert_eq!(fs.device_paths().clone(), vec!["dev".to_string()]);
    assert_eq!(fs.chunks().len(), 1);
    assert_eq!(fs.chunks()[0].profile(), "dup");
    assert_eq!(fs.chunks()[0].kind(), "system");
}

#[test]
fn directories_list_their_entries_by_name() {
    let im = image();
    let mut fs = open(&im);
    assert_eq!(names(&im, &mut fs, "/"), vec!["@home", "file", "sub"]);
    assert_eq!(names(&im, &mut fs, "/sub"), vec!["a/b", "link", "pipe", "snap"]);
    assert_eq!(names(&im, &mut fs, "/@home"), vec!["sparse"]);
    // What only stands for a subvolume is an empty directory.
    assert!(names(&im, &mut fs, "/sub/snap/nested").is_empty());
}

#[test]
fn paths_resolve_from_the_top() {
    let im = image();
    let mut fs = open(&im);
    let file = Loc { tree: 5, ino: 258 };
    assert_eq!(at(&im, &mut fs, "/file"), file);
    assert_eq!(at(&im, &mut fs, "file"), file);
    assert_eq!(at(&im, &mut fs, "//./sub\\..//file/"), file);
    assert_eq!(at(&im, &mut fs, "/../../file"), file);
    assert_eq!(at(&im, &mut fs, "/@home/sparse"), Loc { tree: 256, ino: 257 });
    assert_eq!(at(&im, &mut fs, "/sub/snap"), Loc { tree: 258, ino: 256 });
    assert!(Fs::is_placeholder(at(&im, &mut fs, "/sub/snap/nested")));
    let e = failure(run(&im, &mut fs, |fs| fs.resolve("/sub/none/x")));
    assert_eq!(e.exit_code(), 3);
    assert_eq!(e.message(), "not found: /sub/none");
    let e = failure(run(&im, &mut fs, |fs| fs.resolve("/file/x")));
    assert_eq!(e.message(), "/file is not a directory");
}

#[test]
fn a_symlink_is_reported_and_not_followed() {
    let im = image();
    let mut fs = open(&im);
    assert_eq!(at(&im, &mut fs, "/sub/link"), Loc { tree: 5, ino: 259 });
    match ok(run(&im, &mut fs, |fs| fs.resolve("/sub/link/x"))) {
        Resolved::Link { loc, path } => {
            let r = ok(run(&im, &mut fs, |fs| fs.read_symlink_target(loc)));
            let target: Vec<u8> =
                ok(drain(&im, &mut fs, r)).into_iter().flat_map(|(_, b)| b).collect();
            assert_eq!(target, b"over/here");
            assert_eq!(
                symlink_error(path, &target).message(),
                "/sub/link is a symlink to \"over/here\"; symlinks are not followed, resolve it yourself"
            );
        }
        Resolved::At(_) => panic!("followed"),
    }
}

#[test]
fn the_components_of_a_path() {
    let all: Vec<String> = parts("/a//b\\./c/..").iter().map(|p| p.iter().collect()).collect();
    assert_eq!(all, vec!["a", "b", "c", ".."]);
    assert!(parts("").is_empty());
    assert!(parts("./").is_empty());
}

#[test]
fn inodes_are_read() {
    let im = image();
    let mut fs = open(&im);
    let loc = at(&im, &mut fs, "/file");
    let i = ok(run(&im, &mut fs, |fs| fs.inode(loc)));
    assert_eq!((i.size, i.uid, i.gid, i.mode), (10000, 1000, 100, 0o100644));
    assert!(i.is_file() && !i.is_dir() && !i.is_symlink());
    assert_eq!(i.file_type(), "file");
    let e = failure(run(&im, &mut fs, |fs| fs.inode(Loc { tree: 5, ino: 999 })));
    assert_eq!(e.message(), "inode 999 missing from tree 5");
    let e = failure(run(&im, &mut fs, |fs| fs.inode(Loc { tree: 77, ino: 256 })));
    assert_eq!(e.message(), "subvolume tree 77 does not exist");
    let i = ok(run(&im, &mut fs, |fs| fs.inode(Loc { tree: 0, ino: 0 })));
    assert_eq!((i.mode, i.nlink), (0o040755, 1));
}

#[test]
fn a_file_reads_back_what_was_written() {
    let im = image();
    let mut fs = open(&im);
    let loc = at(&im, &mut fs, "/file");
    let all = file_bytes();
    assert_eq!(ok(contents(&im, &mut fs, loc, 0, u64::MAX)), all);
    assert_eq!(ok(contents(&im, &mut fs, loc, 100, 200)), &all[100..200]);
    assert_eq!(ok(contents(&im, &mut fs, loc, 9990, 20000)), &all[9990..]);
    assert!(ok(contents(&im, &mut fs, loc, 10000, 20000)).is_empty());
    assert!(ok(contents(&im, &mut fs, loc, 50, 50)).is_empty());
    let loc = at(&im, &mut fs, "/sub");
    let small = Loc { tree: loc.tree, ino: 260 };
    assert_eq!(ok(contents(&im, &mut fs, small, 0, u64::MAX)), b"small");
    assert_eq!(ok(contents(&im, &mut fs, small, 1, 3)), b"ma");
}

#[test]
fn holes_read_as_zeros_and_stay_holes() {
    let im = image();
    let mut fs = open(&im);
    let loc = at(&im, &mut fs, "/@home/sparse");
    let r = ok(run(&im, &mut fs, |fs| fs.read_range(loc, 0, u64::MAX)));
    let pieces = ok(drain(&im, &mut fs, r));
    let shape: Vec<(bool, usize)> = pieces.iter().map(|(d, b)| (*d, b.len())).collect();
    assert_eq!(
        shape,
        vec![(false, 4096), (true, 4096), (false, 4096), (false, 4096), (false, 3616)]
    );
    assert_eq!(pieces[1].1, &packed_bytes()[..4096]);
    // From the middle of the packed extent into the hole after it.
    let part = ok(contents(&im, &mut fs, loc, 8190, 8194));
    assert_eq!(part, [packed_bytes()[4094], packed_bytes()[4095], 0, 0]);
}

#[test]
fn pieces_can_be_gathered() {
    let mut out = vec![9u8];
    gather(&mut out, Piece::Data(vec![1, 2]));
    gather(&mut out, Piece::Zeros(3));
    assert_eq!(out, vec![9, 1, 2, 0, 0, 0]);
}

#[test]
fn a_large_file_comes_in_pieces_of_a_mebibyte() {
    // One extent over the whole chunk, read as data.
    let mut im = image();
    let mut home = vec![
        (ino(256), inode_item(0, 0o040755, 1)),
        (ino(257), inode_item(3 * SIZE, 0o100644, 5)),
        (key(257, EXTENT_DATA_KEY, 0), regular(1, 0, SIZE, 0x1000, SIZE, 0, 0x9000)),
        (key(257, EXTENT_DATA_KEY, 0x9000), inline(b"tail", 0, 4)),
    ];
    link(&mut home, 256, 2, b"sparse", ino(257), 1);
    im.store(HOME, &leaf(HOME, &home));
    let mut fs = open(&im);
    let loc = at(&im, &mut fs, "/@home/sparse");
    let all = ok(contents(&im, &mut fs, loc, 0, u64::MAX));
    assert_eq!(all.len() as u64, 3 * SIZE);
    assert_eq!(&all[..0x9000], &im.dev[0x1000..0xa000]);
    assert_eq!(&all[0x9000..0x9004], b"tail");
    assert!(all[0x9004..].iter().all(|&b| b == 0));
}

#[test]
fn an_lzo_extent_is_decoded_segment_by_segment() {
    let plain: Vec<u8> = packed_bytes()[..6000].to_vec();
    let mut packed = vec![0u8; 4];
    for part in plain.chunks(4096) {
        let seg = lzokay_native::compress(part).unwrap();
        packed.extend_from_slice(&(seg.len() as u32).to_le_bytes());
        packed.extend_from_slice(&seg);
    }
    let total = packed.len() as u32;
    packed[..4].copy_from_slice(&total.to_le_bytes());
    packed.resize(4096, 0);
    let mut im = image();
    let mut home = vec![
        (ino(256), inode_item(0, 0o040755, 1)),
        (ino(257), inode_item(6000, 0o100644, 5)),
        (key(257, EXTENT_DATA_KEY, 0), regular(1, 2, 8192, PACKED, 4096, 0, 8192)),
    ];
    link(&mut home, 256, 2, b"sparse", ino(257), 1);
    im.store(HOME, &leaf(HOME, &home));
    im.store(PACKED, &packed);
    let mut fs = open(&im);
    let loc = at(&im, &mut fs, "/@home/sparse");
    assert_eq!(ok(contents(&im, &mut fs, loc, 0, u64::MAX)), plain);
    assert_eq!(ok(contents(&im, &mut fs, loc, 10, 20)), &plain[10..20]);
    // What was read before is not taken for what is there now.
    im.store(PACKED, &vec![0xffu8; 4096]);
    assert!(contents(&im, &mut fs, loc, 10, 20).is_err());
}

/// A file of the extents given, in the subvolume `@home`.
fn file_of(im: &mut Image, size: u64, exts: &[(u64, Vec<u8>)]) {
    let mut home = vec![
        (ino(256), inode_item(0, 0o040755, 1)),
        (ino(257), inode_item(size, 0o100644, 5)),
    ];
    for (off, item) in exts {
        home.push((key(257, EXTENT_DATA_KEY, *off), item.clone()));
    }
    link(&mut home, 256, 2, b"sparse", ino(257), 1);
    im.store(HOME, &leaf(HOME, &home));
}

#[test]
fn an_extent_that_is_referenced_twice_is_decompressed_once() {
    let mut im = image();
    let plain = [packed_bytes(), packed_bytes()].concat()[..8192].to_vec();
    let zstd = ruzstd::encoding::compress_to_vec(
        &plain[..],
        ruzstd::encoding::CompressionLevel::Uncompressed,
    );
    im.store(PACKED, &zstd);
    let n = zstd.len() as u64;
    file_of(
        &mut im,
        12288,
        &[
            (0, regular(1, 3, 8192, PACKED, n, 4096, 4096)),
            (4096, regular(1, 3, 8192, PACKED, n, 0, 8192)),
        ],
    );
    let mut fs = open(&im);
    let loc = at(&im, &mut fs, "/@home/sparse");
    let mut r = ok(run(&im, &mut fs, |fs| fs.read_range(loc, 0, u64::MAX)));
    let mut got = Vec::new();
    let mut reads = 0;
    loop {
        match r.step(&fs) {
            Step::Again => {}
            Step::Piece(p) => gather(&mut got, p),
            Step::Read(req) => {
                reads += 1;
                r.supply(&fs, req, im.read(req));
            }
            Step::Stream { limit, .. } => {
                assert_eq!(limit, 8193);
                r.decoded(Segment::Plain(plain.clone()));
            }
            Step::Done => break,
            _ => panic!("failed"),
        }
    }
    assert_eq!(got, [&plain[4096..], &plain[..]].concat());
    assert_eq!(reads, 1);
}

#[test]
fn references_that_contradict_one_another_are_each_read_as_they_say() {
    let mut im = image();
    let plain = packed_bytes()[..4096].to_vec();
    let packed = zlib(&plain);
    im.store(PACKED, &packed);
    let n = packed.len() as u64;
    // The same address with another declared size: no byte of the first is handed out for it.
    file_of(
        &mut im,
        16384,
        &[
            (0, regular(1, 1, 4096, PACKED, n, 0, 4096)),
            (4096, regular(1, 1, 12288, PACKED, n, 0, 4096)),
        ],
    );
    let mut fs = open(&im);
    let loc = at(&im, &mut fs, "/@home/sparse");
    assert_eq!(ok(contents(&im, &mut fs, loc, 0, 4096)), plain);
    let e = failure(contents(&im, &mut fs, loc, 0, 8192));
    assert!(e.message().contains("truncated or corrupt"), "{}", e.message());
    // The bound on sizes holds whatever was read before.
    file_of(
        &mut im,
        16384,
        &[
            (0, regular(1, 1, 4096, PACKED, n, 0, 4096)),
            (4096, regular(1, 1, 1 << 31, PACKED, n, 0, 4096)),
        ],
    );
    let mut fs = open(&im);
    let loc = at(&im, &mut fs, "/@home/sparse");
    let e = failure(contents(&im, &mut fs, loc, 0, 8192));
    assert!(e.message().starts_with("implausible compressed extent"), "{}", e.message());
}

#[test]
fn a_range_read_in_parts_is_the_same() {
    let im = image();
    let mut fs = open(&im);
    for path in ["/file", "/@home/sparse"] {
        let loc = at(&im, &mut fs, path);
        let whole = ok(contents(&im, &mut fs, loc, 100, 15000));
        for m in [100, 4096, 4097, 8191, 10001, 15000] {
            let mut parts = ok(contents(&im, &mut fs, loc, 100, m));
            parts.extend(ok(contents(&im, &mut fs, loc, m, 15000)));
            assert_eq!(parts, whole);
        }
    }
}

#[test]
fn reads_fall_back_to_the_other_mirror() {
    let mut im = image();
    // Spoil the first copy of a tree block and take the first copy of the data away.
    im.dev[TOP as usize + 2000] ^= 1;
    let mut fs = open(&im);
    assert_eq!(names(&im, &mut fs, "/"), vec!["@home", "file", "sub"]);
    let loc = at(&im, &mut fs, "/file");
    let mut r = ok(run(&im, &mut fs, |fs| fs.read_range(loc, 0, 10)));
    let mut got = Vec::new();
    let mut asked = Vec::new();
    loop {
        match r.step(&fs) {
            Step::Read(req) => {
                asked.push(req.phys);
                let reply = if req.phys < MIRROR {
                    Err("bad sector".to_string())
                } else {
                    im.read(req)
                };
                r.supply(&fs, req, reply);
            }
            Step::Piece(p) => gather(&mut got, p),
            Step::Done => break,
            Step::Again => {}
            _ => panic!("failed"),
        }
    }
    assert_eq!(got, &file_bytes()[..10]);
    assert_eq!(asked, vec![DATA, DATA + MIRROR]);
}

#[test]
fn when_every_mirror_fails_the_last_failure_is_told() {
    let mut im = image();
    im.dev[TOP as usize + 2000] ^= 1;
    im.dev[(TOP + MIRROR) as usize + 48] ^= 1;
    let mut fs = open(&im);
    let e = failure(run(&im, &mut fs, |fs| fs.resolve("/file")));
    assert_eq!(e.message(), format!("tree block at {TOP} has the wrong address in its header"));
    im.dev[(TOP + MIRROR) as usize + 48] ^= 1;
    im.dev[(TOP + MIRROR) as usize + 2001] ^= 1;
    let e = failure(run(&im, &mut fs, |fs| fs.resolve("/file")));
    assert_eq!(e.message(), format!("tree block at {TOP} failed its checksum"));
    // A block that could not be read is asked for anew.
    im.dev[TOP as usize + 2000] ^= 1;
    assert_eq!(names(&im, &mut fs, "/"), vec!["@home", "file", "sub"]);
}

#[test]
fn a_reply_of_the_wrong_length_counts_as_a_failure() {
    let im = image();
    let mut fs = open(&im);
    let loc = at(&im, &mut fs, "/file");
    fs.settle();
    let mut r = ok(run(&im, &mut fs, |fs| fs.read_range(loc, 0, 10)));
    loop {
        match r.step(&fs) {
            Step::Read(req) => r.supply(&fs, req, Ok(vec![1, 2, 3])),
            Step::Failed(e) => {
                assert_eq!(e.message(), "corrupt structure: wanted 10 bytes at offset 0, have 3");
                break;
            }
            Step::Again => {}
            _ => panic!("no failure"),
        }
    }
}

#[test]
fn a_reply_that_was_not_asked_for_changes_nothing() {
    let im = image();
    let mut fs = open(&im);
    let other = Request { logical: TOP, devid: 1, phys: 77, len: NODE as u64 };
    fs.supply(other, Ok(vec![0u8; NODE]));
    assert_eq!(names(&im, &mut fs, "/"), vec!["@home", "file", "sub"]);
}

#[test]
fn a_block_that_claims_too_many_items_is_refused() {
    let mut im = image();
    let mut b = im.dev[TOP as usize..TOP as usize + NODE].to_vec();
    put(&mut b, 96, 1000, 4);
    let b = sealed(b, TOP);
    im.store(TOP, &b);
    let mut fs = open(&im);
    let e = failure(run(&im, &mut fs, |fs| fs.resolve("/file")));
    assert_eq!(e.message(), format!("tree block at {TOP} claims 1000 items"));
}

#[test]
fn a_tree_of_two_levels_is_walked_in_order() {
    let mut im = image();
    let a = leaf(0x6000, &[(key(1, 1, 0), vec![1]), (key(2, 1, 0), vec![2])]);
    let b = leaf(0x7000, &[(key(3, 1, 0), vec![3]), (key(3, 1, 5), vec![4])]);
    let c = leaf(0x8000, &[(key(9, 1, 0), vec![5])]);
    im.store(0x6000, &a);
    im.store(0x7000, &b);
    im.store(0x8000, &c);
    let top = inner(
        0x9000,
        1,
        &[(key(1, 1, 0), 0x6000), (key(3, 1, 0), 0x7000), (key(9, 1, 0), 0x8000)],
    );
    im.store(0x9000, &top);
    let mut fs = open(&im);
    let mut found = |min: Key, max: Key, first: bool| -> Vec<u8> {
        ok(run(&im, &mut fs, |fs| {
            let w = fs.walk(0x9000, Query { min, max, first });
            match w.end {
                Ok(_) => Ok(w.items.iter().map(|i| i.data[0]).collect()),
                Err(s) => Err(s),
            }
        }))
    };
    assert_eq!(found(key(0, 0, 0), key(u64::MAX, 255, u64::MAX), false), vec![1, 2, 3, 4, 5]);
    assert_eq!(found(key(2, 0, 0), key(3, 1, 0), false), vec![2, 3]);
    assert_eq!(found(key(2, 0, 0), key(3, 1, 0), true), vec![2]);
    assert_eq!(found(key(3, 1, 1), key(8, 0, 0), false), vec![4]);
    assert!(found(key(4, 0, 0), key(8, 0, 0), false).is_empty());
    let got = ok(run(&im, &mut fs, |fs| fs.get(0x9000, key(3, 1, 5))));
    assert_eq!(got, Some(vec![4]));
    let got = ok(run(&im, &mut fs, |fs| fs.get(0x9000, key(3, 1, 4))));
    assert_eq!(got, None);
}

#[test]
fn a_block_at_the_wrong_level_is_named() {
    let mut im = image();
    // A block that points at itself.
    im.store(0x9000, &inner(0x9000, 2, &[(key(0, 0, 0), 0x9000)]));
    let mut fs = open(&im);
    let e = failure(run(&im, &mut fs, |fs| fs.get(0x9000, key(1, 1, 1))));
    assert_eq!(e.message(), "tree block at 36864 is level 2 where its parent expects 1");
}

#[test]
fn a_tree_too_deep_is_refused() {
    let mut im = image();
    for i in 0..11u64 {
        let addr = 0x40000 + i * 0x1000;
        im.store(addr, &inner(addr, 20 - i as u8, &[(key(0, 0, 0), addr + 0x1000)]));
    }
    let mut fs = open(&im);
    let e = failure(run(&im, &mut fs, |fs| fs.get(0x40000, key(1, 1, 1))));
    assert_eq!(e.message(), "tree deeper than btrfs allows; corrupt or cyclic");
}

#[test]
fn addresses_outside_every_chunk_are_refused() {
    let im = image();
    let mut fs = open(&im);
    let e = failure(run(&im, &mut fs, |fs| fs.get(SIZE, key(1, 1, 1))));
    assert_eq!(e.message(), "logical address 1048576 (+4096) is not mapped by any chunk");
    let e = failure(run(&im, &mut fs, |fs| fs.get(u64::MAX, key(1, 1, 1))));
    assert!(e.message().ends_with("is not mapped by any chunk"));
}

#[test]
fn subvolumes_have_their_paths() {
    let im = image();
    let mut fs = open(&im);
    let all = ok(run(&im, &mut fs, |fs| fs.subvols()));
    let got: Vec<(u64, u64, &str, bool, bool, u64)> = all
        .iter()
        .map(|s| (s.id, s.parent, s.path.as_str(), s.readonly, s.snapshot, s.generation))
        .collect();
    assert_eq!(
        got,
        vec![
            (256, 5, "/@home", false, false, 11),
            (258, 5, "/sub/snap", true, true, 11),
        ]
    );
    assert_eq!(ok(run(&im, &mut fs, |fs| fs.default_subvol())), 256);
    assert!(!ok(run(&im, &mut fs, |fs| fs.is_snapshot(256))));
    assert!(ok(run(&im, &mut fs, |fs| fs.is_snapshot(258))));
    assert_eq!(ok(run(&im, &mut fs, |fs| fs.path_in_tree(5, 258))), "file");
    let e = failure(run(&im, &mut fs, |fs| fs.path_in_tree(5, 999)));
    assert_eq!(e.message(), "inode 999 in tree 5 has no parent reference");
}

#[test]
fn a_moved_subvolume_is_placed_after_its_parent() {
    let mut im = image();
    im.store(
        ROOTS,
        &leaf(
            ROOTS,
            &[
                (key(5, ROOT_ITEM_KEY, 0), root_item(TOP, false, false)),
                (key(256, ROOT_ITEM_KEY, 0), root_item(HOME, false, false)),
                // Inside the subvolume with the higher id.
                (key(256, ROOT_BACKREF_KEY, 258), root_ref(256, b"inner")),
                (key(257, ROOT_ITEM_KEY, 0), root_item(HOME, false, false)),
                // A parent that is not there.
                (key(257, ROOT_BACKREF_KEY, 300), root_ref(256, b"lost")),
                (key(258, ROOT_ITEM_KEY, 0), root_item(SNAP, false, false)),
                (key(258, ROOT_BACKREF_KEY, 5), root_ref(257, b"outer")),
                // No back reference: deleted.
                (key(259, ROOT_ITEM_KEY, 0), root_item(SNAP, false, false)),
            ],
        ),
    );
    let mut fs = open(&im);
    let all = ok(run(&im, &mut fs, |fs| fs.subvols()));
    let got: Vec<(u64, &str)> = all.iter().map(|s| (s.id, s.path.as_str())).collect();
    assert_eq!(got, vec![(256, "/sub/outer/inner"), (258, "/sub/outer")]);
}

#[test]
fn of_several_root_items_the_newest_counts() {
    let mut im = image();
    let mut old = root_item(HOME, false, false);
    put(&mut old, 160, 3, 8);
    im.store(
        ROOTS,
        &leaf(
            ROOTS,
            &[
                (key(5, ROOT_ITEM_KEY, 0), root_item(TOP, false, false)),
                (key(258, ROOT_ITEM_KEY, 7), old),
                (key(258, ROOT_ITEM_KEY, 9), root_item(SNAP, true, true)),
                (key(258, ROOT_BACKREF_KEY, 5), root_ref(257, b"snap")),
            ],
        ),
    );
    let mut fs = open(&im);
    let all = ok(run(&im, &mut fs, |fs| fs.subvols()));
    assert_eq!(all.len(), 1);
    assert_eq!((all[0].generation, all[0].readonly, all[0].snapshot), (11, true, true));
    assert!(ok(run(&im, &mut fs, |fs| fs.is_snapshot(258))));
}

#[test]
fn what_a_directory_lists_is_what_lookup_finds() {
    let im = image();
    let mut fs = open(&im);
    for path in ["/", "/sub", "/@home", "/sub/snap"] {
        let dir = at(&im, &mut fs, path);
        for e in ok(run(&im, &mut fs, |fs| fs.readdir(dir))) {
            let found = match ok(run(&im, &mut fs, |fs| fs.lookup(dir, &e.name))) {
                Some(x) => x,
                None => panic!("not found"),
            };
            assert_eq!((found.name, found.loc), (e.name, e.loc));
            assert_eq!((found.ftype, found.subvol), (e.ftype, e.subvol));
        }
        assert!(ok(run(&im, &mut fs, |fs| fs.lookup(dir, b"no such name"))).is_none());
    }
    let none = Loc { tree: 0, ino: 0 };
    assert!(ok(run(&im, &mut fs, |fs| fs.lookup(none, b"x"))).is_none());
}

#[test]
fn the_path_of_a_subvolume_leads_to_it() {
    let im = image();
    let mut fs = open(&im);
    for s in ok(run(&im, &mut fs, |fs| fs.subvols())) {
        assert_eq!(at(&im, &mut fs, &s.path).tree, s.id);
    }
}

#[test]
fn a_chain_of_parents_that_never_ends_is_refused() {
    let mut im = image();
    let items = vec![
        (ino(256), inode_item(0, 0o040755, 1)),
        (key(300, INODE_REF_KEY, 301), inode_ref(b"a")),
        (key(301, INODE_REF_KEY, 300), inode_ref(b"b")),
    ];
    im.store(TOP, &leaf(TOP, &items));
    let mut fs = open(&im);
    let e = failure(run(&im, &mut fs, |fs| fs.path_in_tree(5, 300)));
    assert_eq!(
        e.message(),
        "inode 300 in tree 5: the parent chain never reaches the subvolume root"
    );
}

#[test]
fn opening_says_what_is_wrong() {
    let im = image();
    let told = |probes: Vec<Probe>| -> String { failure(Fs::open(probes)).message() };
    assert!(told(Vec::new()).starts_with("no device given: pass --device"));
    let with = |sb: Vec<u8>| {
        vec![Probe { path: "d".to_string(), outcome: Outcome::Super(sb) }]
    };
    let mut sb = im.sb.clone();
    sb[0x40] = 0;
    assert_eq!(told(with(sb)), "d: not a btrfs filesystem: no btrfs magic");
    let mut sb = im.sb.clone();
    sb[0x90] ^= 1;
    assert_eq!(told(with(sb)), "d: not a btrfs filesystem: superblock checksum mismatch");
    let mut sb = im.sb.clone();
    put(&mut sb, 0x90, 4097, 4);
    assert_eq!(told(with(resum(sb))), "d: not a btrfs filesystem: corrupt superblock: sectorsize 4097");
    let mut sb = im.sb.clone();
    put(&mut sb, 0x94, 131072, 4);
    assert_eq!(told(with(resum(sb))), "d: not a btrfs filesystem: corrupt superblock: nodesize 131072");
    let mut sb = im.sb.clone();
    put(&mut sb, 0xa0, 3000, 4);
    assert_eq!(
        told(with(resum(sb))),
        "d: not a btrfs filesystem: corrupt superblock: sys_chunk_array_size 3000"
    );
    let mut sb = im.sb.clone();
    put(&mut sb, 0xbc, 1 << 13, 8);
    assert!(told(with(resum(sb))).starts_with("filesystem uses extent-tree-v2"));
    let mut sb = im.sb.clone();
    sb[0x32b + 8] = 1;
    assert_eq!(told(with(resum(sb))), "corrupt sys_chunk_array: key type 1");
    assert_eq!(
        told(vec![Probe { path: "d".to_string(), outcome: Outcome::NotRead("bad".to_string()) }]),
        "d: reading superblock: bad"
    );
    let mut other = im.sb.clone();
    other[0x20] = 8;
    let mut two = probe(&im);
    two.push(Probe { path: "e".to_string(), outcome: Outcome::Super(resum(other)) });
    assert_eq!(told(two), "e belongs to a different filesystem than the other devices");
}

#[test]
fn the_superblock_of_the_highest_generation_counts() {
    let im = image();
    let mut newer = im.sb.clone();
    put(&mut newer, 0x48, 12, 8);
    put(&mut newer, 0xc9, 2, 8);
    let mut probes = vec![Probe { path: "b".to_string(), outcome: Outcome::Super(resum(newer)) }];
    probes.extend(probe(&im));
    let fs = ok(Fs::open(probes));
    assert_eq!(fs.sb().generation, 12);
    // By device id, not in the order given.
    assert_eq!(fs.device_paths().clone(), vec!["dev".to_string(), "b".to_string()]);
}

#[test]
fn missing_and_striped_devices_are_told() {
    let mut im = image();
    let chunk = chunk_item(SIZE, 1, &[(9, 0)]);
    im.store(
        CHUNKS,
        &leaf(CHUNKS, &[(key(256, CHUNK_ITEM_KEY, SIZE), chunk)]),
    );
    let mut fs = open(&im);
    assert_eq!(fs.chunks().len(), 2);
    let e = failure(run(&im, &mut fs, |fs| fs.get(SIZE, key(1, 1, 1))));
    assert_eq!(
        e.message(),
        "the device holding logical address 1048576 was not given (filesystem has 1 devices; pass each with --device)"
    );
    let chunk = chunk_item(SIZE, 1 | 8, &[(1, 0), (2, 0)]);
    im.store(CHUNKS, &leaf(CHUNKS, &[(key(256, CHUNK_ITEM_KEY, SIZE), chunk)]));
    let mut fs = open(&im);
    let e = failure(run(&im, &mut fs, |fs| fs.get(SIZE, key(1, 1, 1))));
    assert_eq!(e.message(), "raid0 chunks striped across devices are not supported");
    // A stripe that cannot be placed costs only itself.
    let chunk = chunk_item(SIZE, 1 | 0x20, &[(1, u64::MAX - 5), (1, 0)]);
    im.store(CHUNKS, &leaf(CHUNKS, &[(key(256, CHUNK_ITEM_KEY, SIZE), chunk)]));
    let fs = open(&im);
    match fs.mirrors(SIZE + 10, 4096) {
        Ok(v) => assert_eq!(v, vec![(1, 10)]),
        Err(e) => panic!("{}", e.message()),
    }
    let chunk = chunk_item(SIZE, 1, &[(1, u64::MAX - 5)]);
    im.store(CHUNKS, &leaf(CHUNKS, &[(key(256, CHUNK_ITEM_KEY, SIZE), chunk)]));
    let mut fs = open(&im);
    let e = failure(run(&im, &mut fs, |fs| fs.get(SIZE + 10, key(1, 1, 1))));
    assert_eq!(e.message(), "logical address 1048586 maps past the end of any device");
}

#[test]
fn a_chunk_tree_that_does_not_parse_is_told() {
    let mut im = image();
    let chunk = chunk_item(SIZE, 1, &[]);
    im.store(CHUNKS, &leaf(CHUNKS, &[(key(256, CHUNK_ITEM_KEY, SIZE), chunk)]));
    let mut fs = ok(Fs::open(probe(&im)));
    let e = failure(run(&im, &mut fs, |fs| fs.load_chunks()));
    assert_eq!(e.message(), "reading chunk tree: corrupt chunk at 1048576: zero stripes");
}

/// The message of reading a file whose only extent is `item`.
fn extent_failure(item: Vec<u8>, size: u64) -> String {
    let mut im = image();
    let mut home = vec![
        (ino(256), inode_item(0, 0o040755, 1)),
        (ino(257), inode_item(size, 0o100644, 5)),
        (key(257, EXTENT_DATA_KEY, 0), item),
    ];
    link(&mut home, 256, 2, b"sparse", ino(257), 1);
    im.store(HOME, &leaf(HOME, &home));
    let mut fs = open(&im);
    let loc = at(&im, &mut fs, "/@home/sparse");
    failure(contents(&im, &mut fs, loc, 0, u64::MAX)).message()
}

#[test]
fn corrupt_extents_are_told() {
    assert_eq!(
        extent_failure(inline(b"x", 0, 5000), 10),
        "inline extent claims 5000 bytes, more than the 4096-byte leaf holding it"
    );
    assert_eq!(
        extent_failure(regular(1, 0, 10, u64::MAX, 10, 1, 10), 10),
        format!("extent address {}+1 overflows", u64::MAX)
    );
    assert_eq!(
        extent_failure(regular(1, 1, 1 << 31, 1, 10, 0, 10), 10),
        "implausible compressed extent (10 -> 2147483648 bytes)"
    );
    assert_eq!(
        extent_failure(regular(1, 9, 10, 0x1000, 10, 0, 10), 10),
        "unknown compression type 9"
    );
    assert_eq!(
        extent_failure(regular(1, 1, 4096, PACKED, 4096, 4000, 4096), 4096),
        "extent reference outside its decompressed data"
    );
    let mut e = inline(b"x", 0, 1);
    e[17] = 1;
    assert_eq!(extent_failure(e, 10), "encrypted extents are not supported");
    assert_eq!(extent_failure(extent(7, 0, 1), 10), "unknown file extent type 7");
    let far = regular(1, 0, 10, u64::MAX - 4, 10, 0, 0x200000);
    assert!(extent_failure(far, 0x200000).ends_with("is not mapped by any chunk"));
}

#[test]
fn a_symlink_longer_than_a_path_is_refused() {
    let mut im = image();
    let mut home = vec![
        (ino(256), inode_item(0, 0o040755, 1)),
        (ino(257), inode_item(5000, 0o120777, 5)),
    ];
    link(&mut home, 256, 2, b"sparse", ino(257), 7);
    im.store(HOME, &leaf(HOME, &home));
    let mut fs = open(&im);
    let loc = at(&im, &mut fs, "/@home/sparse");
    let e = failure(run(&im, &mut fs, |fs| fs.read_symlink_target(loc)));
    assert_eq!(e.message(), "symlink claims a 5000-byte target, past the 4096-byte maximum");
}

/// A host that keeps what is written to it.
struct Sink {
    log: Vec<String>,
    there: Vec<String>,
    fail: Vec<String>,
}

impl Sink {
    fn new() -> Sink {
        Sink { log: Vec::new(), there: Vec::new(), fail: Vec::new() }
    }

    fn done(&mut self, what: &str, dest: &[String]) -> Told {
        let line = format!("{what} {}", dest.join("/"));
        let bad = self.fail.contains(&line);
        self.log.push(line);
        if bad {
            Told::Failed(Error::because(ErrorKind::Host, "no space".to_string()))
        } else {
            Told::Done
        }
    }
}

fn options(exclude: &[&str]) -> Options {
    let patterns: Vec<String> = exclude.iter().map(|s| s.to_string()).collect();
    Options {
        exclude: ok(exclude_set(&patterns)),
        force: false,
        one_subvolume: false,
        no_snapshots: false,
        manifest: false,
        host: Host::Unix,
    }
}

/// The place beside `dest` with another name.
fn beside(dest: &[String], part: &str) -> Vec<String> {
    let mut place = dest.to_vec();
    place.pop();
    place.push(part.to_string());
    place
}

/// Runs a copy of `path` against the sink.
fn copy(im: &Image, sink: &mut Sink, opts: Options, path: &str) -> (Copier, Option<Error>) {
    let mut fs = open(im);
    let loc = at(im, &mut fs, path);
    let mut c = Copier::new(opts, loc, path.to_string());
    for _ in 0..10000 {
        let told = match c.step(&fs) {
            Action::Again => continue,
            Action::Read(req) => {
                let reply = im.read(req);
                fs.supply(req, reply);
                continue;
            }
            Action::Finished(e) => return (c, e),
            Action::IsDir(d) => {
                sink.log.push(format!("isdir {}", d.join("/")));
                Told::Yes(sink.there.contains(&"isdir".to_string()))
            }
            Action::Examine(d) => {
                let name = d.join("/");
                let thing = if sink.there.contains(&name) {
                    Thing::Other
                } else if sink.there.contains(&format!("{name}@")) {
                    Thing::Symlink
                } else {
                    Thing::Nothing
                };
                Told::Found { thing, shown: format!("out/{name}") }
            }
            Action::ExaminePart { dest, part } => {
                let name = beside(&dest, &part).join("/");
                let thing = if sink.there.contains(&name) {
                    Thing::Other
                } else if sink.there.contains(&format!("{name}@")) {
                    Thing::Symlink
                } else {
                    Thing::Nothing
                };
                Told::Found { thing, shown: format!("out/{name}") }
            }
            Action::MakeDir(d) => sink.done("mkdir", &d),
            Action::Remove(d) => sink.done("rm", &d),
            Action::RemovePart { dest, part } => sink.done("rm", &beside(&dest, &part)),
            Action::Confirm(d) => {
                let inside = !sink.fail.contains(&format!("confirm {}", d.join("/")));
                Told::Placed { inside, shown: "out".to_string() }
            }
            Action::Target(loc) => {
                let r = ok(run(im, &mut fs, |fs| fs.read_symlink_target(loc)));
                let b = ok(drain(im, &mut fs, r)).into_iter().flat_map(|(_, b)| b).collect();
                Told::Target(b)
            }
            Action::Symlink { target, dest, src } => {
                let t = sink.done("ln", &dest);
                sink.log.push(format!("to {target} from {src}"));
                t
            }
            Action::Write { loc, dest, part, size, mode } => {
                sink.log.push(format!("into {}", beside(&dest, &part).join("/")));
                let b = ok(contents(im, &mut fs, loc, 0, u64::MAX));
                assert_eq!(b.len() as u64, size);
                sink.log.push(format!("mode {:o}", mode & 0o7777));
                sink.done("write", &dest)
            }
            Action::Rename { dest, part } => {
                sink.log.push(format!("from {}", beside(&dest, &part).join("/")));
                sink.done("mv", &dest)
            }
            Action::SetTime { dest, sec, .. } => {
                sink.log.push(format!("time {} {sec}", dest.join("/")));
                Told::Done
            }
            Action::Manifest(l) => {
                sink.log.push(format!(
                    "note {} {} {} {} {:?}",
                    l.path,
                    l.dest.join("/"),
                    l.ty,
                    l.mode,
                    l.target
                ));
                Told::Done
            }
        };
        c.told(told);
    }
    panic!("no end of the copy");
}

#[test]
fn a_tree_is_copied() {
    let im = image();
    let mut sink = Sink::new();
    let (c, e) = copy(&im, &mut sink, options(&[]), "/");
    assert!(e.is_none());
    let r = c.report();
    assert_eq!((r.files, r.dirs, r.symlinks, r.failures), (3, 5, 1, 0));
    assert_eq!(r.bytes, 20000 + 10000 + 5);
    assert!(r.verdict().is_ok());
    assert_eq!(
        r.warnings,
        vec![
            "/sub/a/b: written as \"a_b\" (the original name is not representable here)",
            "/sub/pipe: skipped fifo",
        ]
    );
    assert_eq!(sink.log[0], "mkdir ");
    let wanted = [
        "mkdir @home",
        "mode 644",
        "write @home/sparse",
        "mv @home/sparse",
        "time @home/sparse 5",
        "time @home 1",
        "write file",
        "write sub/a_b",
        "ln sub/link",
        "to over/here from /sub/link",
        "mkdir sub/snap/nested",
        "time  1",
    ];
    let mut from = 0;
    for w in wanted {
        let at = sink.log[from..].iter().position(|l| l == w);
        assert!(at.is_some(), "{w} not in {:?}", &sink.log[from..]);
        from += at.unwrap() + 1;
    }
}

#[test]
fn excluded_entries_and_snapshots_are_left_out() {
    let im = image();
    let mut sink = Sink::new();
    let (c, _) = copy(&im, &mut sink, options(&["sparse", "sub/li*"]), "/");
    assert_eq!(c.report().excluded, 2);
    assert!(!sink.log.iter().any(|l| l.contains("sparse") || l.contains("link")));

    let mut opts = options(&[]);
    opts.no_snapshots = true;
    let mut sink = Sink::new();
    let (c, _) = copy(&im, &mut sink, opts, "/");
    assert_eq!(c.report().excluded, 1);
    assert!(sink.log.contains(&"mkdir @home".to_string()));
    assert!(!sink.log.contains(&"mkdir sub/snap".to_string()));

    let mut opts = options(&[]);
    opts.one_subvolume = true;
    let mut sink = Sink::new();
    let (c, _) = copy(&im, &mut sink, opts, "/");
    assert_eq!(c.report().excluded, 2);
    assert!(!sink.log.contains(&"mkdir @home".to_string()));
}

#[test]
fn one_failure_does_not_cost_the_rest() {
    let im = image();
    let mut sink = Sink::new();
    sink.fail.push("write file".to_string());
    sink.fail.push("mkdir @home".to_string());
    let (c, e) = copy(&im, &mut sink, options(&[]), "/");
    assert!(e.is_none());
    let r = c.report();
    assert_eq!(r.failures, 2);
    assert_eq!(r.warnings[0], "/@home: no space");
    assert_eq!(r.warnings[1], "/file: no space");
    assert!(sink.log.contains(&"write sub/a_b".to_string()));
    // What was not written is not moved into place.
    assert!(!sink.log.contains(&"mv file".to_string()));
    let e = failure(r.verdict());
    assert_eq!(e.exit_code(), 5);
    assert_eq!(e.message(), "2 entries could not be copied; the copy is incomplete");
}

#[test]
fn what_is_there_is_not_overwritten_unless_forced() {
    let im = image();
    let mut sink = Sink::new();
    sink.there.push("file".to_string());
    sink.there.push("sub@".to_string());
    let (c, _) = copy(&im, &mut sink, options(&[]), "/");
    assert_eq!(
        c.report().warnings,
        vec![
            "/file: out/file already exists (use --force to overwrite)",
            "/sub: out/sub is a symlink; refusing to write through it",
        ]
    );
    assert_eq!(c.report().failures, 2);
    let mut opts = options(&[]);
    opts.force = true;
    let (c, _) = copy(&im, &mut sink, opts, "/");
    assert_eq!(c.report().failures, 1);
    let rm = sink.log.iter().position(|l| l == "rm file").unwrap();
    assert!(sink.log[rm..].contains(&"mv file".to_string()));
}

#[test]
fn a_link_in_the_temporary_place_is_not_followed() {
    let im = image();
    let mut sink = Sink::new();
    sink.there.push("file.btrfs-peek-partial@".to_string());
    let (c, _) = copy(&im, &mut sink, options(&[]), "/");
    assert_eq!(
        c.report().warnings[0],
        "/file: out/file.btrfs-peek-partial already exists (use --force to overwrite)"
    );
    assert!(!sink.log.contains(&"write file".to_string()));
    let mut opts = options(&[]);
    opts.force = true;
    let mut sink = Sink::new();
    sink.there.push("file.btrfs-peek-partial@".to_string());
    let (c, _) = copy(&im, &mut sink, opts, "/");
    assert_eq!(c.report().failures, 0);
    let rm = sink.log.iter().position(|l| l == "rm file.btrfs-peek-partial").unwrap();
    assert!(sink.log[rm..].contains(&"write file".to_string()));
}

#[test]
fn what_an_earlier_run_left_is_taken_over() {
    let im = image();
    let mut sink = Sink::new();
    sink.there.push("file.btrfs-peek-partial".to_string());
    let (c, _) = copy(&im, &mut sink, options(&[]), "/");
    assert_eq!(c.report().failures, 0);
    let rm = sink.log.iter().position(|l| l == "rm file.btrfs-peek-partial").unwrap();
    assert!(sink.log[rm..].contains(&"into file.btrfs-peek-partial".to_string()));
    assert!(sink.log[rm..].contains(&"mv file".to_string()));
    // What cannot be removed fails the file, not the copy.
    let mut sink = Sink::new();
    sink.there.push("file.btrfs-peek-partial".to_string());
    sink.fail.push("rm file.btrfs-peek-partial".to_string());
    let (c, _) = copy(&im, &mut sink, options(&[]), "/");
    assert_eq!(c.report().failures, 1);
    assert!(!sink.log.contains(&"write file".to_string()));
}

#[test]
fn no_file_is_written_over_an_entry_copied_before() {
    let mut im = image();
    let mut home = vec![
        (ino(256), inode_item(0, 0o040755, 1)),
        (ino(257), inode_item(1, 0o120777, 5)),
        (key(257, EXTENT_DATA_KEY, 0), inline(b"/", 0, 1)),
        (ino(258), inode_item(5, 0o100600, 4)),
        (key(258, EXTENT_DATA_KEY, 0), inline(b"small", 0, 5)),
    ];
    // Rewritten, the link's name is the temporary one of the file, and it comes first.
    link(&mut home, 256, 2, b"/f.btrfs-peek-partial", ino(257), 7);
    link(&mut home, 256, 3, b"_f", ino(258), 1);
    link(&mut home, 256, 4, b"a", ino(258), 1);
    link(&mut home, 256, 5, b"a.btrfs-peek-partial", ino(257), 7);
    im.store(HOME, &leaf(HOME, &home));
    let mut sink = Sink::new();
    let (c, _) = copy(&im, &mut sink, options(&[]), "/@home");
    assert_eq!(c.report().failures, 0);
    // All keep their names, but for the one that cannot.
    assert_eq!(c.report().warnings.len(), 1);
    let has = |l: &str| sink.log.contains(&l.to_string());
    assert!(has("ln _f.btrfs-peek-partial"));
    assert!(has("into _f.btrfs-peek-partial~1"));
    assert!(has("from _f.btrfs-peek-partial~1"));
    assert!(has("mv _f"));
    assert!(has("into a.btrfs-peek-partial"));
    assert!(has("mv a"));
    assert!(has("ln a.btrfs-peek-partial"));
}

#[test]
fn an_entry_outside_the_destination_is_refused() {
    let im = image();
    let mut sink = Sink::new();
    sink.fail.push("confirm file".to_string());
    let (c, _) = copy(&im, &mut sink, options(&[]), "/");
    assert_eq!(c.report().warnings[0], "/file: refusing to write outside out");
    assert_eq!(c.report().failures, 1);
    assert!(!sink.log.contains(&"write file".to_string()));
}

#[test]
fn a_symlink_the_host_cannot_make_is_a_warning() {
    let im = image();
    let mut sink = Sink::new();
    sink.fail.push("ln sub/link".to_string());
    let (c, _) = copy(&im, &mut sink, options(&[]), "/");
    assert_eq!(c.report().failures, 0);
    assert_eq!(c.report().symlinks, 0);
    assert!(c.report().warnings.contains(
        &"/sub/link: symlink to \"over/here\" not created (no space); it is recorded in the manifest"
            .to_string()
    ));
}

#[test]
fn a_lone_file_goes_into_a_directory_or_takes_the_name_given() {
    let im = image();
    let mut sink = Sink::new();
    let (c, e) = copy(&im, &mut sink, options(&[]), "/file");
    assert!(e.is_none());
    assert_eq!(c.report().files, 1);
    assert!(sink.log.contains(&"mv ".to_string()));
    let mut sink = Sink::new();
    sink.there.push("isdir".to_string());
    copy(&im, &mut sink, options(&[]), "/file");
    assert!(sink.log.contains(&"mv file".to_string()));
    // A failure of the only thing to copy is the failure of the copy.
    let mut sink = Sink::new();
    sink.fail.push("write ".to_string());
    let (_, e) = copy(&im, &mut sink, options(&[]), "/file");
    assert_eq!(e.unwrap().message(), "no space");
}

#[test]
fn a_manifest_has_a_line_for_each_entry() {
    let im = image();
    let mut sink = Sink::new();
    let mut opts = options(&[]);
    opts.manifest = true;
    copy(&im, &mut sink, opts, "/sub");
    let notes: Vec<&String> = sink.log.iter().filter(|l| l.starts_with("note")).collect();
    assert_eq!(notes[0], "note /sub  dir 700 None");
    assert_eq!(notes[1], "note /sub/a/b a_b file 600 None");
    assert_eq!(notes[2], "note /sub/link link symlink 777 Some(\"over/here\")");
}

/// A directory that contains itself.
fn looped() -> Image {
    let mut im = image();
    let mut home = vec![
        (ino(256), inode_item(0, 0o040755, 1)),
        (ino(257), inode_item(0, 0o040755, 5)),
        (ino(258), inode_item(0, 0o100644, 5)),
    ];
    link(&mut home, 256, 2, b"dir", ino(257), 2);
    link(&mut home, 257, 2, b"again", ino(256), 2);
    link(&mut home, 257, 3, b"other", ino(258), 1);
    im.store(HOME, &leaf(HOME, &home));
    im
}

#[test]
fn a_directory_inside_itself_is_skipped() {
    let im = looped();
    let mut sink = Sink::new();
    let (c, _) = copy(&im, &mut sink, options(&[]), "/@home");
    assert_eq!(
        c.report().warnings,
        vec!["/@home/dir/again: directory loops back to one of its own parents; skipped"]
    );
    assert_eq!((c.report().files, c.report().dirs), (1, 2));
}

fn query() -> FindQuery {
    FindQuery { name: None, ty: None, max_depth: None, one_subvolume: false, no_snapshots: false }
}

fn search(im: &Image, q: FindQuery, path: &str) -> (Vec<String>, Vec<String>, Option<Error>) {
    let mut fs = open(im);
    let loc = at(im, &mut fs, path);
    let mut s = Finder::new(q, loc, path.to_string());
    let mut found = Vec::new();
    let mut warned = Vec::new();
    for _ in 0..10000 {
        match s.step(&fs) {
            Finding::Again => {}
            Finding::Read(req) => {
                let reply = im.read(req);
                fs.supply(req, reply);
            }
            Finding::Found(p) => found.push(p),
            Finding::Warning(w) => warned.push(w),
            Finding::Finished(e) => return (found, warned, e),
        }
    }
    panic!("no end of the search");
}

#[test]
fn a_tree_is_searched() {
    let im = image();
    let (found, warned, e) = search(&im, query(), "/");
    assert!(e.is_none() && warned.is_empty());
    assert_eq!(
        found,
        vec![
            "/@home",
            "/@home/sparse",
            "/file",
            "/sub",
            "/sub/a/b",
            "/sub/link",
            "/sub/pipe",
            "/sub/snap",
            "/sub/snap/nested",
        ]
    );
    let (found, _, _) = search(&im, FindQuery { ty: Some('l'), ..query() }, "/");
    assert_eq!(found, vec!["/sub/link"]);
    let (found, _, _) = search(&im, FindQuery { max_depth: Some(1), ..query() }, "/");
    assert_eq!(found, vec!["/@home", "/file", "/sub"]);
    let (found, _, _) = search(&im, FindQuery { max_depth: Some(0), ..query() }, "/");
    assert!(found.is_empty());
    let q = FindQuery { name: Some(ok(name_set("s*"))), ..query() };
    assert_eq!(search(&im, q, "/").0, vec!["/@home/sparse", "/sub", "/sub/snap"]);
    let q = FindQuery { one_subvolume: true, ..query() };
    assert_eq!(
        search(&im, q, "/").0,
        vec!["/@home", "/file", "/sub", "/sub/a/b", "/sub/link", "/sub/pipe", "/sub/snap"]
    );
    let q = FindQuery { no_snapshots: true, ..query() };
    assert!(!search(&im, q, "/").0.contains(&"/sub/snap/nested".to_string()));
}

#[test]
fn a_search_that_loops_warns_and_goes_on() {
    let im = looped();
    let (found, warned, e) = search(&im, query(), "/@home");
    assert!(e.is_none());
    assert_eq!(found, vec!["/@home/dir", "/@home/dir/again", "/@home/dir/other"]);
    assert_eq!(
        warned,
        vec!["/@home/dir/again: /@home/dir/again: directory loops back to one of its own parents"]
    );
}

#[test]
fn a_directory_that_cannot_be_read_is_warned_of() {
    let mut im = image();
    im.dev[SNAP as usize + 2000] ^= 1;
    im.dev[(SNAP + MIRROR) as usize + 2000] ^= 1;
    let (found, warned, e) = search(&im, query(), "/");
    assert!(e.is_none());
    assert!(found.contains(&"/sub/snap".to_string()));
    assert_eq!(warned, vec![format!("/sub/snap: tree block at {SNAP} failed its checksum")]);
}

#[test]
fn only_three_types_can_be_searched_for() {
    assert!(check_type(None).is_ok());
    assert!(check_type(Some('f')).is_ok() && check_type(Some('l')).is_ok());
    assert_eq!(failure(check_type(Some('x'))).message(), "--type must be f, d, or l");
}

#[test]
fn names_are_joined_to_directories() {
    assert_eq!(join("/", "a"), "/a");
    assert_eq!(join("/a//", "b"), "/a/b");
    assert_eq!(join("", "b"), "/b");
}

#[test]
fn bad_globs_are_told() {
    let e = failure(exclude_set(&vec!["ok".to_string(), "a[".to_string()]));
    assert!(e.message().starts_with("--exclude a[: error parsing glob 'a['"), "{}", e.message());
    let e = failure(name_set("{"));
    assert!(e.message().starts_with("--name: error parsing glob '{'"), "{}", e.message());
}

#[test]
fn the_first_bad_glob_is_the_one_told() {
    let patterns: Vec<String> =
        ["ok", "a[", "b["].iter().map(|s| s.to_string()).collect();
    let parsed = vec![
        Ok(globset::Glob::new("ok").unwrap()),
        Err("first".to_string()),
        Err("second".to_string()),
    ];
    assert_eq!(failure(exclude_globs(parsed, &patterns)).message(), "--exclude a[: first");
    let parsed = vec![Ok(globset::Glob::new("ok").unwrap()); 3];
    assert_eq!(ok(exclude_globs(parsed, &patterns)).len(), 3);
    let e = failure(set_or_error(Err("why".to_string()), "--name".to_string()));
    assert_eq!(e.message(), "--name: why");
}

#[test]
fn a_glob_that_is_nested_too_deep_is_refused() {
    let deep = "{".repeat(100_000);
    let says = "groups of alternates are nested too deep";
    let e = failure(name_set(&deep));
    assert!(matches!(e.kind, ErrorKind::DeepGlob));
    assert_eq!(e.message(), format!("--name: {says}"));
    // The first such pattern is named, before any other error.
    let patterns: Vec<String> =
        ["a[", deep.as_str(), "{{"].iter().map(|s| s.to_string()).collect();
    let e = failure(exclude_set(&patterns));
    assert!(matches!(e.kind, ErrorKind::DeepGlob));
    assert_eq!(e.message(), format!("--exclude {deep}: {says}"));
    // Depth counts, not number.
    assert!(name_set(&"{a,b}".repeat(300)).is_ok());
    let nested = |n: usize| format!("{}a{}", "{".repeat(n), "}".repeat(n));
    assert!(name_set(&nested(100)).is_ok());
    assert!(matches!(failure(name_set(&nested(257))).kind, ErrorKind::DeepGlob));
    // Other errors are of another kind.
    assert!(matches!(failure(name_set("{a")).kind, ErrorKind::BadGlob));
    assert!(matches!(failure(name_set(&"{".repeat(256))).kind, ErrorKind::BadGlob));
    assert!(name_set("{a,b}*.{rs,toml}").is_ok());
    let set = ok(name_set("{a,{b,c}d}"));
    assert!(set.is_match("a") && set.is_match("cd") && !set.is_match("c"));
}

#[test]
fn links_are_resolved_in_the_source() {
    assert_eq!(link_path("/a/b", "/c"), "/c");
    assert_eq!(link_path("/a/b", "c/d"), "/a/c/d");
    assert_eq!(link_path("b", "c"), "//c");
    assert_eq!(windows_target("../a/b"), "..\\a\\b");
    assert_eq!(partial_name("x"), "x.btrfs-peek-partial");
    assert_eq!(seek_step(5), 5);
    assert_eq!(seek_step(u64::MAX), i64::MAX);
    let im = image();
    let mut fs = open(&im);
    let mut is_dir = |target: &str| -> bool {
        ok(run(&im, &mut fs, |fs| match fs.link_is_dir("/sub/link", target) {
            Ok(b) => Ok(b),
            Err(req) => Err(Stop::Read(req)),
        }))
    };
    assert!(is_dir("/@home"));
    assert!(is_dir("snap"));
    assert!(!is_dir("../file"));
    assert!(!is_dir("nowhere"));
}
