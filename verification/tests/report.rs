use btrfs_peek::disk::{Chunk, Extent, ExtentKind, Inode};
use btrfs_peek::lookup::Loc;
use btrfs_peek::names::Host;
use btrfs_peek::report::{
    cat_end, compressions, describe, distinct, entry_label, features, long_line, mode_string,
    open_error, profiles, subvol_line, summary, uuid, Word,
};
use btrfs_peek::subvol::Subvol;
use btrfs_peek::time::iso_time;

fn inode(mode: u32) -> Inode {
    Inode { size: 1234, nlink: 2, uid: 1000, gid: 100, mode, mtime_sec: 951_782_400, mtime_nsec: 5 }
}

#[test]
fn iso_time_handles_epoch_leap_days_and_negatives() {
    assert_eq!(iso_time(0), "1970-01-01T00:00:00Z");
    assert_eq!(iso_time(951_782_400), "2000-02-29T00:00:00Z");
    assert_eq!(iso_time(1_789_824_609), "2026-09-19T13:30:09Z");
    assert_eq!(iso_time(-1), "1969-12-31T23:59:59Z");
}

#[test]
fn iso_time_reaches_every_second_there_is() {
    assert_eq!(iso_time(i64::MAX), "292277026596-12-04T15:30:07Z");
    assert_eq!(iso_time(i64::MIN), "-292277022657-01-27T08:29:52Z");
    // Year 0, and the years before it.
    assert_eq!(iso_time(-62_167_219_200), "0000-01-01T00:00:00Z");
    assert_eq!(iso_time(-62_167_219_201), "-001-12-31T23:59:59Z");
    assert_eq!(iso_time(253_402_300_800), "10000-01-01T00:00:00Z");
    // 1900 was no leap year.
    assert_eq!(iso_time(-2_203_891_200), "1900-03-01T00:00:00Z");
    assert_eq!(iso_time(-2_203_891_201), "1900-02-28T23:59:59Z");
}

#[test]
fn later_times_have_later_texts() {
    let times = [
        -62_167_219_200,
        -62_167_219_199,
        -2_203_891_201,
        -2_203_891_200,
        -1,
        0,
        9,
        10,
        59,
        60,
        3_599,
        3_600,
        86_399,
        86_400,
        951_782_400,
        1_789_824_609,
        253_402_300_799,
    ];
    for w in times.windows(2) {
        let (a, b) = (iso_time(w[0]), iso_time(w[1]));
        assert!(a < b, "{a} {b}");
        assert_eq!((a.len(), b.len()), (20, 20));
    }
    assert_eq!(iso_time(253_402_300_799), "9999-12-31T23:59:59Z");
}

#[test]
fn mode_string_renders_like_ls() {
    assert_eq!(mode_string(0o100755), "-rwxr-xr-x");
    assert_eq!(mode_string(0o040700), "drwx------");
    assert_eq!(mode_string(0o120777), "lrwxrwxrwx");
}

#[test]
fn mode_string_knows_the_other_types() {
    assert_eq!(mode_string(0o020644), "crw-r--r--");
    assert_eq!(mode_string(0o060600), "brw-------");
    assert_eq!(mode_string(0o010002), "p-------w-");
    assert_eq!(mode_string(0o140001), "s--------x");
    assert_eq!(mode_string(0), "----------");
}

#[test]
fn a_uuid_has_five_groups() {
    let mut b = [0u8; 16];
    for i in 0..16 {
        b[i] = (i * 17) as u8;
    }
    assert_eq!(uuid(&b), "00112233-4455-6677-8899-aabbccddeeff");
}

#[test]
fn a_long_line_shows_type_owner_size_and_time() {
    let loc = Loc { tree: 5, ino: 257 };
    let d = describe(loc, inode(0o100644), "/a/b", false, None);
    assert_eq!(d.ty, "file");
    assert_eq!(d.mode, "644");
    assert_eq!(d.inode, 257);
    assert_eq!(d.subvolume_id, 5);
    assert_eq!(
        long_line(&d, "b"),
        "-rw-r--r--  1000   100         1234 2000-02-29T00:00:00Z b"
    );
    let d = describe(loc, inode(0o120777), "/a/l", false, Some(b"there".to_vec()));
    assert_eq!(
        long_line(&d, "l"),
        "lrwxrwxrwx  1000   100         1234 2000-02-29T00:00:00Z l -> there"
    );
    let d = describe(loc, inode(0o040755), "/s", true, None);
    assert_eq!(d.ty, "subvolume");
    assert_eq!(
        long_line(&d, "s"),
        "drwxr-xr-x  1000   100         1234 2000-02-29T00:00:00Z s  [subvolume]"
    );
    // A device shows no type of its own in a line.
    let d = describe(loc, inode(0o020600), "/c", false, None);
    assert_eq!(d.ty, "chardev");
    assert!(long_line(&d, "c").starts_with("-rw-------"));
}

#[test]
fn a_short_listing_marks_directories_and_links() {
    assert_eq!(entry_label("d", 2), "d/");
    assert_eq!(entry_label("l", 7), "l@");
    assert_eq!(entry_label("f", 1), "f");
}

#[test]
fn the_end_of_a_range_does_not_overflow() {
    assert_eq!(cat_end(10, Some(5)), 15);
    assert_eq!(cat_end(10, None), u64::MAX);
    assert_eq!(cat_end(u64::MAX, Some(5)), u64::MAX);
}

#[test]
fn a_subvolume_line_has_its_tags() {
    let s = Subvol {
        id: 257,
        parent: 5,
        path: "/@home".to_string(),
        readonly: true,
        snapshot: true,
        generation: 9,
    };
    assert_eq!(subvol_line(&s, 257), "   257  /@home  snapshot,readonly,default");
    assert_eq!(subvol_line(&s, 5), "   257  /@home  snapshot,readonly");
    let s = Subvol { readonly: false, snapshot: false, id: 1234567, ..s };
    assert_eq!(subvol_line(&s, 5), "1234567  /@home  ");
}

#[test]
fn words_come_once_and_in_order() {
    let words: Vec<Word> = ["zlib", "none", "zlib", "lzo", "none"]
        .iter()
        .map(|s| Word { text: s.to_string() })
        .collect();
    assert_eq!(distinct(&words), vec!["lzo", "none", "zlib"]);
    assert!(distinct(&Vec::new()).is_empty());
}

#[test]
fn profiles_and_compressions_come_once() {
    let chunk = |ty: u64| Chunk { start: 0, length: 0, ty, stripes: vec![(1, 0)] };
    let chunks = vec![chunk(1), chunk(4 | 0x20), chunk(2 | 0x20), chunk(1)];
    assert_eq!(profiles(&chunks), vec!["data:single", "metadata:dup", "system:dup"]);
    let ext = |c: u8| Extent {
        file_off: 0,
        len: 0,
        ram_bytes: 0,
        compression: c,
        kind: ExtentKind::Prealloc,
    };
    assert_eq!(compressions(&vec![ext(3), ext(0), ext(3), ext(9)]), vec!["none", "unknown", "zstd"]);
}

#[test]
fn features_are_named_from_the_lowest_bit_on() {
    assert_eq!(features(0x341), vec!["mixed-backref", "extended-iref", "skinny-metadata", "no-holes"]);
    // Bit 15 has no name.
    assert_eq!(features(0x18000), vec!["simple-quota"]);
    assert!(features(0).is_empty());
}

#[test]
fn an_empty_copy_is_summed_up() {
    let mut r = btrfs_peek::copy::Report::default();
    r.files = 3;
    r.bytes = 70;
    r.failures = 2;
    assert_eq!(
        summary(&r),
        "copied 3 files, 0 dirs, 0 symlinks, 70 bytes; 0 excluded, 2 failed"
    );
}

#[test]
fn a_denied_device_has_an_exit_code_of_its_own() {
    let e = open_error("/dev/sda", true, "whatever".to_string(), Host::Unix);
    assert_eq!(e.exit_code(), 4);
    assert_eq!(
        e.message(),
        "/dev/sda: access denied; raw disks need privileges: run as root, or add yourself to the `disk` group: access denied"
    );
    let e = open_error("X", true, String::new(), Host::Windows);
    assert!(e.message().contains("elevated (Administrator)"));
    let e = open_error("/dev/sda", false, "no such file".to_string(), Host::Unix);
    assert_eq!(e.exit_code(), 1);
    assert_eq!(e.message(), "opening /dev/sda: no such file");
}
