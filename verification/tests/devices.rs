//! Reading devices, and finding filesystems on them.

use btrfs_peek::dev::{past_end_message, DeviceRead};
use btrfs_peek::error::{Codec, Error, ErrorKind, NotFound};
use btrfs_peek::scan::{partitions, scan, windows_devices, Candidate, Look};
use btrfs_peek::text::number;

/// Reads from a device that holds `dev`, in gifts of at most `most` bytes.
fn read(dev: &[u8], off: u64, len: usize, most: usize) -> (Result<Vec<u8>, String>, Vec<u64>) {
    let mut r = match DeviceRead::new(off, len) {
        Some(r) => r,
        None => panic!("no plan"),
    };
    let mut asked = Vec::new();
    while let Some((at, n)) = r.next() {
        asked.push(at);
        let from = (at as usize).min(dev.len());
        let to = (from + n.min(most)).min(dev.len());
        r.give(&dev[from..to]);
    }
    (r.finish("disk"), asked)
}

#[test]
fn a_read_is_widened_to_boundaries() {
    let dev: Vec<u8> = (0..20000u32).map(|i| (i % 251) as u8).collect();
    let (got, asked) = read(&dev, 5000, 100, usize::MAX);
    assert_eq!(got.unwrap(), &dev[5000..5100]);
    assert_eq!(asked, vec![4096]);
    // Over a boundary, and in small gifts.
    let (got, asked) = read(&dev, 8190, 4, 3000);
    assert_eq!(got.unwrap(), &dev[8190..8194]);
    assert_eq!(asked, vec![4096, 7096, 10096]);
    assert_eq!(read(&dev, 4096, 0, 10).0.unwrap(), Vec::<u8>::new());
}

#[test]
fn an_image_need_not_end_on_a_boundary() {
    let dev = vec![5u8; 5000];
    assert_eq!(read(&dev, 4990, 10, usize::MAX).0.unwrap(), vec![5; 10]);
    assert_eq!(
        read(&dev, 4990, 11, usize::MAX).0.unwrap_err(),
        "disk: read of 11 bytes at offset 4990 ran past the end of the device"
    );
    assert_eq!(read(&dev, 9000, 1, usize::MAX).0.unwrap_err(), past_end_message("disk", 1, 9000));
}

#[test]
fn long_reads_come_in_pieces() {
    let r = match DeviceRead::new(4096, 0x50_0000) {
        Some(r) => r,
        None => panic!("no plan"),
    };
    assert_eq!(r.next(), Some((4096, 0x40_0000)));
    let (got, asked) = read(&vec![1u8; 0x60_0000], 4096, 0x50_0000, usize::MAX);
    assert_eq!(got.unwrap().len(), 0x50_0000);
    assert_eq!(asked, vec![4096, 4096 + 0x40_0000]);
}

#[test]
fn a_gift_past_what_was_asked_for_is_cut() {
    let mut r = match DeviceRead::new(0, 10) {
        Some(r) => r,
        None => panic!("no plan"),
    };
    r.give(&[7u8; 5000]);
    assert_eq!(r.next(), None);
    r.give(&[8u8; 5000]);
    assert_eq!(r.finish("disk").unwrap(), vec![7; 10]);
}

#[test]
fn a_read_past_the_last_address_has_no_plan() {
    assert!(DeviceRead::new(u64::MAX, 1).is_none());
    assert!(DeviceRead::new(u64::MAX - 8191, 4096).is_some());
    assert!(DeviceRead::new(u64::MAX - 4095, 4096).is_none());
}

fn superblock(label: &[u8]) -> Vec<u8> {
    let mut b = vec![0u8; 4096];
    b[0x40..0x48].copy_from_slice(b"_BHRfS_M");
    b[0x20..0x30].copy_from_slice(&[0xab; 16]);
    b[0x70..0x78].copy_from_slice(&1000u64.to_le_bytes());
    b[0x78..0x80].copy_from_slice(&500u64.to_le_bytes());
    b[0x88..0x90].copy_from_slice(&2u64.to_le_bytes());
    b[0x90..0x94].copy_from_slice(&4096u32.to_le_bytes());
    b[0x94..0x98].copy_from_slice(&16384u32.to_le_bytes());
    b[0x12b..0x12b + label.len()].copy_from_slice(label);
    let sum = crc32c::crc32c(&b[32..]);
    b[..4].copy_from_slice(&sum.to_le_bytes());
    b
}

fn candidate(path: &str, look: Look) -> Candidate {
    Candidate { path: path.to_string(), look }
}

#[test]
fn filesystems_are_found_among_devices() {
    let r = scan(&vec![
        candidate("a", Look::Denied),
        candidate("b", Look::Bytes(superblock(b"my \"disk\""))),
        candidate("c", Look::Nothing),
        candidate("d", Look::Bytes(vec![0; 4096])),
        candidate("e", Look::Denied),
    ]);
    assert_eq!(r.filesystems.len(), 1);
    let f = &r.filesystems[0];
    assert_eq!((f.device.as_str(), f.label.as_str()), ("b", "my \"disk\""));
    assert_eq!((f.total_bytes, f.bytes_used, f.num_devices), (1000, 500, 2));
    assert_eq!(
        f.line(),
        "b  label=\"my \\\"disk\\\"\" uuid=abababab-abab-abab-abab-abababababab size=1000 used=500 devices=2"
    );
    assert_eq!(r.access_denied, vec!["a", "e"]);
    assert_eq!(
        r.denied().unwrap(),
        "2 devices could not be opened; rerun with admin/root privileges to scan them"
    );
    assert!(r.verdict().is_ok());
}

#[test]
fn a_scan_that_was_only_denied_fails() {
    let r = scan(&vec![candidate("a", Look::Denied)]);
    match r.verdict() {
        Err(e) => assert_eq!((e.message().as_str(), e.exit_code()), ("access denied", 4)),
        Ok(_) => panic!("no error"),
    }
    let r = scan(&Vec::new());
    assert!(r.denied().is_none());
    assert!(r.verdict().is_ok());
}

#[test]
fn the_table_of_partitions_is_read() {
    let text = "major minor  #blocks  name\n\n 259        0  500107608 nvme0n1\n 259        1     524288 nvme0n1p1\nshort line\n   8  0  1 sda extra\r\n";
    assert_eq!(partitions(text), vec!["/dev/nvme0n1", "/dev/nvme0n1p1", "/dev/sda"]);
    assert!(partitions("").is_empty());
    assert!(partitions("a b c d\ne f g h").is_empty());
    assert_eq!(partitions("\n\n1\u{2003}2 3\tlast"), vec!["/dev/last"]);
}

#[test]
fn every_partition_of_every_disk_is_tried_on_windows() {
    let all = windows_devices();
    assert_eq!(all.len(), 2080);
    assert_eq!(all[0], "\\\\.\\Harddisk0Partition0");
    assert_eq!(all[64], "\\\\.\\Harddisk0Partition64");
    assert_eq!(all[65], "\\\\.\\Harddisk1Partition0");
    assert_eq!(all[2079], "\\\\.\\Harddisk31Partition64");
}

#[test]
fn errors_say_what_they_are() {
    let said = |kind: ErrorKind| Error::plain(kind).message();
    assert_eq!(said(ErrorKind::BrokenPipe), "broken pipe");
    assert_eq!(said(ErrorKind::AccessDenied), "access denied");
    assert_eq!(
        said(ErrorKind::CopyTooDeep),
        "directory nesting deeper than 256; the filesystem is corrupt"
    );
    assert_eq!(said(ErrorKind::NoFreeName), "no free name is left in the destination");
    assert_eq!(said(ErrorKind::AddressOverflow), "extent address overflows");
    assert_eq!(
        Error::about(ErrorKind::IsADirectory, "/a".to_string()).message(),
        "/a is a directory"
    );
    assert_eq!(Error::because(ErrorKind::Host, "no".to_string()).message(), "no");
    assert_eq!(
        Error::because(ErrorKind::Host, "no".to_string()).within("creating x".to_string()).message(),
        "creating x: no"
    );
    let e = NotFound("/x".to_string()).error();
    assert_eq!((e.message().as_str(), e.copied().exit_code()), ("not found: /x", 3));
    assert_eq!(Error::plain(ErrorKind::BrokenPipe).exit_code(), 0);
    assert_eq!(Error::plain(ErrorKind::Incomplete { failures: 1 }).exit_code(), 5);
    assert_eq!(Error::plain(ErrorKind::TooDeep).exit_code(), 1);
    assert_eq!(Codec::Lzo.name(), "lzo");
}

#[test]
fn an_exit_code_survives_a_context() {
    let e = NotFound("/x".to_string()).error().within("looking".to_string());
    assert_eq!((e.message().as_str(), e.exit_code()), ("looking: not found: /x", 3));
}

#[test]
fn numbers_are_written_in_a_base() {
    assert_eq!(number(0, 10), "0");
    assert_eq!(number(u64::MAX, 10), "18446744073709551615");
    assert_eq!(number(0o7777, 8), "7777");
    assert_eq!(number(0xbeef, 16), "beef");
}
