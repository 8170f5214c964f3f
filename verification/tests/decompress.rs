//! Compressed extents.

use btrfs_peek::decompress::{decompress, finish, lzo, stream, Halt, Segment};
use btrfs_peek::error::{Codec, Error, ErrorKind};
use std::io::{Read, Write};

fn zlib_of(data: &[u8]) -> Vec<u8> {
    let mut e = flate2::write::ZlibEncoder::new(Vec::new(), flate2::Compression::default());
    e.write_all(data).unwrap();
    e.finish().unwrap()
}

fn zstd_of(data: &[u8]) -> Vec<u8> {
    ruzstd::encoding::compress_to_vec(data, ruzstd::encoding::CompressionLevel::Uncompressed)
}

/// A segment through the decoder.
fn decode(seg: &[u8], sectorsize: usize) -> Segment {
    match lzokay_native::decompress_all(seg, Some(sectorsize)) {
        Ok(b) => Segment::Plain(b),
        Err(e) => Segment::Failed(format!("{e:?}")),
    }
}

/// A zstd stream through the decoder, up to a limit.
fn decode_zstd(bytes: &[u8], limit: u64) -> Segment {
    let mut out = Vec::new();
    match ruzstd::decoding::StreamingDecoder::new(bytes) {
        Err(e) => Segment::Refused(e.to_string()),
        Ok(dec) => match dec.take(limit).read_to_end(&mut out) {
            Ok(_) => Segment::Plain(out),
            Err(e) => Segment::Failed(e.to_string()),
        },
    }
}

/// Decompresses, decoding what is asked for.
fn unpack(
    algo: u8,
    src: &[u8],
    ram_bytes: usize,
    sectorsize: usize,
    with: impl Fn(&[u8], usize) -> Segment,
) -> Result<Vec<u8>, Error> {
    let mut segments = Vec::new();
    loop {
        match decompress(algo, src, ram_bytes, sectorsize, &segments) {
            Ok(b) => return Ok(b),
            Err(Halt::Error(e)) => return Err(e),
            Err(Halt::Segment { from, to }) => segments.push(with(&src[from..to], sectorsize)),
            Err(Halt::Stream { limit }) => {
                assert_eq!(limit, ram_bytes as u64 + 1);
                segments.push(decode_zstd(src, limit));
            }
        }
    }
}

fn plainly(algo: u8, src: &[u8], ram_bytes: usize, sectorsize: usize) -> Result<Vec<u8>, Error> {
    unpack(algo, src, ram_bytes, sectorsize, decode)
}

fn failure<T>(r: Result<T, Error>) -> String {
    match r {
        Ok(_) => panic!("no error"),
        Err(e) => e.message(),
    }
}

fn data<T>(r: Result<T, Error>) -> T {
    match r {
        Ok(x) => x,
        Err(e) => panic!("{}", e.message()),
    }
}

#[test]
fn a_good_stream_round_trips() {
    let plain = b"the quick brown fox".repeat(100);
    let got = data(plainly(1, &zlib_of(&plain), plain.len(), 4096));
    assert_eq!(got, plain);
}

#[test]
fn a_short_decode_within_one_sector_is_padded_as_the_kernel_intends() {
    // A file's last extent declares a sector-rounded ram_bytes and decodes
    // short by the padding; this is the common case, not corruption.
    let plain = b"x".repeat(5000);
    let got = data(plainly(1, &zlib_of(&plain), 8192, 4096));
    assert_eq!(got.len(), 8192);
    assert_eq!(&got[..5000], &plain[..]);
    assert!(got[5000..].iter().all(|&b| b == 0));
}

#[test]
fn a_shortfall_bigger_than_the_sector_padding_is_an_error() {
    let plain = b"the quick brown fox".repeat(100);
    let comp = zlib_of(&plain);
    let err = failure(plainly(1, &comp, plain.len() + 4096, 4096));
    assert!(err.contains("truncated or corrupt"), "got: {err}");
}

#[test]
fn a_corrupt_lzo_frame_length_is_rejected() {
    // Frame header declares far more than the extent holds.
    let mut src = vec![0u8; 64];
    src[..4].copy_from_slice(&u32::MAX.to_le_bytes());
    let err = failure(plainly(2, &src, 4096, 4096));
    assert!(err.contains("frame declares"), "got: {err}");
}

#[test]
fn an_implausible_ram_bytes_is_refused_before_allocating() {
    let err = failure(plainly(1, &[], usize::MAX / 2, 4096));
    assert!(err.contains("no btrfs extent can be"), "got: {err}");
}

#[test]
fn garbage_lzo_input_errors_rather_than_panicking() {
    let mut src = vec![0xAAu8; 256];
    src[..4].copy_from_slice(&256u32.to_le_bytes());
    src[4..8].copy_from_slice(&200u32.to_le_bytes());
    // The decoder breaks down on such bytes, or gives an error; neither gets through.
    let broken = |_: &[u8], _: usize| Segment::Malformed;
    let err = failure(unpack(2, &src, 4096, 4096, broken));
    assert_eq!(err, "lzo extent: segment at offset 8 is malformed");
    let failed = |_: &[u8], _: usize| Segment::Failed("InputOverrun".to_string());
    let err = failure(unpack(2, &src, 4096, 4096, failed));
    assert_eq!(err, "lzo extent at offset 8: InputOverrun");
    // Where it gives bytes, what follows is no segment.
    for n in [0, 1, 4095, 4096] {
        let plain = |_: &[u8], _: usize| Segment::Plain(vec![0; n]);
        let err = failure(unpack(2, &src, 4096, 4096, plain));
        assert!(err.contains("2863311530") && err.contains("212"), "got: {err}");
    }
    let long = |_: &[u8], _: usize| Segment::Plain(vec![0; 4097]);
    let err = failure(unpack(2, &src, 4096, 4096, long));
    assert!(err.contains("4097"), "got: {err}");
}

#[test]
fn a_zstd_stream_round_trips() {
    let plain = b"the quick brown fox".repeat(300);
    let got = data(plainly(3, &zstd_of(&plain), 8192, 4096));
    assert_eq!(&got[..plain.len()], &plain[..]);
    assert!(got[plain.len()..].iter().all(|&b| b == 0));
}

#[test]
fn streams_that_do_not_decode_say_why() {
    let err = failure(plainly(1, b"garbage", 10, 4096));
    assert!(err.starts_with("zlib extent (7 compressed bytes): "), "got: {err}");
    let err = failure(plainly(3, b"garbage!", 10, 4096));
    assert!(err.starts_with("zstd extent: "), "got: {err}");
    let mut cut = zstd_of(&b"the quick brown fox".repeat(300));
    cut.truncate(100);
    let err = failure(plainly(3, &cut, 5700, 4096));
    assert!(err.starts_with("zstd extent (100 compressed bytes): "), "got: {err}");
}

#[test]
fn a_stream_that_decodes_to_more_is_corrupt() {
    let err = failure(plainly(1, &zlib_of(&[1u8; 100]), 99, 4096));
    assert_eq!(err, "zlib extent decodes to more than the 99 bytes it declares; it is corrupt");
    // One byte past the declared size is all that is read.
    let err = failure(plainly(3, &zstd_of(&[1u8; 100]), 20, 4096));
    assert_eq!(err, "zstd extent decodes to more than the 20 bytes it declares; it is corrupt");
}

#[test]
fn the_other_refusals() {
    assert_eq!(failure(plainly(1, &[], 10, 0)), "sectorsize is zero");
    assert_eq!(failure(plainly(4, &[], 10, 4096)), "unknown compression type 4");
    assert_eq!(
        failure(plainly(1, &[], 0x4000_0001, 4096)),
        "extent claims 1073741825 bytes decompressed, which no btrfs extent can be"
    );
}

#[test]
fn what_is_short_by_less_than_a_sector_is_padded() {
    assert_eq!(data(finish(vec![7; 10], 13, 4, Codec::Zlib)), [&[7u8; 10][..], &[0; 3]].concat());
    assert_eq!(data(finish(vec![7; 10], 10, 4, Codec::Zlib)), vec![7; 10]);
    assert_eq!(
        failure(finish(vec![7; 10], 14, 4, Codec::Lzo)),
        "lzo extent decodes to 10 bytes but declares 14, short by 4 which is more than the 4-byte sector padding; it is truncated or corrupt"
    );
    assert_eq!(
        failure(finish(vec![7; 10], 9, 4, Codec::Zstd)),
        "zstd extent decodes to more than the 9 bytes it declares; it is corrupt"
    );
}

#[test]
fn a_reader_that_failed_is_named_with_its_codec() {
    let e = stream(Err("end of file".to_string()), Codec::Zstd, 55, 10, 4096);
    match &e {
        Err(e) => assert_eq!(
            e.kind,
            ErrorKind::StreamFailed { codec: Codec::Zstd, compressed: 55 }
        ),
        Ok(_) => panic!("no error"),
    }
    assert_eq!(failure(e), "zstd extent (55 compressed bytes): end of file");
    assert_eq!(data(stream(Ok(vec![1]), Codec::Zlib, 55, 2, 4096)), vec![1, 0]);
}

/// A frame of segments, each padded so that no header straddles a sector.
fn frame(segments: &[Vec<u8>], sectorsize: usize) -> Vec<u8> {
    let mut out = vec![0u8; 4];
    for s in segments {
        let left = sectorsize - out.len() % sectorsize;
        if left < 4 {
            out.resize(out.len() + left, 0);
        }
        out.extend_from_slice(&(s.len() as u32).to_le_bytes());
        out.extend_from_slice(s);
    }
    let total = out.len() as u32;
    out[..4].copy_from_slice(&total.to_le_bytes());
    out
}

#[test]
fn lzo_segments_round_trip() {
    let plain = b"one sector of text after another; ".repeat(300);
    let packed: Vec<Vec<u8>> =
        plain.chunks(4096).map(|c| lzokay_native::compress(c).unwrap()).collect();
    let got = data(plainly(2, &frame(&packed, 4096), 12288, 4096));
    assert_eq!(&got[..plain.len()], &plain[..]);
    assert!(got[plain.len()..].iter().all(|&b| b == 0));
}

/// A decoder under which a segment is what it holds.
fn stored(seg: &[u8], _: usize) -> Segment {
    Segment::Plain(seg.to_vec())
}

#[test]
fn a_segment_header_does_not_straddle_a_sector() {
    // 4 + 4 + 22 = 30: two bytes are left of the 32-byte sector, and are skipped.
    let src = frame(&[vec![1u8; 22], vec![2u8; 10]], 32);
    assert_eq!(src.len(), 46);
    assert_eq!(src[30..32], [0, 0]);
    let got = data(unpack(2, &src, 32, 32, stored));
    assert_eq!(got, [&[1u8; 22][..], &[2; 10]].concat());
    // With exactly four bytes left the header fits.
    let src = frame(&[vec![1u8; 20], vec![2u8; 12]], 32);
    assert_eq!(src.len(), 44);
    assert_eq!(data(unpack(2, &src, 32, 32, stored)), [&[1u8; 20][..], &[2; 12]].concat());
}

#[test]
fn lzo_segments_that_do_not_fit_are_refused() {
    let mut src = frame(&[vec![1u8; 20]], 32);
    src[4] = 21;
    assert_eq!(
        failure(unpack(2, &src, 20, 32, stored)),
        "lzo extent: segment of 21 bytes at offset 8 overruns the frame"
    );
    src[4] = 0;
    assert_eq!(
        failure(unpack(2, &src, 20, 32, stored)),
        "lzo extent: segment of 0 bytes at offset 8 overruns the frame"
    );
    let src = frame(&[vec![1u8; 33]], 32);
    assert_eq!(
        failure(unpack(2, &src, 40, 32, stored)),
        "lzo extent: segment at offset 8 expands to 33 bytes, past the 32-byte sector"
    );
    assert_eq!(
        failure(unpack(2, &[4, 0, 0], 40, 32, stored)),
        "lzo extent: truncated header at offset 0"
    );
    assert_eq!(
        failure(unpack(2, &[3, 0, 0, 0], 40, 32, stored)),
        "lzo extent: frame declares 3 bytes but the extent holds 4"
    );
    assert_eq!(
        failure(unpack(2, &[6, 0, 0, 0, 1, 0], 40, 32, stored)),
        "lzo extent: truncated header at offset 4"
    );
}

#[test]
fn segments_are_asked_for_in_turn() {
    let src = frame(&[vec![1u8; 5], vec![2u8; 6]], 32);
    match lzo(&src, 11, 32, &Vec::new()) {
        Err(Halt::Segment { from, to }) => assert_eq!((from, to), (8, 13)),
        _ => panic!("no segment"),
    }
    let one = vec![Segment::Plain(vec![9; 7])];
    match lzo(&src, 11, 32, &one) {
        Err(Halt::Segment { from, to }) => assert_eq!((from, to), (17, 23)),
        _ => panic!("no segment"),
    }
    // The declared size is reached, but a segment is left: it counts too.
    match lzo(&src, 7, 32, &one) {
        Err(Halt::Segment { from, to }) => assert_eq!((from, to), (17, 23)),
        _ => panic!("no segment"),
    }
    let both = vec![Segment::Plain(vec![9; 7]), Segment::Plain(vec![8; 4])];
    match lzo(&src, 11, 32, &both) {
        Ok(b) => assert_eq!(b, [&[9u8; 7][..], &[8; 4]].concat()),
        _ => panic!("no data"),
    }
    match lzo(&src, 10, 32, &both) {
        Err(Halt::Error(e)) => assert_eq!(
            e.message(),
            "lzo extent decodes to more than the 10 bytes it declares; it is corrupt"
        ),
        _ => panic!("no error"),
    }
}

#[test]
fn an_lzo_frame_that_decodes_to_more_is_corrupt() {
    // Two segments of one byte each, where one byte is declared.
    let src = [
        22, 0, 0, 0, 5, 0, 0, 0, 18, 97, 17, 0, 0, 5, 0, 0, 0, 18, 98, 17, 0, 0,
    ];
    assert_eq!(
        failure(plainly(2, &src, 1, 4096)),
        "lzo extent decodes to more than the 1 bytes it declares; it is corrupt"
    );
    assert_eq!(data(plainly(2, &src, 2, 4096)), b"ab");
}

#[test]
fn a_zstd_stream_that_breaks_its_decoder_is_an_error() {
    let src = zstd_of(b"anything");
    let n = src.len();
    let of = |s: Segment| match decompress(3, &src, 8, 4096, &vec![s]) {
        Err(Halt::Error(e)) => e.message(),
        _ => panic!("no error"),
    };
    assert_eq!(
        of(Segment::Malformed),
        format!("zstd extent ({n} compressed bytes) is malformed")
    );
    assert_eq!(of(Segment::Refused("bad magic".to_string())), "zstd extent: bad magic");
    assert_eq!(
        of(Segment::Failed("cut".to_string())),
        format!("zstd extent ({n} compressed bytes): cut")
    );
    // A decoder that gives more than it was asked for is no better than a surplus.
    assert_eq!(
        of(Segment::Plain(vec![0; 9])),
        "zstd extent decodes to more than the 8 bytes it declares; it is corrupt"
    );
    match decompress(3, &src, 8, 4096, &vec![Segment::Plain(b"anything".to_vec())]) {
        Ok(b) => assert_eq!(b, b"anything"),
        Err(_) => panic!("no data"),
    }
}
