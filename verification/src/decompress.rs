//! The three compression formats of extents.
//!
//! A compressed extent decodes to exactly the size it declares. Anything else means the
//! extent is corrupt, and that is reported: a plausible-looking buffer of zeros would be
//! written out and the copy called a success.

use std::io::Read;
use vstd::prelude::*;
use vstd::slice::*;

use crate::disk::{le, lemma_le_fits, u32_at};
use crate::error::{because, plain, Codec, Error, ErrorKind, ErrorView};
use crate::model::views;

verus! {

/// No extent can legitimately declare more than this; it is refused before anything is
/// allocated for it.
pub const MAX_RAM_BYTES: usize = 0x4000_0000;

/// What flate2's zlib decoder gives for a stream, read up to a limit.
pub uninterp spec fn zlib_bytes(src: Seq<u8>, limit: u64) -> Result<Seq<u8>, Seq<char>>;

/// `flate2::read::ZlibDecoder` over `src`, read to its end or to `limit` bytes: the decoded
/// bytes, no more than `limit` of them, or the text of the error. What it decodes to is
/// named, not written out.
#[verifier::external_body]
fn zlib_read(src: &[u8], limit: u64) -> (r: Result<Vec<u8>, String>)
    ensures
        match r {
            Ok(v) => zlib_bytes(src@, limit) == Ok::<Seq<u8>, Seq<char>>(v@) && v@.len() <= limit,
            Err(m) => zlib_bytes(src@, limit) == Err::<Seq<u8>, Seq<char>>(m@),
        },
{
    let mut out = Vec::new();
    match flate2::read::ZlibDecoder::new(src).take(limit).read_to_end(&mut out) {
        Ok(_) => Ok(out),
        Err(e) => Err(e.to_string()),
    }
}

/// What became of compressed bytes that were handed out to be decoded: an LZO1X segment, or a
/// zstd stream.
pub enum Segment {
    Plain(Vec<u8>),
    /// The decoder gave an error; its text.
    Failed(String),
    /// The decoder refused the header of a stream; its text.
    Refused(String),
    /// The decoder broke down on it.
    Malformed,
}

#[verifier::ext_equal]
pub enum SegmentView {
    Plain(Seq<u8>),
    Failed(Seq<char>),
    Refused(Seq<char>),
    Malformed,
}

impl View for Segment {
    type V = SegmentView;

    open spec fn view(&self) -> SegmentView {
        match self {
            Segment::Plain(b) => SegmentView::Plain(b@),
            Segment::Failed(m) => SegmentView::Failed(m@),
            Segment::Refused(m) => SegmentView::Refused(m@),
            Segment::Malformed => SegmentView::Malformed,
        }
    }
}

/// Why there is no decompressed data: an error, or something that is yet to be decoded. That
/// is the LZO1X segment at `from..to` of the compressed bytes, or all of them, a zstd stream
/// of which `limit` decoded bytes are wanted at most.
pub enum Halt {
    Error(Error),
    Segment { from: usize, to: usize },
    Stream { limit: u64 },
}

#[verifier::ext_equal]
pub enum HaltView {
    Error(ErrorView),
    Segment { from: int, to: int },
    Stream { limit: int },
}

impl View for Halt {
    type V = HaltView;

    open spec fn view(&self) -> HaltView {
        match self {
            Halt::Error(e) => HaltView::Error(e@),
            Halt::Segment { from, to } => HaltView::Segment { from: *from as int, to: *to as int },
            Halt::Stream { limit } => HaltView::Stream { limit: *limit as int },
        }
    }
}

/// What a decoded stream comes to against the size the extent declares. That size is
/// rounded up to whole sectors, so the last extent of a file falls short by less than one
/// and the rest is zeros; a larger shortfall, or any surplus, is corruption.
pub open spec fn finished(out: Seq<u8>, ram_bytes: int, sectorsize: int, codec: Codec) -> Result<
    Seq<u8>,
    ErrorView,
> {
    let short_by = ram_bytes - out.len();
    if short_by < 0 {
        Err(plain(ErrorKind::DecodesLong { codec, ram_bytes: ram_bytes as u64 }))
    } else if short_by >= sectorsize {
        Err(
            plain(
                ErrorKind::DecodesShort {
                    codec,
                    got: out.len() as u64,
                    ram_bytes: ram_bytes as u64,
                    short_by: short_by as u64,
                    sectorsize: sectorsize as u64,
                },
            ),
        )
    } else {
        Ok(out + Seq::new(short_by as nat, |i: int| 0u8))
    }
}

/// The data of a stream that a decoder was asked for.
pub open spec fn streamed(
    read: Result<Seq<u8>, Seq<char>>,
    codec: Codec,
    compressed: int,
    ram_bytes: int,
    sectorsize: int,
) -> Result<Seq<u8>, ErrorView> {
    match read {
        Err(m) => Err(
            because(ErrorKind::StreamFailed { codec, compressed: compressed as u64 }, m),
        ),
        Ok(out) => finished(out, ram_bytes, sectorsize, codec),
    }
}

/// Where the segment header at or after `pos` is: one never straddles a sector boundary,
/// the writer pads to the next sector instead.
pub open spec fn header_at(pos: int, sectorsize: int) -> int {
    let left = sectorsize - pos % sectorsize;
    if left < 4 {
        pos + left
    } else {
        pos
    }
}

/// The segments from `pos` on, of which the decoded ones are `segs` from number `k` on,
/// appended to `out`. Every segment of the frame counts: one that decodes to more than the
/// extent declares shows as a surplus.
pub open spec fn lzo_from(
    src: Seq<u8>,
    total: int,
    ram_bytes: int,
    sectorsize: int,
    segs: Seq<SegmentView>,
    k: int,
    pos: int,
    out: Seq<u8>,
) -> Result<Seq<u8>, HaltView>
    decreases total - pos,
{
    let at = header_at(pos, sectorsize);
    let from = at + 4;
    let len = le(src, at, 4) as int;
    if pos >= total || out.len() > ram_bytes || at >= total || sectorsize <= 0 {
        match finished(out, ram_bytes, sectorsize, Codec::Lzo) {
            Ok(v) => Ok(v),
            Err(e) => Err(HaltView::Error(e)),
        }
    } else if at + 4 > src.len() {
        Err(HaltView::Error(plain(ErrorKind::LzoHeader { off: at as u64 })))
    } else if len == 0 || from + len > total {
        Err(
            HaltView::Error(
                plain(ErrorKind::LzoOverrun { seg_len: len as u64, off: from as u64 }),
            ),
        )
    } else if k >= segs.len() {
        Err(HaltView::Segment { from, to: from + len })
    } else {
        match segs[k] {
            SegmentView::Malformed => Err(
                HaltView::Error(plain(ErrorKind::LzoMalformed { off: from as u64 })),
            ),
            SegmentView::Failed(m) => Err(
                HaltView::Error(because(ErrorKind::LzoFailed { off: from as u64 }, m)),
            ),
            SegmentView::Refused(m) => Err(
                HaltView::Error(because(ErrorKind::LzoFailed { off: from as u64 }, m)),
            ),
            SegmentView::Plain(b) => if b.len() > sectorsize {
                Err(
                    HaltView::Error(
                        plain(
                            ErrorKind::LzoExpands {
                                off: from as u64,
                                got: b.len() as u64,
                                sectorsize: sectorsize as u64,
                            },
                        ),
                    ),
                )
            } else {
                lzo_from(
                    src,
                    total,
                    ram_bytes,
                    sectorsize,
                    segs,
                    k + 1,
                    from + len,
                    out + b,
                )
            },
        }
    }
}

/// The framing around LZO1X: a 4-byte total length, then segments of a 4-byte length and
/// the data, each holding one sector of plaintext.
pub open spec fn lzo_of(
    src: Seq<u8>,
    ram_bytes: int,
    sectorsize: int,
    segs: Seq<SegmentView>,
) -> Result<Seq<u8>, HaltView> {
    let total = le(src, 0, 4) as int;
    if src.len() < 4 {
        Err(HaltView::Error(plain(ErrorKind::LzoHeader { off: 0 })))
    } else if total < 4 || total > src.len() {
        Err(
            HaltView::Error(
                plain(ErrorKind::LzoFrame { total: total as u64, have: src.len() as u64 }),
            ),
        )
    } else {
        lzo_from(src, total, ram_bytes, sectorsize, segs, 0, 4, seq![])
    }
}

/// The data of a zstd stream, of which `segs` is what its decoder gave, if it was asked. It is
/// asked for one byte past the declared size, so that a surplus shows.
pub open spec fn zstd_of(
    src: Seq<u8>,
    ram_bytes: int,
    sectorsize: int,
    segs: Seq<SegmentView>,
) -> Result<Seq<u8>, HaltView> {
    if segs.len() == 0 {
        Err(HaltView::Stream { limit: ram_bytes + 1 })
    } else {
        match segs[0] {
            SegmentView::Refused(m) => Err(HaltView::Error(because(ErrorKind::ZstdFrame, m))),
            SegmentView::Malformed => Err(
                HaltView::Error(
                    plain(
                        ErrorKind::StreamMalformed {
                            codec: Codec::Zstd,
                            compressed: src.len() as u64,
                        },
                    ),
                ),
            ),
            SegmentView::Failed(m) => halting(
                streamed(Err(m), Codec::Zstd, src.len() as int, ram_bytes, sectorsize),
            ),
            SegmentView::Plain(b) => halting(
                streamed(Ok(b), Codec::Zstd, src.len() as int, ram_bytes, sectorsize),
            ),
        }
    }
}

/// What the decoder of a format gave. The zlib stream is read one byte past the declared size,
/// so that a surplus shows; what is decoded elsewhere comes as segments.
#[verifier::ext_equal]
pub struct Decoded {
    pub zlib: Result<Seq<u8>, Seq<char>>,
    pub segments: Seq<SegmentView>,
}

/// The data of a compressed extent.
pub open spec fn decompressed(
    algo: u8,
    src: Seq<u8>,
    ram_bytes: int,
    sectorsize: int,
    d: Decoded,
) -> Result<Seq<u8>, HaltView> {
    if ram_bytes > MAX_RAM_BYTES {
        Err(HaltView::Error(plain(ErrorKind::RamBytes { ram_bytes: ram_bytes as u64 })))
    } else if sectorsize == 0 {
        Err(HaltView::Error(plain(ErrorKind::ZeroSector)))
    } else if algo == 1 {
        halting(streamed(d.zlib, Codec::Zlib, src.len() as int, ram_bytes, sectorsize))
    } else if algo == 2 {
        lzo_of(src, ram_bytes, sectorsize, d.segments)
    } else if algo == 3 {
        zstd_of(src, ram_bytes, sectorsize, d.segments)
    } else {
        Err(HaltView::Error(plain(ErrorKind::UnknownCompression { algo: algo as u64 })))
    }
}

/// What the decoders give for an extent.
pub open spec fn decoded(src: Seq<u8>, ram_bytes: int, segments: Seq<SegmentView>) -> Decoded {
    Decoded {
        zlib: zlib_bytes(src, (ram_bytes + 1) as u64),
        segments,
    }
}

pub open spec fn halting(r: Result<Seq<u8>, ErrorView>) -> Result<Seq<u8>, HaltView> {
    match r {
        Ok(v) => Ok(v),
        Err(e) => Err(HaltView::Error(e)),
    }
}

/// Whether an executable result is the one specified.
pub open spec fn same_data(r: Result<Vec<u8>, Halt>, s: Result<Seq<u8>, HaltView>) -> bool {
    match (r, s) {
        (Ok(v), Ok(w)) => v@ == w,
        (Err(h), Err(g)) => h@ == g,
        _ => false,
    }
}

/// Settles up between what a stream gave and what the extent declared.
pub fn finish(out: Vec<u8>, ram_bytes: usize, sectorsize: usize, codec: Codec) -> (r: Result<
    Vec<u8>,
    Error,
>)
    ensures
        match r {
            Ok(v) => finished(out@, ram_bytes as int, sectorsize as int, codec) == Ok::<
                Seq<u8>,
                ErrorView,
            >(v@),
            Err(e) => finished(out@, ram_bytes as int, sectorsize as int, codec) == Err::<
                Seq<u8>,
                ErrorView,
            >(e@),
        },
{
    let ghost before = out@;
    let mut out = out;
    if out.len() > ram_bytes {
        return Err(Error::plain(ErrorKind::DecodesLong { codec, ram_bytes: ram_bytes as u64 }));
    }
    let short_by: usize = ram_bytes - out.len();
    if short_by >= sectorsize {
        return Err(
            Error::plain(
                ErrorKind::DecodesShort {
                    codec,
                    got: out.len() as u64,
                    ram_bytes: ram_bytes as u64,
                    short_by: short_by as u64,
                    sectorsize: sectorsize as u64,
                },
            ),
        );
    }
    out.resize(ram_bytes, 0);
    assert(out@ =~= before + Seq::new(short_by as nat, |i: int| 0u8));
    Ok(out)
}

/// The data of a stream, from what its decoder gave.
pub fn stream(
    read: Result<Vec<u8>, String>,
    codec: Codec,
    compressed: usize,
    ram_bytes: usize,
    sectorsize: usize,
) -> (r: Result<Vec<u8>, Error>)
    ensures
        match r {
            Ok(v) => streamed(
                match read {
                    Ok(b) => Ok(b@),
                    Err(m) => Err(m@),
                },
                codec,
                compressed as int,
                ram_bytes as int,
                sectorsize as int,
            ) == Ok::<Seq<u8>, ErrorView>(v@),
            Err(e) => streamed(
                match read {
                    Ok(b) => Ok(b@),
                    Err(m) => Err(m@),
                },
                codec,
                compressed as int,
                ram_bytes as int,
                sectorsize as int,
            ) == Err::<Seq<u8>, ErrorView>(e@),
        },
{
    match read {
        Err(m) => Err(
            Error::because(ErrorKind::StreamFailed { codec, compressed: compressed as u64 }, m),
        ),
        Ok(out) => finish(out, ram_bytes, sectorsize, codec),
    }
}

/// The segments of an LZO extent, those decoded so far being `segs`.
pub fn lzo(src: &[u8], ram_bytes: usize, sectorsize: usize, segs: &Vec<Segment>) -> (r: Result<
    Vec<u8>,
    Halt,
>)
    requires
        sectorsize > 0,
    ensures
        same_data(r, lzo_of(src@, ram_bytes as int, sectorsize as int, views(segs@))),
{
    let ghost model = views(segs@);
    let have: usize = src.len();
    proof {
        lemma_le_fits(src@, 0);
    }
    let total: u32 = match u32_at(src, 0) {
        Ok(t) => t,
        Err(_) => {
            return Err(Halt::Error(Error::plain(ErrorKind::LzoHeader { off: 0 })));
        },
    };
    if total < 4 || total as u64 > have as u64 {
        return Err(
            Halt::Error(
                Error::plain(ErrorKind::LzoFrame { total: total as u64, have: have as u64 }),
            ),
        );
    }
    let total: usize = total as usize;
    let mut out: Vec<u8> = Vec::new();
    let mut pos: usize = 4;
    let mut k: usize = 0;
    assert(out@ =~= seq![]);
    while pos < total && out.len() <= ram_bytes
        invariant
            sectorsize > 0,
            total == le(src@, 0, 4),
            total <= src@.len(),
            have == src@.len(),
            model == views(segs@),
            pos <= total,
            k <= segs@.len(),
            lzo_of(src@, ram_bytes as int, sectorsize as int, model) == lzo_from(
                src@,
                total as int,
                ram_bytes as int,
                sectorsize as int,
                model,
                k as int,
                pos as int,
                out@,
            ),
        decreases total - pos,
    {
        assert(pos % sectorsize < sectorsize) by (nonlinear_arith)
            requires
                sectorsize > 0,
        ;
        let left: usize = sectorsize - pos % sectorsize;
        if left < 4 {
            if left >= total - pos {
                pos = total;
                continue;
            }
            pos += left;
        }
        proof {
            lemma_le_fits(src@, pos as int);
        }
        let len: u32 = match u32_at(src, pos) {
            Ok(n) => n,
            Err(_) => {
                return Err(Halt::Error(Error::plain(ErrorKind::LzoHeader { off: pos as u64 })));
            },
        };
        let from: usize = pos + 4;
        if len == 0 || from > total || len as u64 > (total - from) as u64 {
            return Err(
                Halt::Error(
                    Error::plain(ErrorKind::LzoOverrun { seg_len: len as u64, off: from as u64 }),
                ),
            );
        }
        let to: usize = from + len as usize;
        if k >= segs.len() {
            return Err(Halt::Segment { from, to });
        }
        assert(model[k as int] == segs@[k as int]@);
        match &segs[k] {
            Segment::Malformed => {
                return Err(
                    Halt::Error(Error::plain(ErrorKind::LzoMalformed { off: from as u64 })),
                );
            },
            Segment::Failed(m) => {
                return Err(
                    Halt::Error(
                        Error::because(ErrorKind::LzoFailed { off: from as u64 }, m.clone()),
                    ),
                );
            },
            Segment::Refused(m) => {
                return Err(
                    Halt::Error(
                        Error::because(ErrorKind::LzoFailed { off: from as u64 }, m.clone()),
                    ),
                );
            },
            Segment::Plain(b) => {
                if b.len() > sectorsize {
                    return Err(
                        Halt::Error(
                            Error::plain(
                                ErrorKind::LzoExpands {
                                    off: from as u64,
                                    got: b.len() as u64,
                                    sectorsize: sectorsize as u64,
                                },
                            ),
                        ),
                    );
                }
                let ghost sofar = out@;
                out.extend_from_slice(b.as_slice());
                assert(out@ =~= sofar + b@);
            },
        }
        pos = to;
        k += 1;
    }
    match finish(out, ram_bytes, sectorsize, Codec::Lzo) {
        Ok(v) => Ok(v),
        Err(e) => Err(Halt::Error(e)),
    }
}

/// The data of a zstd stream, of which `segs` is what its decoder gave, if it was asked.
fn zstd(src: &[u8], ram_bytes: usize, sectorsize: usize, segs: &Vec<Segment>) -> (r: Result<
    Vec<u8>,
    Halt,
>)
    requires
        ram_bytes <= MAX_RAM_BYTES,
    ensures
        same_data(r, zstd_of(src@, ram_bytes as int, sectorsize as int, views(segs@))),
{
    if segs.len() == 0 {
        return Err(Halt::Stream { limit: ram_bytes as u64 + 1 });
    }
    assert(views(segs@)[0] == segs@[0]@);
    let compressed: usize = src.len();
    let read = match &segs[0] {
        Segment::Refused(m) => {
            return Err(Halt::Error(Error::because(ErrorKind::ZstdFrame, m.clone())));
        },
        Segment::Malformed => {
            return Err(
                Halt::Error(
                    Error::plain(
                        ErrorKind::StreamMalformed {
                            codec: Codec::Zstd,
                            compressed: compressed as u64,
                        },
                    ),
                ),
            );
        },
        Segment::Failed(m) => Err(m.clone()),
        Segment::Plain(b) => {
            let copy = slice_to_vec(b.as_slice());
            assert(copy@ =~= b@);
            Ok(copy)
        },
    };
    match stream(read, Codec::Zstd, compressed, ram_bytes, sectorsize) {
        Ok(v) => Ok(v),
        Err(e) => Err(Halt::Error(e)),
    }
}

/// The data of a compressed extent. LZO1X segments and zstd streams are decoded elsewhere,
/// since their decoders can break down on malformed input: `segments` is what has been decoded
/// so far, and the call stops at the first thing that is missing.
pub fn decompress(
    algo: u8,
    src: &[u8],
    ram_bytes: usize,
    sectorsize: usize,
    segments: &Vec<Segment>,
) -> (r: Result<Vec<u8>, Halt>)
    ensures
        same_data(
            r,
            decompressed(
                algo,
                src@,
                ram_bytes as int,
                sectorsize as int,
                decoded(src@, ram_bytes as int, views(segments@)),
            ),
        ),
{
    if ram_bytes > MAX_RAM_BYTES {
        return Err(Halt::Error(Error::plain(ErrorKind::RamBytes { ram_bytes: ram_bytes as u64 })));
    }
    if sectorsize == 0 {
        return Err(Halt::Error(Error::plain(ErrorKind::ZeroSector)));
    }
    let limit: u64 = ram_bytes as u64 + 1;
    let r = if algo == 1 {
        stream(zlib_read(src, limit), Codec::Zlib, src.len(), ram_bytes, sectorsize)
    } else if algo == 2 {
        return lzo(src, ram_bytes, sectorsize, segments);
    } else if algo == 3 {
        return zstd(src, ram_bytes, sectorsize, segments);
    } else {
        Err(Error::plain(ErrorKind::UnknownCompression { algo: algo as u64 }))
    };
    match r {
        Ok(v) => Ok(v),
        Err(e) => Err(Halt::Error(e)),
    }
}

proof fn lemma_lzo_exact(
    src: Seq<u8>,
    total: int,
    ram_bytes: int,
    sectorsize: int,
    segs: Seq<SegmentView>,
    k: int,
    pos: int,
    out: Seq<u8>,
)
    requires
        ram_bytes >= 0,
    ensures
        lzo_from(src, total, ram_bytes, sectorsize, segs, k, pos, out) matches Ok(v) ==> v.len()
            == ram_bytes,
    decreases total - pos,
{
    let at = header_at(pos, sectorsize);
    let from = at + 4;
    let len = le(src, at, 4) as int;
    if pos >= total || out.len() > ram_bytes || at >= total || sectorsize <= 0 {
    } else if at + 4 > src.len() || len == 0 || from + len > total || k >= segs.len() {
    } else if let SegmentView::Plain(b) = segs[k] {
        if b.len() <= sectorsize {
            assert(at >= pos) by {
                assert(pos % sectorsize < sectorsize) by (nonlinear_arith)
                    requires
                        sectorsize > 0,
                ;
            }
            lemma_lzo_exact(
                src,
                total,
                ram_bytes,
                sectorsize,
                segs,
                k + 1,
                from + len,
                out + b,
            );
        }
    }
}

proof fn lemma_lzo_segment(
    src: Seq<u8>,
    total: int,
    ram_bytes: int,
    sectorsize: int,
    segs: Seq<SegmentView>,
    k: int,
    pos: int,
    out: Seq<u8>,
)
    requires
        0 <= pos,
        total <= src.len(),
        sectorsize > 0,
    ensures
        lzo_from(src, total, ram_bytes, sectorsize, segs, k, pos, out) matches Err(
            HaltView::Segment { from, to },
        ) ==> 0 <= from < to <= src.len(),
    decreases total - pos,
{
    let at = header_at(pos, sectorsize);
    let from = at + 4;
    let len = le(src, at, 4) as int;
    assert(pos % sectorsize < sectorsize) by (nonlinear_arith)
        requires
            sectorsize > 0,
    ;
    if pos >= total || out.len() > ram_bytes || at >= total {
    } else if at + 4 > src.len() || len == 0 || from + len > total || k >= segs.len() {
    } else if let SegmentView::Plain(b) = segs[k] {
        if b.len() <= sectorsize {
            lemma_lzo_segment(
                src,
                total,
                ram_bytes,
                sectorsize,
                segs,
                k + 1,
                from + len,
                out + b,
            );
        }
    }
}

/// A segment that is asked for lies within the compressed bytes.
pub proof fn lemma_segment_in_bounds(
    algo: u8,
    src: Seq<u8>,
    ram_bytes: int,
    sectorsize: int,
    d: Decoded,
)
    requires
        sectorsize > 0,
    ensures
        decompressed(algo, src, ram_bytes, sectorsize, d) matches Err(
            HaltView::Segment { from, to },
        ) ==> 0 <= from < to <= src.len(),
{
    if 4 <= le(src, 0, 4) <= src.len() {
        lemma_lzo_segment(
            src,
            le(src, 0, 4) as int,
            ram_bytes,
            sectorsize,
            d.segments,
            0,
            4,
            seq![],
        );
    }
}

/// A compressed extent decodes to exactly the size it declares, or not at all, whatever
/// the decoders made of it.
pub proof fn law_decodes_to_the_declared_size(
    algo: u8,
    src: Seq<u8>,
    ram_bytes: int,
    sectorsize: int,
    d: Decoded,
)
    requires
        ram_bytes >= 0,
    ensures
        decompressed(algo, src, ram_bytes, sectorsize, d) matches Ok(v) ==> v.len() == ram_bytes,
{
    lemma_lzo_exact(
        src,
        le(src, 0, 4) as int,
        ram_bytes,
        sectorsize,
        d.segments,
        0,
        4,
        seq![],
    );
}

/// Settling up keeps every byte of the stream and adds less than a sector of zeros.
pub proof fn law_finish_pads_less_than_a_sector(
    out: Seq<u8>,
    ram_bytes: int,
    sectorsize: int,
    codec: Codec,
)
    ensures
        finished(out, ram_bytes, sectorsize, codec) matches Ok(v) ==> {
            &&& v.len() == ram_bytes
            &&& v.take(out.len() as int) == out
            &&& v.len() - out.len() < sectorsize
            &&& forall|i: int| out.len() <= i < v.len() ==> v[i] == 0
        },
{
    if let Ok(v) = finished(out, ram_bytes, sectorsize, codec) {
        assert(v.take(out.len() as int) =~= out);
    }
}

/// How many segments a frame holds from `pos` on.
pub open spec fn segments_in(src: Seq<u8>, total: int, sectorsize: int, pos: int) -> nat
    decreases
            if pos < total {
                total - pos
            } else {
                0
            },
{
    let at = header_at(pos, sectorsize);
    if pos >= total || at >= total || sectorsize <= 0 {
        0
    } else {
        proof {
            assert(pos % sectorsize < sectorsize) by (nonlinear_arith)
                requires
                    sectorsize > 0,
            ;
        }
        1 + segments_in(src, total, sectorsize, at + 4 + le(src, at, 4))
    }
}

/// The bytes of the first `n` segments, one after another.
pub open spec fn joined(segs: Seq<SegmentView>, n: nat) -> Seq<u8>
    decreases n,
{
    if n == 0 {
        seq![]
    } else {
        match segs[n - 1] {
            SegmentView::Plain(b) => joined(segs, (n - 1) as nat) + b,
            _ => joined(segs, (n - 1) as nat),
        }
    }
}

proof fn lemma_lzo_whole(
    src: Seq<u8>,
    total: int,
    ram_bytes: int,
    sectorsize: int,
    segs: Seq<SegmentView>,
    k: nat,
    pos: int,
)
    requires
        lzo_from(
            src,
            total,
            ram_bytes,
            sectorsize,
            segs,
            k as int,
            pos,
            joined(segs, k),
        ) is Ok,
        k <= segs.len(),
    ensures
        ({
            let n = k + segments_in(src, total, sectorsize, pos);
            &&& n <= segs.len()
            &&& lzo_from(
                src,
                total,
                ram_bytes,
                sectorsize,
                segs,
                k as int,
                pos,
                joined(segs, k),
            ) == halting(finished(joined(segs, n), ram_bytes, sectorsize, Codec::Lzo))
        }),
    decreases total - pos,
{
    let at = header_at(pos, sectorsize);
    let from = at + 4;
    let len = le(src, at, 4) as int;
    let out = joined(segs, k);
    if pos >= total || out.len() > ram_bytes || at >= total || sectorsize <= 0 {
    } else if let SegmentView::Plain(b) = segs[k as int] {
        assert(at >= pos) by {
            assert(pos % sectorsize < sectorsize) by (nonlinear_arith)
                requires
                    sectorsize > 0,
            ;
        }
        assert(joined(segs, k + 1) == out + b);
        lemma_lzo_whole(src, total, ram_bytes, sectorsize, segs, k + 1, from + len);
    }
}

/// Every segment of an LZO frame counts: the data is that of all of them, one after another,
/// and less than a sector of zeros. A frame that holds more than the extent declares is
/// refused.
pub proof fn law_every_segment_counts(
    src: Seq<u8>,
    ram_bytes: int,
    sectorsize: int,
    segs: Seq<SegmentView>,
)
    ensures
        lzo_of(src, ram_bytes, sectorsize, segs) is Ok ==> {
            let n = segments_in(src, le(src, 0, 4) as int, sectorsize, 4);
            &&& n <= segs.len()
            &&& joined(segs, n).len() <= ram_bytes
            &&& lzo_of(src, ram_bytes, sectorsize, segs) == halting(
                finished(joined(segs, n), ram_bytes, sectorsize, Codec::Lzo),
            )
        },
{
    if lzo_of(src, ram_bytes, sectorsize, segs) is Ok {
        assert(joined(segs, 0) =~= seq![]);
        lemma_lzo_whole(src, le(src, 0, 4) as int, ram_bytes, sectorsize, segs, 0, 4);
    }
}

} // verus!
