//! What is packed is unpacked: an extent of each format gives back the data that went into it.

use vstd::prelude::*;

use crate::decompress::{finished, header_at, lzo_from, zlib_bytes, HaltView, SegmentView};
use crate::disk::le;
use crate::error::Codec;
use crate::format_laws::{beyond, law_numbers_read_as_written, little};
use crate::read_laws::{
    is_enough, lemma_unpacked, segments_of, unpacked, unpacked_with, World,
};

verus! {

/// The data with zeros after it, up to the size that the extent declares.
pub open spec fn filled(data: Seq<u8>, size: int) -> Seq<u8> {
    data + Seq::new((size - data.len()) as nat, |i: int| 0u8)
}

/// The data of an extent that declares `size` bytes: all of them but the last less than a
/// sector of it.
pub open spec fn fits(data: Seq<u8>, size: int, sectorsize: int) -> bool {
    data.len() <= size < data.len() + sectorsize
}

/// What is decoded, if it fits, is the data of the extent, and otherwise an error.
pub open spec fn is_made_from(r: Result<Seq<u8>, HaltView>, data: Seq<u8>, size: int, w: World) -> bool {
    if fits(data, size, w.sectorsize) {
        r == Ok::<Seq<u8>, HaltView>(filled(data, size))
    } else {
        r matches Err(HaltView::Error(_))
    }
}

/// An extent of the first format is one zlib stream; where it decodes, that is its data. One byte
/// more than declared is asked for, so that a surplus shows.
pub proof fn law_zlib_extents_are_unpacked(w: World, raw: Seq<u8>, size: int)
    requires
        0 <= size <= 0x4000_0000,
        w.sectorsize > 0,
    ensures
        match zlib_bytes(raw, (size + 1) as u64) {
            Ok(data) => is_made_from(unpacked(w, 1, raw, size), data, size, w),
            Err(_) => unpacked(w, 1, raw, size) matches Err(HaltView::Error(_)),
        },
{
    assert(is_enough(w, 1, raw, size, 0));
    lemma_unpacked(w, 1, raw, size, 0);
}

/// An extent of the third format is one zstd stream; where it decodes, that is its data.
pub proof fn law_zstd_extents_are_unpacked(w: World, raw: Seq<u8>, size: int)
    requires
        0 <= size <= 0x4000_0000,
        w.sectorsize > 0,
    ensures
        match (w.zstd)(raw, size + 1) {
            SegmentView::Plain(data) => is_made_from(unpacked(w, 3, raw, size), data, size, w),
            _ => unpacked(w, 3, raw, size) matches Err(HaltView::Error(_)),
        },
{
    assert(unpacked_with(w, 3, raw, size, seq![]) == Err::<Seq<u8>, HaltView>(
        HaltView::Stream { limit: size + 1 },
    ));
    reveal_with_fuel(segments_of, 2);
    let one = segments_of(w, 3, raw, size, 1);
    assert(one =~= seq![(w.zstd)(raw, size + 1)]);
    assert(is_enough(w, 3, raw, size, 1));
    lemma_unpacked(w, 3, raw, size, 1);
}

/// No other format is known, and nothing claims to be larger than an extent can be.
pub proof fn law_other_formats_are_errors(w: World, algo: u8, raw: Seq<u8>, size: int)
    requires
        algo != 1 && algo != 2 && algo != 3 || size > 0x4000_0000,
    ensures
        unpacked(w, algo, raw, size) matches Err(HaltView::Error(_)),
{
    assert(is_enough(w, algo, raw, size, 0));
    lemma_unpacked(w, algo, raw, size, 0);
}

/// The bytes left in a sector where the length of a segment does not fit any more.
pub open spec fn gap(pos: int, sectorsize: int) -> int {
    let left = sectorsize - pos % sectorsize;
    if left < 4 {
        left
    } else {
        0
    }
}

/// Segments from position `pos` on: each its length in four bytes and its bytes, after zeros where
/// the length would cross into the next sector.
pub open spec fn frame_from(segs: Seq<Seq<u8>>, sectorsize: int, pos: int) -> Seq<u8>
    decreases segs.len(),
{
    if segs.len() == 0 {
        seq![]
    } else {
        let g = gap(pos, sectorsize);
        Seq::new(g as nat, |i: int| 0u8) + little(segs[0].len(), 4) + segs[0] + frame_from(
            segs.skip(1),
            sectorsize,
            pos + g + 4 + segs[0].len(),
        )
    }
}

/// A frame: its length in four bytes, itself counted, and the segments.
pub open spec fn frame_of(segs: Seq<Seq<u8>>, sectorsize: int) -> Seq<u8> {
    let body = frame_from(segs, sectorsize, 4);
    little(4 + body.len(), 4) + body
}

/// What the segments decode to, one after another.
pub open spec fn plain_of(w: World, segs: Seq<Seq<u8>>) -> Seq<u8>
    decreases segs.len(),
{
    if segs.len() == 0 {
        seq![]
    } else {
        (w.lzo)(segs[0])->Plain_0 + plain_of(w, segs.skip(1))
    }
}

/// Every segment has bytes and decodes to no more than a sector.
pub open spec fn are_segments(w: World, segs: Seq<Seq<u8>>) -> bool {
    forall|i: int|
        0 <= i < segs.len() ==> (#[trigger] segs[i]).len() > 0 && ((w.lzo)(segs[i])
            matches SegmentView::Plain(b) && b.len() <= w.sectorsize)
}

proof fn lemma_little(v: nat, n: nat)
    ensures
        little(v, n).len() == n,
    decreases n,
{
    if n > 0 {
        lemma_little(v / 256, (n - 1) as nat);
    }
}

proof fn lemma_four(b: Seq<u8>, at: int, v: nat)
    requires
        0 <= at,
        at + 4 <= b.len(),
        b.subrange(at, at + 4) == little(v, 4),
        v <= u32::MAX,
    ensures
        le(b, at, 4) == v,
{
    reveal_with_fuel(beyond, 5);
    law_numbers_read_as_written(b, at, 4, v);
}

/// The decoded forms of the first `k` segments.
spec fn decoded_to(w: World, segs: Seq<Seq<u8>>, k: nat) -> Seq<SegmentView> {
    Seq::new(k, |i: int| (w.lzo)(segs[i]))
}

/// From the `j`th segment on, the frame gives the segments that were put in: what is decoded of
/// them is joined, and where one is not decoded yet, it is asked for.
#[verifier::rlimit(40)]
#[verifier::spinoff_prover]
proof fn lemma_lzo_from(
    w: World,
    src: Seq<u8>,
    total: int,
    segs: Seq<Seq<u8>>,
    size: int,
    k: nat,
    j: int,
    pos: int,
    out: Seq<u8>,
)
    requires
        w.sectorsize > 0,
        are_segments(w, segs),
        0 <= j <= k <= segs.len(),
        4 <= pos <= total <= src.len(),
        total <= u32::MAX,
        src.subrange(pos, total) == frame_from(segs.skip(j), w.sectorsize, pos),
        out.len() + plain_of(w, segs.skip(j)).len() <= size,
    ensures
        ({
            let r = lzo_from(
                src,
                total,
                size,
                w.sectorsize,
                decoded_to(w, segs, k),
                j,
                pos,
                out,
            );
            if k < segs.len() {
                r matches Err(HaltView::Segment { from, to }) && 0 <= from <= to <= src.len()
                    && src.subrange(from, to) == segs[k as int]
            } else {
                r == match finished(
                    out + plain_of(w, segs.skip(j)),
                    size,
                    w.sectorsize,
                    Codec::Lzo,
                ) {
                    Ok(v) => Ok::<Seq<u8>, HaltView>(v),
                    Err(e) => Err(HaltView::Error(e)),
                }
            }
        }),
    decreases segs.len() - j,
{
    let rest = segs.skip(j);
    let ss = w.sectorsize;
    if j == segs.len() {
        assert(rest =~= seq![]);
        assert(src.subrange(pos, total).len() == 0);
        assert(out + plain_of(w, rest) =~= out);
    } else {
        let g = gap(pos, ss);
        let seg = segs[j];
        let n = seg.len();
        assert(rest[0] == seg);
        assert(rest.skip(1) =~= segs.skip(j + 1));
        assert(0 <= g < 4 && header_at(pos, ss) == pos + g) by {
            assert(0 <= pos % ss < ss) by (nonlinear_arith)
                requires
                    ss > 0,
            ;
        }
        lemma_little(n, 4);
        let at = pos + g;
        let from = at + 4;
        let next = frame_from(segs.skip(j + 1), ss, from + n);
        let all = src.subrange(pos, total);
        assert(all.len() == g + 4 + n + next.len());
        assert(src.subrange(at, at + 4) =~= all.subrange(g, g + 4));
        assert(all.subrange(g, g + 4) =~= little(n, 4));
        assert(src.subrange(from, from + n) =~= all.subrange(g + 4, g + 4 + n));
        assert(all.subrange(g + 4, g + 4 + n) =~= seg);
        assert(src.subrange(from + n, total) =~= all.skip(g + 4 + n));
        assert(all.skip(g + 4 + n) =~= next);
        lemma_four(src, at, n);
        let b = (w.lzo)(seg)->Plain_0;
        assert(plain_of(w, rest) == b + plain_of(w, segs.skip(j + 1)));
        if j < k {
            assert(decoded_to(w, segs, k)[j] == SegmentView::Plain(b));
            lemma_lzo_from(w, src, total, segs, size, k, j + 1, from + n, out + b);
            assert(out + b + plain_of(w, segs.skip(j + 1)) =~= out + plain_of(w, rest));
        }
    }
}

/// The bytes begin with a frame; what follows it, up to the end of a sector, does not count.
pub open spec fn begins_with_frame(src: Seq<u8>, segs: Seq<Seq<u8>>, sectorsize: int) -> bool {
    let frame = frame_of(segs, sectorsize);
    frame.len() <= u32::MAX && frame.len() <= src.len() && src.take(frame.len() as int) == frame
}

/// What is known of the bytes that begin with a frame.
proof fn lemma_frame(src: Seq<u8>, segs: Seq<Seq<u8>>, sectorsize: int) -> (total: int)
    requires
        begins_with_frame(src, segs, sectorsize),
    ensures
        4 <= total <= src.len(),
        total <= u32::MAX,
        le(src, 0, 4) == total,
        src.subrange(4, total) == frame_from(segs, sectorsize, 4),
{
    let body = frame_from(segs, sectorsize, 4);
    let frame = frame_of(segs, sectorsize);
    let total = frame.len() as int;
    lemma_little(4 + body.len(), 4);
    assert(src.subrange(0, 4) =~= src.take(total).subrange(0, 4));
    assert(src.subrange(0, 4) =~= little(4 + body.len(), 4));
    lemma_four(src, 0, frame.len());
    assert(src.subrange(4, total) =~= src.take(total).skip(4));
    assert(src.subrange(4, total) =~= body);
    total
}

/// A frame of segments, whatever they are, gives back the segments when it is taken apart, and
/// the data that they decode to when it is unpacked, where that fits the size declared. Where
/// they fall short of it by a sector or more, it is an error.
pub proof fn law_lzo_extents_are_unpacked(w: World, src: Seq<u8>, segs: Seq<Seq<u8>>, size: int)
    requires
        0 <= size <= 0x4000_0000,
        w.sectorsize > 0,
        are_segments(w, segs),
        begins_with_frame(src, segs, w.sectorsize),
        plain_of(w, segs).len() <= size,
    ensures
        is_made_from(unpacked(w, 2, src, size), plain_of(w, segs), size, w),
{
    let total = lemma_frame(src, segs, w.sectorsize);
    assert(segs.skip(0) =~= segs);
    let n = segs.len();
    lemma_all_segments(w, src, segs, size, n);
    lemma_lzo_from(w, src, total, segs, size, n, 0, 4, seq![]);
    let none = Seq::<u8>::empty();
    assert(none + plain_of(w, segs) =~= plain_of(w, segs));
    assert(is_enough(w, 2, src, size, n));
    lemma_unpacked(w, 2, src, size, n);
}

/// Where the segments decode to more than is declared, that shows: unless one of them is yet to be
/// decoded, it is an error.
#[verifier::rlimit(40)]
#[verifier::spinoff_prover]
proof fn lemma_lzo_surplus(
    w: World,
    src: Seq<u8>,
    total: int,
    segs: Seq<Seq<u8>>,
    size: int,
    k: nat,
    j: int,
    pos: int,
    out: Seq<u8>,
)
    requires
        w.sectorsize > 0,
        are_segments(w, segs),
        0 <= j <= k <= segs.len(),
        4 <= pos <= total <= src.len(),
        total <= u32::MAX,
        src.subrange(pos, total) == frame_from(segs.skip(j), w.sectorsize, pos),
        out.len() + plain_of(w, segs.skip(j)).len() > size,
    ensures
        match lzo_from(src, total, size, w.sectorsize, decoded_to(w, segs, k), j, pos, out) {
            Err(HaltView::Error(_)) => true,
            Err(HaltView::Segment { from, to }) => k < segs.len() && 0 <= from <= to <= src.len()
                && src.subrange(from, to) == segs[k as int],
            _ => false,
        },
    decreases segs.len() - j,
{
    let rest = segs.skip(j);
    let ss = w.sectorsize;
    if j == segs.len() {
        assert(rest =~= seq![]);
        assert(src.subrange(pos, total).len() == 0);
    } else {
        let g = gap(pos, ss);
        let seg = segs[j];
        let n = seg.len();
        assert(rest[0] == seg);
        assert(rest.skip(1) =~= segs.skip(j + 1));
        assert(0 <= g < 4 && header_at(pos, ss) == pos + g) by {
            assert(0 <= pos % ss < ss) by (nonlinear_arith)
                requires
                    ss > 0,
            ;
        }
        lemma_little(n, 4);
        let at = pos + g;
        let from = at + 4;
        let next = frame_from(segs.skip(j + 1), ss, from + n);
        let all = src.subrange(pos, total);
        assert(all.len() == g + 4 + n + next.len());
        assert(src.subrange(at, at + 4) =~= all.subrange(g, g + 4));
        assert(all.subrange(g, g + 4) =~= little(n, 4));
        assert(src.subrange(from, from + n) =~= all.subrange(g + 4, g + 4 + n));
        assert(all.subrange(g + 4, g + 4 + n) =~= seg);
        assert(src.subrange(from + n, total) =~= all.skip(g + 4 + n));
        assert(all.skip(g + 4 + n) =~= next);
        lemma_four(src, at, n);
        let b = (w.lzo)(seg)->Plain_0;
        assert(plain_of(w, rest) == b + plain_of(w, segs.skip(j + 1)));
        if j < k {
            assert(decoded_to(w, segs, k)[j] == SegmentView::Plain(b));
            lemma_lzo_surplus(w, src, total, segs, size, k, j + 1, from + n, out + b);
        }
    }
}

proof fn lemma_surplus_shows(
    w: World,
    src: Seq<u8>,
    segs: Seq<Seq<u8>>,
    size: int,
    k: nat,
) -> (m: nat)
    requires
        0 <= size <= 0x4000_0000,
        w.sectorsize > 0,
        are_segments(w, segs),
        begins_with_frame(src, segs, w.sectorsize),
        plain_of(w, segs).len() > size,
        k <= segs.len(),
        segments_of(w, 2, src, size, k) == decoded_to(w, segs, k),
    ensures
        unpacked_with(w, 2, src, size, segments_of(w, 2, src, size, m)) matches Err(
            HaltView::Error(_),
        ),
    decreases segs.len() - k,
{
    let total = lemma_frame(src, segs, w.sectorsize);
    assert(segs.skip(0) =~= segs);
    lemma_lzo_surplus(w, src, total, segs, size, k, 0, 4, seq![]);
    match unpacked_with(w, 2, src, size, segments_of(w, 2, src, size, k)) {
        Err(HaltView::Segment { .. }) => {
            assert(decoded_to(w, segs, k).push((w.lzo)(segs[k as int])) =~= decoded_to(
                w,
                segs,
                k + 1,
            ));
            lemma_surplus_shows(w, src, segs, size, k + 1)
        },
        _ => k,
    }
}

/// A frame whose segments decode to more than is declared is an error, though what is declared
/// was there before the last of them: every segment counts.
pub proof fn law_lzo_surplus_is_an_error(w: World, src: Seq<u8>, segs: Seq<Seq<u8>>, size: int)
    requires
        0 <= size <= 0x4000_0000,
        w.sectorsize > 0,
        are_segments(w, segs),
        begins_with_frame(src, segs, w.sectorsize),
        plain_of(w, segs).len() > size,
    ensures
        unpacked(w, 2, src, size) matches Err(HaltView::Error(_)),
{
    assert(decoded_to(w, segs, 0) =~= seq![]);
    let m = lemma_surplus_shows(w, src, segs, size, 0);
    assert(is_enough(w, 2, src, size, m));
    lemma_unpacked(w, 2, src, size, m);
}

/// The segments are asked for in their order.
proof fn lemma_all_segments(w: World, src: Seq<u8>, segs: Seq<Seq<u8>>, size: int, k: nat)
    requires
        0 <= size <= 0x4000_0000,
        w.sectorsize > 0,
        are_segments(w, segs),
        begins_with_frame(src, segs, w.sectorsize),
        plain_of(w, segs).len() <= size,
        k <= segs.len(),
    ensures
        segments_of(w, 2, src, size, k) == decoded_to(w, segs, k),
    decreases k,
{
    if k == 0 {
        assert(decoded_to(w, segs, 0) =~= seq![]);
    } else {
        let m = (k - 1) as nat;
        lemma_all_segments(w, src, segs, size, m);
        let total = lemma_frame(src, segs, w.sectorsize);
        assert(segs.skip(0) =~= segs);
        lemma_lzo_from(w, src, total, segs, size, m, 0, 4, seq![]);
        assert(decoded_to(w, segs, m).push((w.lzo)(segs[m as int])) =~= decoded_to(w, segs, k));
    }
}

} // verus!
