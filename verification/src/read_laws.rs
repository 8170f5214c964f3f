//! What a whole read gives back: the contents of the file.

use vstd::prelude::*;

use crate::decompress::{
    decoded, decompressed, law_decodes_to_the_declared_size, HaltView, SegmentView,
};
use crate::disk::{ExtentKindView, ExtentView};
use crate::fs::{FsView, Request, StopView};
use crate::lookup::Loc;
use crate::range::{
    entered, extent_end, is_hole, next_extent, piece_bytes, reader_of, recalled, stepped,
    supplied, with_segment, Packed, PieceView, ReaderView, SourceView, StageView, StepView,
};
use crate::range_laws::{
    covers, handed_out, law_data_is_the_extents, law_pieces_follow_one_another,
    law_reader_starts_on_course, law_replies_stay_on_course, law_step_stays_on_course,
    law_zeros_only_where_no_data_is, on_course, sound_extents,
};

verus! {

/// What a filesystem stands for, apart from its trees: the bytes at each logical address,
/// what each LZO1X segment and each zstd stream, read up to a limit, decodes to, and the size
/// of a sector.
#[verifier::ext_equal]
pub struct World {
    pub disk: spec_fn(int) -> u8,
    pub lzo: spec_fn(Seq<u8>) -> SegmentView,
    pub zstd: spec_fn(Seq<u8>, int) -> SegmentView,
    pub sectorsize: int,
}

/// The bytes on disk from `at` on.
pub open spec fn stored(w: World, at: int, len: int) -> Seq<u8> {
    Seq::new(len as nat, |i: int| (w.disk)(at + i))
}

/// What becomes of the compressed bytes `raw` once the segments are `segments`.
pub open spec fn unpacked_with(
    w: World,
    algo: u8,
    raw: Seq<u8>,
    ram_bytes: int,
    segments: Seq<SegmentView>,
) -> Result<Seq<u8>, HaltView> {
    decompressed(algo, raw, ram_bytes, w.sectorsize, decoded(raw, ram_bytes, segments))
}

/// What is decoded of `raw`, one thing after another as it is asked for, up to `n` of them.
pub open spec fn segments_of(w: World, algo: u8, raw: Seq<u8>, ram_bytes: int, n: nat) -> Seq<
    SegmentView,
>
    decreases n,
{
    if n == 0 {
        seq![]
    } else {
        let front = segments_of(w, algo, raw, ram_bytes, (n - 1) as nat);
        match unpacked_with(w, algo, raw, ram_bytes, front) {
            Err(HaltView::Segment { from, to }) => front.push((w.lzo)(raw.subrange(from, to))),
            Err(HaltView::Stream { limit }) => front.push((w.zstd)(raw, limit)),
            _ => front,
        }
    }
}

/// Nothing is missing once `n` things have been decoded.
pub open spec fn is_enough(w: World, algo: u8, raw: Seq<u8>, ram_bytes: int, n: nat) -> bool {
    match unpacked_with(w, algo, raw, ram_bytes, segments_of(w, algo, raw, ram_bytes, n)) {
        Err(HaltView::Segment { .. }) => false,
        Err(HaltView::Stream { .. }) => false,
        _ => true,
    }
}

/// What the compressed bytes `raw` stand for.
pub open spec fn unpacked(w: World, algo: u8, raw: Seq<u8>, ram_bytes: int) -> Result<
    Seq<u8>,
    HaltView,
> {
    let n = choose|n: nat| is_enough(w, algo, raw, ram_bytes, n);
    unpacked_with(w, algo, raw, ram_bytes, segments_of(w, algo, raw, ram_bytes, n))
}

/// The bytes that an extent refers to, compressed where it is.
pub open spec fn raw_of(w: World, e: ExtentView) -> Seq<u8> {
    match e.kind {
        ExtentKindView::Inline(raw) => raw,
        ExtentKindView::Regular { disk_bytenr, disk_num_bytes, .. } => stored(
            w,
            disk_bytenr as int,
            disk_num_bytes as int,
        ),
        ExtentKindView::Prealloc => seq![],
    }
}

/// The data of a compressed extent.
pub open spec fn data_of(w: World, e: ExtentView) -> Seq<u8> {
    unpacked(w, e.compression, raw_of(w, e), e.ram_bytes as int)->Ok_0
}

/// The byte that an extent gives to offset `x` of its file.
pub open spec fn byte_of(w: World, e: ExtentView, x: int) -> u8 {
    let at = x - e.file_off;
    match e.kind {
        ExtentKindView::Inline(raw) => if e.compression == 0 {
            raw[at]
        } else {
            data_of(w, e)[at]
        },
        ExtentKindView::Regular { disk_bytenr, offset, .. } => if e.compression == 0 {
            (w.disk)(disk_bytenr + offset + at)
        } else {
            data_of(w, e)[offset + at]
        },
        ExtentKindView::Prealloc => 0,
    }
}

/// Extent `i` holds data for offset `x`.
pub open spec fn holds_data(exts: Seq<ExtentView>, i: int, x: int) -> bool {
    0 <= i < exts.len() && covers(exts[i], x) && !is_hole(exts[i])
}

/// The byte at offset `x` of a file: that of the extent which holds data for it, and zero
/// where none does.
pub open spec fn file_byte(w: World, exts: Seq<ExtentView>, x: int) -> u8 {
    if exists|i: int| holds_data(exts, i, x) {
        byte_of(w, exts[choose|i: int| holds_data(exts, i, x)], x)
    } else {
        0
    }
}

/// The bytes of a file from `start` up to `end`.
pub open spec fn file_bytes(w: World, exts: Seq<ExtentView>, start: int, end: int) -> Seq<u8> {
    Seq::new((end - start) as nat, |i: int| file_byte(w, exts, start + i))
}

/// What is remembered of the extent that was decompressed last is what decompressing it gives.
pub open spec fn recalls_truly(w: World, last: Option<(Packed, Seq<u8>)>) -> bool {
    last matches Some((key, data)) ==> unpacked(
        w,
        key.compression,
        stored(w, key.bytenr as int, key.num_bytes as int),
        key.ram_bytes as int,
    ) == Ok::<Seq<u8>, HaltView>(data)
}

/// The data is what decompressing the extent gives.
pub open spec fn is_unpacked(w: World, e: ExtentView, data: Seq<u8>) -> bool {
    unpacked(w, e.compression, raw_of(w, e), e.ram_bytes as int) == Ok::<Seq<u8>, HaltView>(data)
}

/// What holds of every read at every step, whatever the extents of its file: what it has
/// decompressed, remembers, and has decoded so far is what the filesystem holds.
#[verifier::opaque]
pub open spec fn unpacks_truly(w: World, r: ReaderView) -> bool {
    &&& recalls_truly(w, r.last)
    &&& match r.stage {
        StageView::Load { fetch, segments } => {
            let e = r.exts[r.idx];
            &&& fetch.data matches Some(raw) ==> raw == raw_of(w, e)
            &&& fetch.data is None ==> segments.len() == 0
            &&& segments == segments_of(
                w,
                e.compression,
                raw_of(w, e),
                e.ram_bytes as int,
                segments.len(),
            )
        },
        StageView::Emit { source } => source matches SourceView::Plain { data, .. } ==> (
        r.exts[r.idx].compression != 0 ==> is_unpacked(w, r.exts[r.idx], data)),
        _ => true,
    }
}

/// What holds of a read of a sound file at every step: besides, it is on course, and what it
/// has read is what the filesystem holds.
#[verifier::opaque]
pub open spec fn is_true(w: World, r: ReaderView) -> bool {
    &&& on_course(r)
    &&& unpacks_truly(w, r)
    &&& r.stage matches StageView::Read { base, fetch } ==> (fetch.data matches Some(b) ==> b
        == stored(w, base + (r.pos - r.exts[r.idx].file_off), b.len() as int))
}

/// A reply that brings the bytes which are on disk, or brings none of use.
pub open spec fn is_honest(w: World, req: Request, reply: Result<Seq<u8>, Seq<char>>) -> bool {
    reply matches Ok(b) ==> (b.len() == req.len ==> b == stored(
        w,
        req.logical as int,
        req.len as int,
    ))
}

/// One thing that happens in the course of a read: a step, the reply to a read that was
/// asked for, the decoding of what was to be decoded. The filesystem may have been used for
/// something else in between.
#[verifier::opaque]
pub open spec fn goes(w: World, f: FsView, r: ReaderView, step: StepView, s: ReaderView) -> bool {
    &&& f.wf()
    &&& f.sb.sectorsize == w.sectorsize
    &&& {
        ||| step == stepped(f, r).step && s == stepped(f, r).reader
        ||| step == StepView::Again && exists|req: Request, reply: Result<Seq<u8>, Seq<char>>|
            is_honest(w, req, reply) && s == #[trigger] supplied(f, r, req, reply)
        ||| step == StepView::Again && (stepped(f, r).step matches StepView::Segment(b) && s
            == with_segment(r, (w.lzo)(b)))
        ||| step == StepView::Again && (stepped(f, r).step matches StepView::Stream { bytes, limit }
            && s == with_segment(r, (w.zstd)(bytes, limit)))
    }
}

/// The course of a read: the filesystem as it is each time, the reader at each point, and what
/// the steps between came to.
pub open spec fn is_course(
    w: World,
    fs: Seq<FsView>,
    rs: Seq<ReaderView>,
    steps: Seq<StepView>,
) -> bool {
    &&& fs.len() == steps.len()
    &&& rs.len() == steps.len() + 1
    &&& forall|i: int|
        0 <= i < steps.len() ==> goes(w, fs[i], rs[i], #[trigger] steps[i], rs[i + 1])
}

/// A read of `[start, end)` of the file at `loc` from its beginning in `f` to its end.
pub open spec fn is_whole_read(
    w: World,
    f: FsView,
    loc: Loc,
    start: u64,
    end: u64,
    fs: Seq<FsView>,
    rs: Seq<ReaderView>,
    steps: Seq<StepView>,
) -> bool {
    &&& is_course(w, fs, rs, steps)
    &&& reader_of(f, loc, start, end) == Ok::<ReaderView, StopView>(rs[0])
    &&& steps.len() > 0
    &&& steps.last() == StepView::Done
}

/// Once no segment is missing, none is added.
pub proof fn lemma_segments_settle(w: World, algo: u8, raw: Seq<u8>, ram: int, n: nat, m: nat)
    requires
        is_enough(w, algo, raw, ram, n),
        n <= m,
    ensures
        segments_of(w, algo, raw, ram, m) == segments_of(w, algo, raw, ram, n),
    decreases m,
{
    if n < m {
        lemma_segments_settle(w, algo, raw, ram, n, (m - 1) as nat);
    }
}

/// However many segments were enough, the data is the same.
pub proof fn lemma_unpacked(w: World, algo: u8, raw: Seq<u8>, ram: int, n: nat)
    requires
        is_enough(w, algo, raw, ram, n),
    ensures
        unpacked(w, algo, raw, ram) == unpacked_with(
            w,
            algo,
            raw,
            ram,
            segments_of(w, algo, raw, ram, n),
        ),
{
    let m = choose|m: nat| is_enough(w, algo, raw, ram, m);
    if n <= m {
        lemma_segments_settle(w, algo, raw, ram, n, m);
    } else {
        lemma_segments_settle(w, algo, raw, ram, m, n);
    }
}

/// At most one extent of a sound file covers an offset.
proof fn lemma_byte(w: World, exts: Seq<ExtentView>, i: int, x: int)
    requires
        sound_extents(exts),
        holds_data(exts, i, x),
    ensures
        file_byte(w, exts, x) == byte_of(w, exts[i], x),
{
    let j = choose|j: int| holds_data(exts, j, x);
    assert(holds_data(exts, j, x));
    if i < j {
        assert(extent_end(exts[i]) <= exts[j].file_off);
    } else if j < i {
        assert(extent_end(exts[j]) <= exts[i].file_off);
    }
}

/// A read of a sound file starts true.
pub proof fn lemma_starts_true(w: World, f: FsView, loc: Loc, start: u64, end: u64, r: ReaderView)
    requires
        reader_of(f, loc, start, end) == Ok::<ReaderView, StopView>(r),
        sound_extents(r.exts),
    ensures
        is_true(w, r),
{
    reveal(is_true);
    reveal(unpacks_truly);
    law_reader_starts_on_course(f, loc, start, end, r);
}

/// Whatever the extents, a step keeps what is decompressed true.
proof fn lemma_step_unpacks(w: World, f: FsView, r: ReaderView)
    requires
        unpacks_truly(w, r),
        f.sb.sectorsize == w.sectorsize,
    ensures
        unpacks_truly(w, stepped(f, r).reader),
{
    reveal(unpacks_truly);
    let t = stepped(f, r);
    match r.stage {
        StageView::Choose => {
            if let Some(i) = next_extent(r.exts, r.idx, r.pos, r.end) {
                if let Ok(stage) = entered(f, r.last, r.exts[i]) {
                    assert(t.reader.exts[t.reader.idx] == r.exts[i]);
                }
            }
        },
        StageView::Load { fetch, segments } => {
            let e = r.exts[r.idx];
            if let Some(raw) = fetch.data {
                let ram = e.ram_bytes as int;
                if let Ok(data) = unpacked_with(w, e.compression, raw, ram, segments) {
                    assert(is_enough(w, e.compression, raw, ram, segments.len()));
                    lemma_unpacked(w, e.compression, raw, ram, segments.len());
                    assert(is_unpacked(w, e, data));
                }
            }
        },
        StageView::Emit { source } => {},
        StageView::Read { base, fetch } => {},
    }
}

/// So does an honest reply.
proof fn lemma_reply_unpacks(
    w: World,
    f: FsView,
    r: ReaderView,
    req: Request,
    reply: Result<Seq<u8>, Seq<char>>,
)
    requires
        unpacks_truly(w, r),
        is_honest(w, req, reply),
    ensures
        unpacks_truly(w, supplied(f, r, req, reply)),
{
    reveal(unpacks_truly);
}

/// And so does what was decoded because it was asked for.
proof fn lemma_decoded_unpacks(w: World, f: FsView, r: ReaderView, b: SegmentView)
    requires
        unpacks_truly(w, r),
        f.sb.sectorsize == w.sectorsize,
        match stepped(f, r).step {
            StepView::Segment(x) => b == (w.lzo)(x),
            StepView::Stream { bytes, limit } => b == (w.zstd)(bytes, limit),
            _ => false,
        },
    ensures
        unpacks_truly(w, with_segment(r, b)),
{
    reveal(unpacks_truly);
}

/// A step keeps a read true.
proof fn lemma_step_true(w: World, f: FsView, r: ReaderView)
    requires
        is_true(w, r),
        f.wf(),
        f.sb.sectorsize == w.sectorsize,
    ensures
        is_true(w, stepped(f, r).reader),
{
    reveal(is_true);
    law_step_stays_on_course(f, r);
    lemma_step_unpacks(w, f, r);
    if r.stage is Choose {
        if let Some(i) = next_extent(r.exts, r.idx, r.pos, r.end) {
            if let Ok(stage) = entered(f, r.last, r.exts[i]) {
                assert(stepped(f, r).reader.stage == stage);
            }
        }
    }
}

/// An honest reply keeps a read true.
proof fn lemma_reply_true(
    w: World,
    f: FsView,
    r: ReaderView,
    req: Request,
    reply: Result<Seq<u8>, Seq<char>>,
)
    requires
        is_true(w, r),
        is_honest(w, req, reply),
    ensures
        is_true(w, supplied(f, r, req, reply)),
{
    reveal(is_true);
    law_replies_stay_on_course(f, r, req, reply, SegmentView::Malformed);
    lemma_reply_unpacks(w, f, r, req, reply);
}

/// So does what was decoded because it was asked for.
proof fn lemma_decoded_true(w: World, f: FsView, r: ReaderView, b: SegmentView)
    requires
        is_true(w, r),
        f.sb.sectorsize == w.sectorsize,
        match stepped(f, r).step {
            StepView::Segment(x) => b == (w.lzo)(x),
            StepView::Stream { bytes, limit } => b == (w.zstd)(bytes, limit),
            _ => false,
        },
    ensures
        is_true(w, with_segment(r, b)),
{
    reveal(is_true);
    law_replies_stay_on_course(
        f,
        r,
        Request { logical: 0, devid: 0, phys: 0, len: 0 },
        Err(seq![]),
        b,
    );
    lemma_decoded_unpacks(w, f, r, b);
}

/// A piece of a true read holds the bytes of the file.
proof fn lemma_piece_true(w: World, f: FsView, r: ReaderView, p: PieceView, x: int)
    requires
        is_true(w, r),
        stepped(f, r).step == StepView::Piece(p),
        r.pos <= x < stepped(f, r).reader.pos,
    ensures
        piece_bytes(p)[x - r.pos] == file_byte(w, r.exts, x),
{
    reveal(is_true);
    reveal(unpacks_truly);
    law_pieces_follow_one_another(f, r);
    match p {
        PieceView::Zeros(n) => {
            if exists|i: int| holds_data(r.exts, i, x) {
                let i = choose|i: int| holds_data(r.exts, i, x);
                law_zeros_only_where_no_data_is(f, r, i, x);
            }
        },
        PieceView::Data(b) => {
            let e = r.exts[r.idx];
            match r.stage {
                StageView::Emit { source: SourceView::Plain { data, skip } } => {
                    law_data_is_the_extents(f, r, data, skip, b, x);
                },
                _ => {},
            }
            assert(holds_data(r.exts, r.idx, x));
            lemma_byte(w, r.exts, r.idx, x);
        },
    }
}

/// What happens in the course of a read keeps it true, and hands out the bytes of the file.
pub proof fn lemma_goes(w: World, f: FsView, r: ReaderView, step: StepView, s: ReaderView)
    requires
        is_true(w, r),
        goes(w, f, r, step, s),
    ensures
        is_true(w, s),
        s.exts == r.exts,
        s.end == r.end,
        match step {
            StepView::Piece(p) => r.pos < s.pos <= r.end && piece_bytes(p) == file_bytes(
                w,
                r.exts,
                r.pos,
                s.pos,
            ),
            _ => s.pos == r.pos,
        },
        step == StepView::Done ==> r.pos >= r.end,
{
    reveal(goes);
    assert(r.wf()) by {
        reveal(is_true);
    }
    if step == stepped(f, r).step && s == stepped(f, r).reader {
        lemma_step_true(w, f, r);
        law_pieces_follow_one_another(f, r);
        if let StepView::Piece(p) = step {
            assert forall|i: int| 0 <= i < piece_bytes(p).len() implies piece_bytes(p)[i]
                == file_bytes(w, r.exts, r.pos, s.pos)[i] by {
                lemma_piece_true(w, f, r, p, r.pos + i);
            }
            assert(piece_bytes(p) =~= file_bytes(w, r.exts, r.pos, s.pos));
        }
    } else if exists|req: Request, reply: Result<Seq<u8>, Seq<char>>|
        is_honest(w, req, reply) && s == #[trigger] supplied(f, r, req, reply) {
        let (req, reply) = choose|req: Request, reply: Result<Seq<u8>, Seq<char>>|
            is_honest(w, req, reply) && s == #[trigger] supplied(f, r, req, reply);
        lemma_reply_true(w, f, r, req, reply);
    } else {
        match stepped(f, r).step {
            StepView::Segment(b) => {
                lemma_decoded_true(w, f, r, (w.lzo)(b));
            },
            StepView::Stream { bytes, limit } => {
                lemma_decoded_true(w, f, r, (w.zstd)(bytes, limit));
            },
            _ => {},
        }
    }
}

proof fn lemma_course(w: World, fs: Seq<FsView>, rs: Seq<ReaderView>, steps: Seq<StepView>)
    requires
        is_course(w, fs, rs, steps),
        is_true(w, rs[0]),
    ensures
        is_true(w, rs.last()),
        rs.last().exts == rs[0].exts,
        rs.last().end == rs[0].end,
        rs[0].pos <= rs.last().pos,
        rs[0].pos < rs.last().pos ==> rs.last().pos <= rs[0].end,
        handed_out(steps) == file_bytes(w, rs[0].exts, rs[0].pos, rs.last().pos),
        steps.len() > 0 && steps.last() == StepView::Done ==> rs.last().pos >= rs[0].end,
    decreases steps.len(),
{
    if steps.len() == 0 {
        assert(handed_out(steps) =~= file_bytes(w, rs[0].exts, rs[0].pos, rs.last().pos));
    } else {
        let k = steps.len() - 1;
        let front = steps.drop_last();
        assert forall|i: int| 0 <= i < k implies goes(
            w,
            fs.drop_last()[i],
            rs.drop_last()[i],
            #[trigger] front[i],
            rs.drop_last()[i + 1],
        ) by {
            assert(front[i] == steps[i]);
        }
        lemma_course(w, fs.drop_last(), rs.drop_last(), front);
        assert(goes(w, fs[k], rs[k], steps[k], rs[k + 1]));
        lemma_goes(w, fs[k], rs[k], steps[k], rs[k + 1]);
        assert(handed_out(steps) =~= file_bytes(w, rs[0].exts, rs[0].pos, rs.last().pos));
    }
}

/// The bytes of a file in `[start, end)`, of which there are none where it is empty.
pub open spec fn range_bytes(w: World, exts: Seq<ExtentView>, start: int, end: int) -> Seq<u8> {
    if start <= end {
        file_bytes(w, exts, start, end)
    } else {
        seq![]
    }
}

/// A read that comes to its end has handed out the contents of the file over its range,
/// byte for byte and in order: the file's extents give each byte, from the leaf or the disk,
/// decompressed where they are compressed, and what no extent holds data for is zero. This
/// is so of every file whose extents do not overlap, whatever else was read before or in
/// between, as long as what is read and decoded on the way is what is there; a failed or short
/// reply may be among it.
pub proof fn law_a_read_gives_back_the_file(
    w: World,
    f: FsView,
    loc: Loc,
    start: u64,
    end: u64,
    fs: Seq<FsView>,
    rs: Seq<ReaderView>,
    steps: Seq<StepView>,
)
    requires
        is_whole_read(w, f, loc, start, end, fs, rs, steps),
        sound_extents(rs[0].exts),
    ensures
        handed_out(steps) == range_bytes(w, rs[0].exts, start as int, rs[0].end),
{
    lemma_starts_true(w, f, loc, start, end, rs[0]);
    lemma_course(w, fs, rs, steps);
    assert(file_bytes(w, rs[0].exts, rs[0].pos, rs[0].pos) =~= seq![]);
}

/// Reading a range in two parts gives the same bytes as reading it at once, and reading an
/// empty range gives none.
pub proof fn law_reading_in_parts(
    w: World,
    f: FsView,
    loc: Loc,
    a: u64,
    m: u64,
    c: u64,
    fs: (Seq<FsView>, Seq<FsView>, Seq<FsView>),
    rs: (Seq<ReaderView>, Seq<ReaderView>, Seq<ReaderView>),
    steps: (Seq<StepView>, Seq<StepView>, Seq<StepView>),
)
    requires
        a <= m <= c,
        is_whole_read(w, f, loc, a, m, fs.0, rs.0, steps.0),
        is_whole_read(w, f, loc, m, c, fs.1, rs.1, steps.1),
        is_whole_read(w, f, loc, a, c, fs.2, rs.2, steps.2),
        sound_extents(rs.2[0].exts),
    ensures
        handed_out(steps.0) + handed_out(steps.1) == handed_out(steps.2),
        a == m ==> handed_out(steps.0).len() == 0,
{
    law_a_read_gives_back_the_file(w, f, loc, a, m, fs.0, rs.0, steps.0);
    law_a_read_gives_back_the_file(w, f, loc, m, c, fs.1, rs.1, steps.1);
    law_a_read_gives_back_the_file(w, f, loc, a, c, fs.2, rs.2, steps.2);
    assert(handed_out(steps.0) + handed_out(steps.1) =~= handed_out(steps.2));
}

/// Whatever happens in the course of a read keeps what is decompressed true.
proof fn lemma_goes_unpacks(w: World, f: FsView, r: ReaderView, step: StepView, s: ReaderView)
    requires
        unpacks_truly(w, r),
        goes(w, f, r, step, s),
    ensures
        unpacks_truly(w, s),
{
    reveal(goes);
    if step == stepped(f, r).step && s == stepped(f, r).reader {
        lemma_step_unpacks(w, f, r);
    } else if exists|req: Request, reply: Result<Seq<u8>, Seq<char>>|
        is_honest(w, req, reply) && s == #[trigger] supplied(f, r, req, reply) {
        let (req, reply) = choose|req: Request, reply: Result<Seq<u8>, Seq<char>>|
            is_honest(w, req, reply) && s == #[trigger] supplied(f, r, req, reply);
        lemma_reply_unpacks(w, f, r, req, reply);
    } else {
        match stepped(f, r).step {
            StepView::Segment(b) => {
                lemma_decoded_unpacks(w, f, r, (w.lzo)(b));
            },
            StepView::Stream { bytes, limit } => {
                lemma_decoded_unpacks(w, f, r, (w.zstd)(bytes, limit));
            },
            _ => {},
        }
    }
}

proof fn lemma_course_unpacks(
    w: World,
    fs: Seq<FsView>,
    rs: Seq<ReaderView>,
    steps: Seq<StepView>,
    i: int,
)
    requires
        is_course(w, fs, rs, steps),
        unpacks_truly(w, rs[0]),
        0 <= i <= steps.len(),
    ensures
        unpacks_truly(w, rs[i]),
    decreases i,
{
    if i > 0 {
        lemma_course_unpacks(w, fs, rs, steps, i - 1);
        assert(goes(w, fs[i - 1], rs[i - 1], steps[i - 1], rs[i]));
        lemma_goes_unpacks(w, fs[i - 1], rs[i - 1], steps[i - 1], rs[i]);
    }
}

/// Remembering the extent that was decompressed last changes no result, whatever the extents
/// of the file and however they contradict one another: at every point of a read, what would be
/// recalled for an extent is what decompressing it afresh gives, of the size it declares; and
/// what is handed out of a compressed extent is that too, recalled or not.
pub proof fn law_recalling_changes_nothing(
    w: World,
    f: FsView,
    loc: Loc,
    start: u64,
    end: u64,
    fs: Seq<FsView>,
    rs: Seq<ReaderView>,
    steps: Seq<StepView>,
    i: int,
    e: ExtentView,
)
    requires
        is_course(w, fs, rs, steps),
        reader_of(f, loc, start, end) == Ok::<ReaderView, StopView>(rs[0]),
        0 <= i <= steps.len(),
    ensures
        recalled(rs[i].last, e) matches Some(data) ==> is_unpacked(w, e, data) && data.len()
            == e.ram_bytes,
        rs[i].stage matches StageView::Emit { source: SourceView::Plain { data, .. } } ==> ({
            let x = rs[i].exts[rs[i].idx];
            x.compression != 0 ==> is_unpacked(w, x, data) && data.len() == x.ram_bytes
        }),
{
    reveal(unpacks_truly);
    assert(unpacks_truly(w, rs[0]));
    lemma_course_unpacks(w, fs, rs, steps, i);
    if let Some(data) = recalled(rs[i].last, e) {
        lemma_unpacked_size(w, e, data);
    }
    if let StageView::Emit { source: SourceView::Plain { data, .. } } = rs[i].stage {
        let x = rs[i].exts[rs[i].idx];
        if x.compression != 0 {
            lemma_unpacked_size(w, x, data);
        }
    }
}

pub proof fn lemma_unpacked_size(w: World, e: ExtentView, data: Seq<u8>)
    requires
        is_unpacked(w, e, data),
    ensures
        data.len() == e.ram_bytes,
{
    let raw = raw_of(w, e);
    let ram = e.ram_bytes as int;
    let n = choose|n: nat| is_enough(w, e.compression, raw, ram, n);
    law_decodes_to_the_declared_size(
        e.compression,
        raw,
        ram,
        w.sectorsize,
        decoded(raw, ram, segments_of(w, e.compression, raw, ram, n)),
    );
}

} // verus!
