//! What reading a range promises: the pieces follow one another without a gap up to the
//! end of the range, and each byte is the one that the file's extents give it.

use vstd::prelude::*;

use crate::decompress::{decoded, law_decodes_to_the_declared_size, SegmentView};
use crate::disk::{cut, ExtentKindView, ExtentView};
use crate::error::{because, ErrorKind};
use crate::fs::{FsView, Request, StopView};
use crate::lookup::Loc;
use crate::range::{
    entered, extent_end, is_hole, next_extent, piece_bytes, reader_of, stepped, supplied,
    with_segment, PieceView, ReaderView, SourceView, StageView, StepView,
};

verus! {

/// The byte at offset `x` of the file lies in the extent.
pub open spec fn covers(e: ExtentView, x: int) -> bool {
    e.file_off <= x < extent_end(e)
}

/// The extents of a sound file: in order, not overlapping, an inline extent as long as
/// its data.
pub open spec fn sound_extents(exts: Seq<ExtentView>) -> bool {
    &&& forall|i: int, j: int|
        0 <= i < j < exts.len() ==> extent_end(#[trigger] exts[i]) <= (#[trigger] exts[j]).file_off
    &&& forall|i: int|
        0 <= i < exts.len() ==> match (#[trigger] exts[i]).kind {
            ExtentKindView::Inline(raw) => {
                &&& exts[i].len == exts[i].ram_bytes
                &&& exts[i].file_off + exts[i].len <= u64::MAX
                &&& exts[i].compression == 0 ==> raw.len() == exts[i].len
            },
            _ => true,
        }
}

/// The source is one for this extent.
pub open spec fn source_fits(e: ExtentView, source: SourceView) -> bool {
    match source {
        SourceView::Zeros => is_hole(e),
        SourceView::Plain { data, skip } => !is_hole(e) && match e.kind {
            ExtentKindView::Inline(raw) => {
                &&& skip == 0
                &&& data.len() == e.len
                &&& e.compression == 0 ==> data == raw
            },
            ExtentKindView::Regular { offset, .. } => e.compression != 0 && skip == offset,
            ExtentKindView::Prealloc => false,
        },
        SourceView::Disk { base } => !is_hole(e) && match e.kind {
            ExtentKindView::Regular { disk_bytenr, offset, .. } => e.compression == 0 && base
                == disk_bytenr + offset,
            _ => false,
        },
    }
}

/// Nothing of the extent lies past `pos`.
pub open spec fn spent(e: ExtentView, pos: int) -> bool {
    extent_end(e) <= pos || extent_end(e) <= e.file_off
}

/// What holds of a reader of a sound file at every step: what lies before the extent it is
/// at has been handed out, and what it hands out is that extent's.
pub open spec fn on_course(r: ReaderView) -> bool {
    &&& r.wf()
    &&& sound_extents(r.exts)
    &&& r.pos < r.end ==> forall|j: int| 0 <= j < r.idx ==> spent(#[trigger] r.exts[j], r.pos)
    &&& !(r.stage is Choose) ==> r.exts[r.idx].file_off < r.end
    &&& match r.stage {
        StageView::Choose => true,
        StageView::Load { .. } => {
            &&& r.exts[r.idx].compression != 0
            &&& r.exts[r.idx].kind matches ExtentKindView::Inline(_) ==> r.exts[r.idx].ram_bytes
                == r.exts[r.idx].len
        },
        StageView::Emit { source } => source_fits(r.exts[r.idx], source),
        StageView::Read { base, .. } => source_fits(
            r.exts[r.idx],
            SourceView::Disk { base },
        ),
    }
}

/// From extent `i` on, the extents up to `k` end by `pos` and the next starts past the end.
pub open spec fn quiet(exts: Seq<ExtentView>, i: int, k: int, pos: int, end: int) -> bool {
    &&& i <= k <= exts.len()
    &&& k < exts.len() ==> exts[k].file_off >= end
    &&& forall|j: int| i <= j < k ==> extent_end(#[trigger] exts[j]) <= pos
}

pub proof fn lemma_next_extent(exts: Seq<ExtentView>, i: int, pos: int, end: int)
    requires
        0 <= i <= exts.len(),
    ensures
        match next_extent(exts, i, pos, end) {
            Some(k) => {
                &&& i <= k < exts.len()
                &&& pos < end
                &&& exts[k].file_off < end
                &&& extent_end(exts[k]) > pos
                &&& forall|j: int| i <= j < k ==> extent_end(#[trigger] exts[j]) <= pos
            },
            None => pos < end ==> exists|k: int| quiet(exts, i, k, pos, end),
        },
    decreases exts.len() - i,
{
    if pos >= end {
    } else if i >= exts.len() || exts[i].file_off >= end {
        assert(quiet(exts, i, i, pos, end));
    } else if extent_end(exts[i]) <= pos {
        lemma_next_extent(exts, i + 1, pos, end);
        if next_extent(exts, i, pos, end) is None {
            let next = i + 1;
            let k = choose|k: int| quiet(exts, next, k, pos, end);
            assert(quiet(exts, i, k, pos, end));
        }
    }
}

/// A piece is never empty and begins where the one before it ended; a step that hands
/// nothing out leaves the offset where it is; nothing is handed out past the end of the
/// range, and the reader is done only when it has got there. So the pieces of a read that
/// is done make up the range, byte for byte.
pub proof fn law_pieces_follow_one_another(f: FsView, r: ReaderView)
    requires
        r.wf(),
    ensures
        ({
            let t = stepped(f, r);
            &&& t.reader.exts == r.exts
            &&& t.reader.end == r.end
            &&& match t.step {
                StepView::Piece(p) => {
                    &&& 0 < piece_bytes(p).len()
                    &&& t.reader.pos == r.pos + piece_bytes(p).len()
                    &&& t.reader.pos <= r.end
                },
                _ => t.reader.pos == r.pos,
            }
            &&& t.step == StepView::Done ==> r.pos >= r.end
        }),
{
}

/// A reader of a sound file starts on course.
pub proof fn law_reader_starts_on_course(
    f: FsView,
    loc: Loc,
    start: u64,
    end: u64,
    r: ReaderView,
)
    requires
        reader_of(f, loc, start, end) == Ok::<ReaderView, StopView>(r),
        sound_extents(r.exts),
    ensures
        on_course(r),
{
}

/// One thing that happens to a reader: a step, the reply to a read, a decoded segment.
pub open spec fn moves(r: ReaderView, step: StepView, next: ReaderView) -> bool {
    ||| exists|f: FsView|
        f.wf() && (#[trigger] stepped(f, r)).step == step && stepped(f, r).reader == next
    ||| step == StepView::Again && exists|
        f: FsView,
        req: Request,
        reply: Result<Seq<u8>, Seq<char>>,
    | next == #[trigger] supplied(f, r, req, reply)
    ||| step == StepView::Again && exists|s: SegmentView| next == #[trigger] with_segment(r, s)
}

/// A course of such things, one after another.
pub open spec fn is_run(rs: Seq<ReaderView>, steps: Seq<StepView>) -> bool {
    &&& rs.len() == steps.len() + 1
    &&& forall|i: int| 0 <= i < steps.len() ==> moves(rs[i], #[trigger] steps[i], rs[i + 1])
}

/// The bytes handed out in the course of them.
pub open spec fn handed_out(steps: Seq<StepView>) -> Seq<u8>
    decreases steps.len(),
{
    if steps.len() == 0 {
        seq![]
    } else {
        match steps.last() {
            StepView::Piece(p) => handed_out(steps.drop_last()) + piece_bytes(p),
            _ => handed_out(steps.drop_last()),
        }
    }
}

proof fn lemma_run(rs: Seq<ReaderView>, steps: Seq<StepView>)
    requires
        is_run(rs, steps),
        rs[0].wf(),
        rs[0].pos <= rs[0].end,
    ensures
        rs.last().wf(),
        rs.last().end == rs[0].end,
        rs[0].pos <= rs.last().pos <= rs[0].end,
        handed_out(steps).len() == rs.last().pos - rs[0].pos,
    decreases steps.len(),
{
    if steps.len() > 0 {
        let qs = rs.drop_last();
        let k = steps.len() - 1;
        assert forall|i: int| 0 <= i < k implies moves(
            qs[i],
            #[trigger] steps.drop_last()[i],
            qs[i + 1],
        ) by {
            assert(steps.drop_last()[i] == steps[i]);
        }
        lemma_run(qs, steps.drop_last());
        let r = rs[k];
        assert(moves(r, steps[k], rs[k + 1]));
        if exists|f: FsView|
            f.wf() && (#[trigger] stepped(f, r)).step == steps[k] && stepped(f, r).reader == rs[k
                + 1] {
            let f = choose|f: FsView|
                f.wf() && (#[trigger] stepped(f, r)).step == steps[k] && stepped(f, r).reader
                    == rs[k + 1];
            law_pieces_follow_one_another(f, r);
            lemma_step_wf(f, r);
        }
    }
}

proof fn lemma_step_wf(f: FsView, r: ReaderView)
    requires
        r.wf(),
        f.wf(),
    ensures
        stepped(f, r).reader.wf(),
{
    lemma_next_extent(r.exts, r.idx, r.pos, r.end);
}

/// How many mirrors the read of data under way has tried in vain.
pub open spec fn tried_by(r: ReaderView) -> int {
    match r.stage {
        StageView::Load { fetch, .. } => fetch.tried,
        StageView::Read { fetch, .. } => fetch.tried,
        _ => 0,
    }
}

/// A read that comes to its end has handed out as many bytes as the range has, whatever
/// was read and decoded on the way; an empty range hands out nothing.
pub proof fn law_a_read_hands_out_the_whole_range(rs: Seq<ReaderView>, steps: Seq<StepView>)
    requires
        is_run(rs, steps),
        rs[0].wf(),
        rs[0].pos <= rs[0].end,
        steps.len() > 0,
        steps.last() == StepView::Done,
    ensures
        handed_out(steps).len() == rs[0].end - rs[0].pos,
{
    lemma_run(rs, steps);
    let k = steps.len() - 1;
    let qs = rs.drop_last();
    assert forall|i: int| 0 <= i < k implies moves(
        qs[i],
        #[trigger] steps.drop_last()[i],
        qs[i + 1],
    ) by {
        assert(steps.drop_last()[i] == steps[i]);
    }
    lemma_run(qs, steps.drop_last());
    let r = rs[k];
    assert(moves(r, steps[k], rs[k + 1]));
    let f = choose|f: FsView|
        f.wf() && (#[trigger] stepped(f, r)).step == steps[k] && stepped(f, r).reader == rs[k + 1];
    law_pieces_follow_one_another(f, r);
}

/// Every step keeps a reader on course.
pub proof fn law_step_stays_on_course(f: FsView, r: ReaderView)
    requires
        on_course(r),
        f.wf(),
    ensures
        on_course(stepped(f, r).reader),
{
    lemma_next_extent(r.exts, r.idx, r.pos, r.end);
    let t = stepped(f, r).reader;
    match r.stage {
        StageView::Choose => {
            if let Some(i) = next_extent(r.exts, r.idx, r.pos, r.end) {
                if let Ok(stage) = entered(f, r.last, r.exts[i]) {
                    assert(r.exts[i] == t.exts[t.idx]);
                }
            }
        },
        StageView::Load { fetch, segments } => {
            let e = r.exts[r.idx];
            if let Some(raw) = fetch.data {
                law_decodes_to_the_declared_size(
                    e.compression,
                    raw,
                    e.ram_bytes as int,
                    f.sb.sectorsize as int,
                    decoded(raw, e.ram_bytes as int, segments),
                );
            }
        },
        StageView::Emit { source } => {
            let e = r.exts[r.idx];
            if t.idx == r.idx + 1 && t.pos < t.end {
                assert forall|j: int| 0 <= j < t.idx implies spent(#[trigger] t.exts[j], t.pos) by {
                    if j < r.idx {
                        assert(spent(r.exts[j], r.pos));
                    }
                }
            }
        },
        StageView::Read { base, fetch } => {},
    }
}

/// So do the replies.
pub proof fn law_replies_stay_on_course(
    f: FsView,
    r: ReaderView,
    req: Request,
    reply: Result<Seq<u8>, Seq<char>>,
    s: SegmentView,
)
    requires
        on_course(r),
    ensures
        on_course(supplied(f, r, req, reply)),
        on_course(with_segment(r, s)),
{
}

/// Zeros are handed out only where no extent holds data: in the gaps, and where holes and
/// preallocated extents lie.
pub proof fn law_zeros_only_where_no_data_is(f: FsView, r: ReaderView, i: int, x: int)
    requires
        on_course(r),
        stepped(f, r).step matches StepView::Piece(PieceView::Zeros(_)),
        r.pos <= x < stepped(f, r).reader.pos,
        0 <= i < r.exts.len(),
        covers(r.exts[i], x),
    ensures
        is_hole(r.exts[i]),
{
    lemma_next_extent(r.exts, r.idx, r.pos, r.end);
    match r.stage {
        StageView::Choose => {
            let k = choose|k: int| quiet(r.exts, r.idx, k, r.pos, r.end);
            if i < r.idx {
                assert(spent(r.exts[i], r.pos));
            }
            if k < i {
                assert(extent_end(r.exts[k]) <= r.exts[i].file_off);
            }
        },
        StageView::Emit { source } => {
            if i < r.idx {
                assert(spent(r.exts[i], r.pos));
            } else if i > r.idx {
                assert(extent_end(r.exts[r.idx]) <= r.exts[i].file_off);
            } else {
                if r.pos < r.exts[r.idx].file_off {
                    assert(x < r.exts[r.idx].file_off);
                }
            }
        },
        _ => {},
    }
}

/// Data handed out is that of the extent which covers it: the byte at offset `x` of the
/// file is the byte of the extent's data as far into it as `x` is into the extent, past
/// the part of the data that the extent leaves out.
pub proof fn law_data_is_the_extents(
    f: FsView,
    r: ReaderView,
    data: Seq<u8>,
    skip: int,
    piece: Seq<u8>,
    x: int,
)
    requires
        on_course(r),
        r.stage == (StageView::Emit { source: SourceView::Plain { data, skip } }),
        stepped(f, r).step == StepView::Piece(PieceView::Data(piece)),
        r.pos <= x < r.pos + piece.len(),
    ensures
        covers(r.exts[r.idx], x),
        source_fits(r.exts[r.idx], SourceView::Plain { data, skip }),
        0 <= skip + x - r.exts[r.idx].file_off < data.len(),
        piece[x - r.pos] == data[skip + x - r.exts[r.idx].file_off],
{
}

/// Data of an extent that is not compressed is what the disk holds at the extent's address,
/// as far into it as the offset is into the extent: the bytes that come back for such a
/// read are handed out as they are.
pub proof fn law_disk_bytes_are_handed_out(f: FsView, r: ReaderView, req: Request, b: Seq<u8>)
    requires
        on_course(r),
        r.stage is Read,
        stepped(f, r).step == StepView::Read(req),
        b.len() == req.len,
    ensures
        ({
            let e = r.exts[r.idx];
            let t = stepped(f, supplied(f, r, req, Ok(b)));
            &&& t.step == StepView::Piece(PieceView::Data(b))
            &&& t.reader.pos == r.pos + b.len()
            &&& covers(e, r.pos)
            &&& t.reader.pos <= extent_end(e)
            &&& e.kind matches ExtentKindView::Regular { disk_bytenr, offset, .. }
                && req.logical == disk_bytenr + offset + (r.pos - e.file_off)
        }),
{
}

/// A read of file data that fails is made of the next mirror, and only when every mirror has
/// failed does the reading fail, with what was wrong with the last.
pub proof fn law_data_falls_back_to_the_next_mirror(
    f: FsView,
    r: ReaderView,
    req: Request,
    reply: Result<Seq<u8>, Seq<char>>,
)
    requires
        stepped(f, r).step == StepView::Read(req),
        reply matches Ok(b) ==> b.len() != req.len,
    ensures
        ({
            let tried = tried_by(r) + 1;
            let places = f.mirrors(req.logical, req.len)->Ok_0;
            stepped(f, supplied(f, r, req, reply)).step == if tried < places.len() {
                StepView::Read(Request { devid: places[tried].0, phys: places[tried].1, ..req })
            } else {
                StepView::Failed(
                    match reply {
                        Ok(b) => cut(b, 0, req.len as int),
                        Err(m) => because(ErrorKind::Host, m),
                    },
                )
            }
        }),
{
}

} // verus!
