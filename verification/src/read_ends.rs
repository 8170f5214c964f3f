//! A read of a file that can be read comes to its end, and gives its contents.

use vstd::prelude::*;

use crate::decompress::{HaltView, SegmentView};
use crate::disk::{ExtentKindView, ExtentView};
use crate::error::ErrorView;
use crate::fs::{FsView, StopView};
use crate::lookup::{extents_at, inode_at, Loc};
use crate::range::{
    extent_end, next_extent, piece_bytes, reader_of, stepped, supplied, with_segment, PieceView,
    ReaderView, SourceView, StageView, StepView,
};
use crate::range_laws::{on_course, sound_extents};
use crate::read_laws::{
    file_byte, file_bytes, goes, holds_data, is_enough, is_honest, is_true, lemma_goes,
    lemma_segments_settle, lemma_starts_true, lemma_unpacked, lemma_unpacked_size, raw_of, stored,
    unpacked, unpacked_with, unpacks_truly, World,
};

verus! {

/// What the extent gives to offset `x` of its file, if it lies there: bytes of its own, or of
/// the disk, decompressed where they are compressed, and zeros where nothing was written.
pub open spec fn byte_at(w: World, e: ExtentView, x: int) -> Option<u8> {
    let at = x - e.file_off;
    if at < 0 || at >= e.len {
        None
    } else {
        match e.kind {
            ExtentKindView::Inline(raw) => if e.compression == 0 {
                Some(raw[at])
            } else {
                Some((unpacked(w, e.compression, raw, e.ram_bytes as int)->Ok_0)[at])
            },
            ExtentKindView::Regular { disk_bytenr, disk_num_bytes, offset } => if disk_bytenr
                == 0 {
                Some(0)
            } else if e.compression == 0 {
                Some((w.disk)(disk_bytenr + offset + at))
            } else {
                Some(
                    (unpacked(
                        w,
                        e.compression,
                        stored(w, disk_bytenr as int, disk_num_bytes as int),
                        e.ram_bytes as int,
                    )->Ok_0)[offset + at],
                )
            },
            ExtentKindView::Prealloc => Some(0),
        }
    }
}

/// The extents stand one after another and do not overlap, none reaches past what 64 bits can
/// tell, and an inline one is as long as its data.
pub open spec fn is_laid_out(exts: Seq<ExtentView>) -> bool {
    &&& forall|i: int, j: int|
        0 <= i < j < exts.len() ==> (#[trigger] exts[i]).file_off + exts[i].len <= (
        #[trigger] exts[j]).file_off
    &&& forall|i: int|
        0 <= i < exts.len() ==> {
            &&& (#[trigger] exts[i]).file_off + exts[i].len <= u64::MAX
            &&& exts[i].kind matches ExtentKindView::Inline(raw) ==> exts[i].len
                == exts[i].ram_bytes && (exts[i].compression == 0 ==> raw.len() == exts[i].len)
        }
}

/// The byte of the file at `x`: that of the extent which lies there, and zero where none does.
pub open spec fn is_byte(w: World, exts: Seq<ExtentView>, x: int, b: u8) -> bool {
    &&& forall|i: int|
        0 <= i < exts.len() ==> (byte_at(w, #[trigger] exts[i], x) matches Some(c) ==> b == c)
    &&& (forall|i: int| 0 <= i < exts.len() ==> byte_at(w, #[trigger] exts[i], x) is None) ==> b
        == 0
}

/// The extent can be read: an inline one declares no more than a tree block, what is on disk is
/// mapped, what is compressed is of a size that an extent can have and decodes to what it
/// declares, and the extent lies within it.
pub open spec fn is_readable(w: World, f: FsView, e: ExtentView) -> bool {
    match e.kind {
        ExtentKindView::Inline(raw) => {
            &&& e.ram_bytes <= f.sb.nodesize
            &&& e.compression != 0 ==> unpacked(w, e.compression, raw, e.ram_bytes as int) is Ok
        },
        ExtentKindView::Regular { disk_bytenr, disk_num_bytes, offset } => disk_bytenr != 0 ==> if e.compression
            == 0 {
            &&& disk_bytenr + offset + e.len <= u64::MAX
            &&& forall|at: u64, n: u64|
                disk_bytenr + offset <= at && at + n <= disk_bytenr + offset + e.len && n > 0
                    ==> #[trigger] f.mirrors(at, n) is Ok
        } else {
            &&& e.ram_bytes <= 0x4000_0000
            &&& disk_num_bytes <= 0x4000_0000
            &&& offset + e.len <= e.ram_bytes
            &&& f.mirrors(disk_bytenr, disk_num_bytes) is Ok
            &&& unpacked(
                w,
                e.compression,
                stored(w, disk_bytenr as int, disk_num_bytes as int),
                e.ram_bytes as int,
            ) is Ok
        },
        ExtentKindView::Prealloc => true,
    }
}

/// The reader after a step, once what the step asked for was done: a read brought the bytes on
/// disk, and what was to be decoded was.
pub open spec fn served(w: World, f: FsView, r: ReaderView) -> ReaderView {
    let t = stepped(f, r);
    match t.step {
        StepView::Read(req) => supplied(
            f,
            t.reader,
            req,
            Ok(stored(w, req.logical as int, req.len as int)),
        ),
        StepView::Segment(b) => with_segment(t.reader, (w.lzo)(b)),
        StepView::Stream { bytes, limit } => with_segment(t.reader, (w.zstd)(bytes, limit)),
        _ => t.reader,
    }
}

/// The reader after `n` steps.
pub open spec fn after(w: World, f: FsView, r: ReaderView, n: nat) -> ReaderView
    decreases n,
{
    if n == 0 {
        r
    } else {
        after(w, f, served(w, f, r), (n - 1) as nat)
    }
}

/// What is handed out in `n` steps.
pub open spec fn output(w: World, f: FsView, r: ReaderView, n: nat) -> Seq<u8>
    decreases n,
{
    if n == 0 {
        seq![]
    } else {
        (match stepped(f, r).step {
            StepView::Piece(p) => piece_bytes(p),
            _ => seq![],
        }) + output(w, f, served(w, f, r), (n - 1) as nat)
    }
}

/// None of the first `n` steps fails.
pub open spec fn runs_well(w: World, f: FsView, r: ReaderView, n: nat) -> bool
    decreases n,
{
    n == 0 || !(stepped(f, r).step is Failed) && runs_well(w, f, served(w, f, r), (n - 1) as nat)
}

/// No read so far has failed.
spec fn is_fresh(r: ReaderView) -> bool {
    match r.stage {
        StageView::Load { fetch, .. } => fetch.last is None && fetch.tried == 0,
        StageView::Read { fetch, .. } => fetch.last is None && fetch.tried == 0,
        _ => true,
    }
}

spec fn all_readable(w: World, f: FsView, exts: Seq<ExtentView>) -> bool {
    forall|i: int| 0 <= i < exts.len() ==> is_readable(w, f, #[trigger] exts[i])
}

/// How much is left to be decoded of the extent at hand.
spec fn missing(w: World, r: ReaderView) -> nat {
    match r.stage {
        StageView::Load { fetch, segments } => {
            let e = r.exts[r.idx];
            let n = choose|n: nat|
                is_enough(w, e.compression, raw_of(w, e), e.ram_bytes as int, n);
            let left = if segments.len() < n {
                (n - segments.len()) as nat
            } else {
                0
            };
            if fetch.data is None {
                left + 1
            } else {
                left
            }
        },
        StageView::Read { fetch, .. } => if fetch.data is None {
            1
        } else {
            0
        },
        _ => 0,
    }
}

spec fn stage_rank(r: ReaderView) -> nat {
    match r.stage {
        StageView::Choose => 3,
        StageView::Load { .. } => 2,
        StageView::Emit { .. } => 1,
        StageView::Read { .. } => 0,
    }
}

/// What is to be handed out yet.
spec fn left_of(r: ReaderView) -> nat {
    if r.pos < r.end {
        (r.end - r.pos) as nat
    } else {
        0
    }
}

/// All that the proof goes by at each step.
#[verifier::opaque]
spec fn is_well(w: World, f: FsView, r: ReaderView) -> bool {
    &&& is_true(w, r)
    &&& is_fresh(r)
    &&& all_readable(w, f, r.exts)
    &&& f.wf()
    &&& f.sb.sectorsize == w.sectorsize
}

/// What of the extent is decoded so far tells whether anything is missing.
proof fn lemma_segments_left(w: World, f: FsView, r: ReaderView)
    requires
        is_well(w, f, r),
        r.stage matches StageView::Load { fetch, .. } && fetch.data is Some,
    ensures
        ({
            let e = r.exts[r.idx];
            let n = choose|n: nat|
                is_enough(w, e.compression, raw_of(w, e), e.ram_bytes as int, n);
            &&& !(stepped(f, r).step is Failed)
            &&& stepped(f, r).step is Segment || stepped(f, r).step is Stream
                ==> r.stage->segments.len() < n
        }),
{
    reveal(is_well);
    reveal(is_true);
    reveal(unpacks_truly);
    let e = r.exts[r.idx];
    let raw = raw_of(w, e);
    let ram = e.ram_bytes as int;
    assert(is_readable(w, f, e));
    let n = choose|n: nat| is_enough(w, e.compression, raw, ram, n);
    assert(unpacked(w, e.compression, raw, ram) is Ok);
    assert(is_enough(w, e.compression, raw, ram, n));
    if let StageView::Load { fetch, segments } = r.stage {
        let k = segments.len();
        if k >= n {
            lemma_segments_settle(w, e.compression, raw, ram, n, k);
        }
        if is_enough(w, e.compression, raw, ram, k) {
            lemma_unpacked(w, e.compression, raw, ram, k);
        }
    }
}

/// No step fails.
proof fn lemma_no_failure(w: World, f: FsView, r: ReaderView)
    requires
        is_well(w, f, r),
    ensures
        !(stepped(f, r).step is Failed),
{
    reveal(is_well);
    reveal(is_true);
    match r.stage {
        StageView::Choose => {
            crate::range_laws::lemma_next_extent(r.exts, r.idx, r.pos, r.end);
            if let Some(i) = next_extent(r.exts, r.idx, r.pos, r.end) {
                assert(is_readable(w, f, r.exts[i]));
            }
        },
        StageView::Load { fetch, segments } => {
            assert(is_readable(w, f, r.exts[r.idx]));
            if fetch.data is Some {
                lemma_segments_left(w, f, r);
            }
        },
        StageView::Emit { source } => {
            let e = r.exts[r.idx];
            assert(is_readable(w, f, e));
            if let SourceView::Plain { data, skip } = source {
                if e.compression != 0 {
                    reveal(unpacks_truly);
                    lemma_unpacked_size(w, e, data);
                }
            }
        },
        StageView::Read { base, fetch } => {
            let e = r.exts[r.idx];
            assert(is_readable(w, f, e));
            let n = crate::range::piece_len(
                r.pos,
                crate::range::emit_end(r, SourceView::Disk { base }),
            );
            let at = base + (r.pos - e.file_off);
            if fetch.data is None {
                assert(f.mirrors(at as u64, n as u64) is Ok);
            }
        },
    }
}

/// A step, and what was done because of it, keep all that, and bring the read nearer to its
/// end.
#[verifier::rlimit(40)]
proof fn lemma_progress(w: World, f: FsView, r: ReaderView)
    requires
        is_well(w, f, r),
        !(stepped(f, r).step is Done),
    ensures
        ({
            let s = served(w, f, r);
            &&& is_well(w, f, s)
            &&& s.exts == r.exts
            &&& s.end == r.end
            &&& 0 <= s.idx <= s.exts.len()
            &&& match stepped(f, r).step {
                StepView::Piece(p) => r.pos < s.pos <= r.end && piece_bytes(p) == file_bytes(
                    w,
                    r.exts,
                    r.pos,
                    s.pos,
                ),
                _ => s.pos == r.pos,
            }
            &&& s.idx >= r.idx
            &&& s.idx == r.idx ==> left_of(s) <= left_of(r)
            &&& s.idx == r.idx && left_of(s) == left_of(r) ==> stage_rank(s) <= stage_rank(r)
            &&& s.idx == r.idx && left_of(s) == left_of(r) && stage_rank(s) == stage_rank(r)
                ==> missing(w, s) < missing(w, r)
        }),
{
    reveal(is_well);
    lemma_no_failure(w, f, r);
    let t = stepped(f, r);
    assert(goes(w, f, r, t.step, t.reader)) by {
        reveal(goes);
    }
    lemma_goes(w, f, r, t.step, t.reader);
    assert(r.wf() && on_course(r)) by {
        reveal(is_true);
    }
    crate::range_laws::lemma_next_extent(r.exts, r.idx, r.pos, r.end);
    match t.step {
        StepView::Read(req) => {
            assert(t.reader == r);
            let reply = Ok::<Seq<u8>, Seq<char>>(stored(w, req.logical as int, req.len as int));
            let s = supplied(f, r, req, reply);
            assert(goes(w, f, r, StepView::Again, s)) by {
                reveal(goes);
                assert(is_honest(w, req, reply));
            }
            lemma_goes(w, f, r, StepView::Again, s);
        },
        StepView::Segment(b) => {
            assert(t.reader == r);
            let s = with_segment(r, (w.lzo)(b));
            assert(goes(w, f, r, StepView::Again, s)) by {
                reveal(goes);
            }
            lemma_goes(w, f, r, StepView::Again, s);
            lemma_segments_left(w, f, r);
        },
        StepView::Stream { bytes, limit } => {
            assert(t.reader == r);
            let s = with_segment(r, (w.zstd)(bytes, limit));
            assert(goes(w, f, r, StepView::Again, s)) by {
                reveal(goes);
            }
            lemma_goes(w, f, r, StepView::Again, s);
            lemma_segments_left(w, f, r);
        },
        _ => {},
    }
    assert(served(w, f, r).wf()) by {
        reveal(is_true);
    }
}

/// The end of what there is to hand out.
spec fn end_of(r: ReaderView) -> int {
    if r.pos < r.end {
        r.end
    } else {
        r.pos
    }
}

/// At the end nothing is left to be handed out.
proof fn lemma_done(w: World, f: FsView, r: ReaderView)
    requires
        is_well(w, f, r),
        stepped(f, r).step is Done,
    ensures
        r.pos >= r.end,
        output(w, f, r, 0) == file_bytes(w, r.exts, r.pos, end_of(r)),
{
    reveal(is_well);
    assert(goes(w, f, r, StepView::Done, stepped(f, r).reader)) by {
        reveal(goes);
    }
    lemma_goes(w, f, r, StepView::Done, stepped(f, r).reader);
    assert(output(w, f, r, 0) =~= file_bytes(w, r.exts, r.pos, end_of(r)));
}

/// What a step hands out comes before what the others do.
proof fn lemma_output(w: World, f: FsView, r: ReaderView, m: nat)
    requires
        ({
            let s = served(w, f, r);
            &&& s.exts == r.exts
            &&& s.end == r.end
            &&& match stepped(f, r).step {
                StepView::Piece(p) => r.pos < s.pos <= r.end && piece_bytes(p) == file_bytes(
                    w,
                    r.exts,
                    r.pos,
                    s.pos,
                ),
                _ => s.pos == r.pos,
            }
            &&& output(w, f, s, m) == file_bytes(w, s.exts, s.pos, end_of(s))
        }),
    ensures
        output(w, f, r, m + 1) == file_bytes(w, r.exts, r.pos, end_of(r)),
{
    let s = served(w, f, r);
    let rest = file_bytes(w, r.exts, s.pos, end_of(s));
    match stepped(f, r).step {
        StepView::Piece(p) => {
            assert(output(w, f, r, m + 1) == piece_bytes(p) + rest);
        },
        _ => {
            assert(output(w, f, r, m + 1) == Seq::<u8>::empty() + rest);
        },
    }
    assert(output(w, f, r, m + 1) =~= file_bytes(w, r.exts, r.pos, end_of(r)));
}

/// From wherever it is, such a read comes to its end.
proof fn lemma_ends(w: World, f: FsView, r: ReaderView) -> (n: nat)
    requires
        is_well(w, f, r),
        0 <= r.idx <= r.exts.len(),
    ensures
        runs_well(w, f, r, n),
        stepped(f, after(w, f, r, n)).step is Done,
        output(w, f, r, n) == file_bytes(w, r.exts, r.pos, end_of(r)),
    decreases r.exts.len() - r.idx, left_of(r), stage_rank(r), missing(w, r),
{
    if stepped(f, r).step is Done {
        lemma_done(w, f, r);
        0
    } else {
        lemma_no_failure(w, f, r);
        lemma_progress(w, f, r);
        let s = served(w, f, r);
        let m = lemma_ends(w, f, s);
        lemma_output(w, f, r, m);
        assert(after(w, f, r, m + 1) == after(w, f, s, m));
        m + 1
    }
}

/// The layout is what the reader goes by.
proof fn lemma_laid_out(exts: Seq<ExtentView>)
    requires
        is_laid_out(exts),
    ensures
        sound_extents(exts),
{
}

/// A byte of the file is the byte that its extents give it.
proof fn lemma_is_byte(w: World, exts: Seq<ExtentView>, x: int)
    requires
        is_laid_out(exts),
    ensures
        is_byte(w, exts, x, file_byte(w, exts, x)),
{
    let b = file_byte(w, exts, x);
    if exists|i: int| holds_data(exts, i, x) {
        let k = choose|i: int| holds_data(exts, i, x);
        assert(extent_end(exts[k]) == exts[k].file_off + exts[k].len);
        assert(byte_at(w, exts[k], x) == Some(b));
        assert forall|i: int| 0 <= i < exts.len() implies (byte_at(w, #[trigger] exts[i], x)
            matches Some(c) ==> b == c) by {
            if i < k {
                assert(exts[i].file_off + exts[i].len <= exts[k].file_off);
            } else if k < i {
                assert(exts[k].file_off + exts[k].len <= exts[i].file_off);
            }
        }
    } else {
        assert forall|i: int| 0 <= i < exts.len() implies (byte_at(w, #[trigger] exts[i], x)
            matches Some(c) ==> b == c) by {
            assert(!holds_data(exts, i, x));
            assert(extent_end(exts[i]) == exts[i].file_off + exts[i].len);
        }
    }
}

/// A read of a range of a file that can be read comes to its end without a failure, and gives
/// every byte of the file from `start` up to `end` or to the end of the file: of each extent
/// the bytes that it stands for, whatever the length of what it is compressed to, and zeros in
/// between. That is so where the extents of the file are laid out one after another, each of
/// them can be read, and what is asked for on the way is brought.
pub proof fn law_what_can_be_read_is_read(
    w: World,
    f: FsView,
    loc: Loc,
    start: u64,
    end: u64,
    r: ReaderView,
)
    requires
        f.wf(),
        f.sb.sectorsize == w.sectorsize,
        reader_of(f, loc, start, end) == Ok::<ReaderView, StopView>(r),
        is_laid_out(r.exts),
        forall|i: int| 0 <= i < r.exts.len() ==> is_readable(w, f, #[trigger] r.exts[i]),
    ensures
        inode_at(f, loc) is Ok,
        extents_at(f, loc) == Ok::<Seq<ExtentView>, StopView>(r.exts),
        exists|n: nat|
            {
                let size = (inode_at(f, loc)->Ok_0).size;
                let out = output(w, f, r, n);
                &&& #[trigger] runs_well(w, f, r, n)
                &&& stepped(f, after(w, f, r, n)).step is Done
                &&& start < end && start < size ==> out.len() == (if end < size {
                    end
                } else {
                    size
                }) - start
                &&& start >= end || start >= size ==> out.len() == 0
                &&& forall|i: int|
                    0 <= i < out.len() ==> is_byte(w, r.exts, start + i, #[trigger] out[i])
            },
{
    lemma_laid_out(r.exts);
    lemma_starts_true(w, f, loc, start, end, r);
    assert(is_well(w, f, r)) by {
        reveal(is_well);
    }
    let n = lemma_ends(w, f, r);
    let out = output(w, f, r, n);
    assert(runs_well(w, f, r, n));
    assert forall|i: int| 0 <= i < out.len() implies is_byte(w, r.exts, start + i, #[trigger] out[i]) by {
        lemma_is_byte(w, r.exts, start + i);
    }
}

/// A file can be read wherever its inode and its extents can be told, and nowhere else.
pub proof fn law_files_can_be_opened(f: FsView, loc: Loc, start: u64, end: u64)
    ensures
        reader_of(f, loc, start, end) is Ok <==> inode_at(f, loc) is Ok && extents_at(f, loc) is Ok,
        inode_at(f, loc) is Err ==> reader_of(f, loc, start, end) == Err::<ReaderView, StopView>(
            inode_at(f, loc)->Err_0,
        ),
{
}

/// What was never written is not handed out as data, so that a hole can stay one: data comes only
/// from an inline extent or from one that has a place on disk, and only where that extent lies.
pub proof fn law_holes_are_not_data(f: FsView, r: ReaderView, piece: Seq<u8>, x: int)
    requires
        on_course(r),
        stepped(f, r).step == StepView::Piece(PieceView::Data(piece)),
        r.pos <= x < stepped(f, r).reader.pos,
    ensures
        ({
            let e = r.exts[r.idx];
            &&& e.file_off <= x < e.file_off + e.len
            &&& match e.kind {
                ExtentKindView::Inline(_) => true,
                ExtentKindView::Regular { disk_bytenr, .. } => disk_bytenr != 0,
                ExtentKindView::Prealloc => false,
            }
        }),
{
}

/// A compressed extent that does not decode fails the read, with what was wrong with it; nothing
/// is handed out for it.
pub proof fn law_corrupt_extents_fail(
    w: World,
    f: FsView,
    r: ReaderView,
    raw: Seq<u8>,
    segments: Seq<SegmentView>,
    x: ErrorView,
)
    requires
        f.sb.sectorsize == w.sectorsize,
        r.stage matches StageView::Load { fetch, segments: s } && fetch.data == Some(raw) && s
            == segments,
        unpacked_with(
            w,
            r.exts[r.idx].compression,
            raw,
            r.exts[r.idx].ram_bytes as int,
            segments,
        ) == Err::<Seq<u8>, HaltView>(HaltView::Error(x)),
    ensures
        stepped(f, r).step == StepView::Failed(x),
{
}

/// An extent that refers to more than was decoded fails the read.
pub proof fn law_references_stay_inside(f: FsView, r: ReaderView, data: Seq<u8>, skip: int)
    requires
        on_course(r),
        r.stage == (StageView::Emit { source: SourceView::Plain { data, skip } }),
        r.exts[r.idx].kind is Regular,
        r.exts[r.idx].file_off <= r.pos < r.end,
        r.pos < r.exts[r.idx].file_off + r.exts[r.idx].len,
        r.exts[r.idx].file_off + r.exts[r.idx].len <= u64::MAX,
        skip + r.pos - r.exts[r.idx].file_off >= data.len(),
    ensures
        stepped(f, r).step is Failed,
{
}

/// File data is asked for from the first of its mirrors first, as tree blocks are.
pub proof fn law_data_is_asked_of_the_first_mirror(f: FsView, r: ReaderView)
    requires
        (r.stage is Emit && stepped(f, r).reader.stage is Read) || (r.stage is Choose && stepped(
            f,
            r,
        ).reader.stage is Load),
    ensures
        stepped(f, stepped(f, r).reader).step matches StepView::Read(req) ==> (f.mirrors(
            req.logical,
            req.len,
        ) matches Ok(places) && req.devid == places[0].0 && req.phys == places[0].1),
{
}

} // verus!
