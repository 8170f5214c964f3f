//! Reading a range of a file, piece by piece.
//!
//! A [`RangeReader`] is driven from outside: each [`RangeReader::step`] hands out the next
//! piece, or says what must be done before there is one.

use vstd::prelude::*;
use vstd::slice::*;

use crate::decompress::{
    decoded, decompress, decompressed, lemma_segment_in_bounds, Halt, HaltView, Segment,
    SegmentView,
};
use crate::disk::{cut, Extent, ExtentKind, ExtentKindView, ExtentView};
use crate::error::{because, plain, Error, ErrorKind, ErrorView};
use crate::fs::{Fs, FsView, Request, Stop, StopView};
use crate::lookup::{extents_at, inode_at, Loc};
use crate::model::{lemma_views_push, views};

verus! {

/// Data is handed out in pieces of at most this size.
pub const MAX_PIECE: u64 = 0x10_0000;

/// A compressed extent past this size, on disk or decompressed, is corrupt.
pub const MAX_EXTENT: u64 = 0x4000_0000;

/// The kernel caps a symlink's target at this size.
pub const MAX_SYMLINK: u64 = 4096;

/// A part of a file: its bytes, or a run of zeros, so that a file sink can stay sparse.
pub enum Piece {
    Data(Vec<u8>),
    Zeros(u64),
}

#[verifier::ext_equal]
pub enum PieceView {
    Data(Seq<u8>),
    Zeros(int),
}

impl View for Piece {
    type V = PieceView;

    open spec fn view(&self) -> PieceView {
        match self {
            Piece::Data(b) => PieceView::Data(b@),
            Piece::Zeros(n) => PieceView::Zeros(*n as int),
        }
    }
}

/// The bytes that a piece stands for.
pub open spec fn piece_bytes(p: PieceView) -> Seq<u8> {
    match p {
        PieceView::Data(b) => b,
        PieceView::Zeros(n) => Seq::new(n as nat, |i: int| 0u8),
    }
}

/// Appends the bytes of a piece.
pub fn gather(out: &mut Vec<u8>, piece: Piece)
    requires
        old(out)@.len() + piece_bytes(piece@).len() <= usize::MAX,
    ensures
        final(out)@ == old(out)@ + piece_bytes(piece@),
{
    let ghost before = out@;
    match piece {
        Piece::Data(b) => {
            out.extend_from_slice(b.as_slice());
            assert(out@ =~= before + b@);
        },
        Piece::Zeros(n) => {
            let len: usize = out.len() + n as usize;
            out.resize(len, 0);
            assert(out@ =~= before + piece_bytes(PieceView::Zeros(n as int)));
        },
    }
}

/// Where the bytes of the extent being handed out come from.
enum Source {
    Zeros,
    /// Bytes at hand, from `skip` on.
    Plain { data: Vec<u8>, skip: u64 },
    /// Bytes on disk, from the logical address `base` on.
    Disk { base: u64 },
}

#[verifier::ext_equal]
pub enum SourceView {
    Zeros,
    Plain { data: Seq<u8>, skip: int },
    Disk { base: int },
}

impl View for Source {
    type V = SourceView;

    closed spec fn view(&self) -> SourceView {
        match self {
            Source::Zeros => SourceView::Zeros,
            Source::Plain { data, skip } => SourceView::Plain { data: data@, skip: *skip as int },
            Source::Disk { base } => SourceView::Disk { base: *base as int },
        }
    }
}

/// A read of file data under way: the mirrors tried in vain, the last failure, the bytes.
struct Fetch {
    tried: usize,
    last: Option<Error>,
    data: Option<Vec<u8>>,
}

#[verifier::ext_equal]
pub struct FetchView {
    pub tried: int,
    pub last: Option<ErrorView>,
    pub data: Option<Seq<u8>>,
}

impl View for Fetch {
    type V = FetchView;

    closed spec fn view(&self) -> FetchView {
        FetchView {
            tried: self.tried as int,
            last: match self.last {
                Some(e) => Some(e@),
                None => None,
            },
            data: match self.data {
                Some(b) => Some(b@),
                None => None,
            },
        }
    }
}

/// A read that has not begun.
pub open spec fn unread() -> FetchView {
    FetchView { tried: 0, last: None, data: None }
}

/// What a reader is doing.
enum Stage {
    /// Looking for the next extent.
    Choose,
    /// Getting the data of a compressed extent.
    Load { fetch: Fetch, segments: Vec<Segment> },
    /// Handing out an extent.
    Emit { source: Source },
    /// Reading a piece of an extent from disk.
    Read { base: u64, fetch: Fetch },
}

#[verifier::ext_equal]
pub enum StageView {
    Choose,
    Load { fetch: FetchView, segments: Seq<SegmentView> },
    Emit { source: SourceView },
    Read { base: int, fetch: FetchView },
}

impl View for Stage {
    type V = StageView;

    closed spec fn view(&self) -> StageView {
        match self {
            Stage::Choose => StageView::Choose,
            Stage::Load { fetch, segments } => StageView::Load {
                fetch: fetch@,
                segments: views(segments@),
            },
            Stage::Emit { source } => StageView::Emit { source: source@ },
            Stage::Read { base, fetch } => StageView::Read { base: *base as int, fetch: fetch@ },
        }
    }
}

/// A compressed extent on disk, by all that its data depends on.
#[derive(Clone, Copy, Debug, PartialEq, Eq, Structural)]
pub struct Packed {
    pub bytenr: u64,
    pub num_bytes: u64,
    pub compression: u8,
    pub ram_bytes: u64,
}

/// A read of part of a file under way.
pub struct RangeReader {
    exts: Vec<Extent>,
    idx: usize,
    pos: u64,
    end: u64,
    stage: Stage,
    /// The last decompressed extent; reflinks and overwrites reference one extent many times.
    last: Option<(Packed, Vec<u8>)>,
}

#[verifier::ext_equal]
pub struct ReaderView {
    /// The extents of the file, in the order of its tree.
    pub exts: Seq<ExtentView>,
    /// The extent that is being handed out, or the first to look at next.
    pub idx: int,
    /// Everything before this offset has been handed out.
    pub pos: int,
    /// Where the range ends.
    pub end: int,
    pub stage: StageView,
    /// The last decompressed extent and its data.
    pub last: Option<(Packed, Seq<u8>)>,
}

impl View for RangeReader {
    type V = ReaderView;

    closed spec fn view(&self) -> ReaderView {
        ReaderView {
            exts: views(self.exts@),
            idx: self.idx as int,
            pos: self.pos as int,
            end: self.end as int,
            stage: self.stage@,
            last: match self.last {
                Some((key, data)) => Some((key, data@)),
                None => None,
            },
        }
    }
}

/// What a step of a reader comes to.
pub enum Step {
    /// Nothing to hand out yet; step on.
    Again,
    /// The next bytes of the file.
    Piece(Piece),
    /// A read is needed; its reply goes to [`RangeReader::supply`].
    Read(Request),
    /// An LZO1X segment is to be decoded; the result goes to [`RangeReader::decoded`].
    Segment(Vec<u8>),
    /// A zstd stream is to be decoded, up to `limit` bytes of it; the result goes to
    /// [`RangeReader::decoded`].
    Stream { bytes: Vec<u8>, limit: u64 },
    /// The range has been handed out.
    Done,
    Failed(Error),
}

#[verifier::ext_equal]
pub enum StepView {
    Again,
    Piece(PieceView),
    Read(Request),
    Segment(Seq<u8>),
    Stream { bytes: Seq<u8>, limit: int },
    Done,
    Failed(ErrorView),
}

impl View for Step {
    type V = StepView;

    open spec fn view(&self) -> StepView {
        match self {
            Step::Again => StepView::Again,
            Step::Piece(p) => StepView::Piece(p@),
            Step::Read(r) => StepView::Read(*r),
            Step::Segment(b) => StepView::Segment(b@),
            Step::Stream { bytes, limit } => StepView::Stream {
                bytes: bytes@,
                limit: *limit as int,
            },
            Step::Done => StepView::Done,
            Step::Failed(e) => StepView::Failed(e@),
        }
    }
}

/// A step, and the reader after it.
#[verifier::ext_equal]
pub struct Stepped {
    pub step: StepView,
    pub reader: ReaderView,
}

/// The file offset at which an extent ends.
pub open spec fn extent_end(e: ExtentView) -> int {
    if e.file_off + e.len > u64::MAX {
        u64::MAX as int
    } else {
        e.file_off + e.len
    }
}

/// An extent that reads as zeros.
pub open spec fn is_hole(e: ExtentView) -> bool {
    match e.kind {
        ExtentKindView::Prealloc => true,
        ExtentKindView::Regular { disk_bytenr, .. } => disk_bytenr == 0,
        ExtentKindView::Inline(_) => false,
    }
}

/// The first extent from `i` on that reaches past `pos`, before any that starts at or past
/// the end of the range.
pub open spec fn next_extent(exts: Seq<ExtentView>, i: int, pos: int, end: int) -> Option<int>
    decreases exts.len() - i,
{
    if pos >= end || i >= exts.len() || i < 0 || exts[i].file_off >= end {
        None
    } else if extent_end(exts[i]) <= pos {
        next_extent(exts, i + 1, pos, end)
    } else {
        Some(i)
    }
}

/// All that the data of a compressed extent on disk depends on.
pub open spec fn packed_of(e: ExtentView) -> Option<Packed> {
    match e.kind {
        ExtentKindView::Regular { disk_bytenr, disk_num_bytes, .. } => Some(
            Packed {
                bytenr: disk_bytenr,
                num_bytes: disk_num_bytes,
                compression: e.compression,
                ram_bytes: e.ram_bytes,
            },
        ),
        _ => None,
    }
}

/// The data of the extent, where it is the one that was decompressed last.
pub open spec fn recalled(last: Option<(Packed, Seq<u8>)>, e: ExtentView) -> Option<Seq<u8>> {
    match last {
        Some((key, data)) if packed_of(e) == Some(key) => Some(data),
        _ => None,
    }
}

/// How an extent is begun: what it is handed out from, the reading that must come first,
/// or an error.
pub open spec fn entered(
    f: FsView,
    last: Option<(Packed, Seq<u8>)>,
    e: ExtentView,
) -> Result<StageView, ErrorView> {
    if is_hole(e) {
        Ok(StageView::Emit { source: SourceView::Zeros })
    } else {
        match e.kind {
            ExtentKindView::Inline(raw) => if e.ram_bytes > f.sb.nodesize {
                Err(
                    plain(
                        ErrorKind::InlineTooLarge {
                            ram: e.ram_bytes,
                            nodesize: f.sb.nodesize as u64,
                        },
                    ),
                )
            } else if e.compression == 0 {
                Ok(StageView::Emit { source: SourceView::Plain { data: raw, skip: 0 } })
            } else {
                Ok(
                    StageView::Load {
                        fetch: FetchView { data: Some(raw), ..unread() },
                        segments: seq![],
                    },
                )
            },
            ExtentKindView::Regular { disk_bytenr, disk_num_bytes, offset } => if e.compression
                == 0 {
                if disk_bytenr + offset > u64::MAX {
                    Err(plain(ErrorKind::AddressSum { base: disk_bytenr, offset }))
                } else {
                    Ok(
                        StageView::Emit {
                            source: SourceView::Disk { base: disk_bytenr + offset },
                        },
                    )
                }
            } else if e.ram_bytes > MAX_EXTENT || disk_num_bytes > MAX_EXTENT {
                Err(
                    plain(ErrorKind::ImplausibleExtent { disk: disk_num_bytes, ram: e.ram_bytes }),
                )
            } else if recalled(last, e) is Some {
                Ok(
                    StageView::Emit {
                        source: SourceView::Plain {
                            data: recalled(last, e)->0,
                            skip: offset as int,
                        },
                    },
                )
            } else {
                Ok(StageView::Load { fetch: unread(), segments: seq![] })
            },
            ExtentKindView::Prealloc => Ok(StageView::Emit { source: SourceView::Zeros }),
        }
    }
}

/// The next mirror to read `len` bytes at `logical` from. When all fail the last failure
/// counts.
pub open spec fn next_place(f: FsView, logical: int, len: int, fetch: FetchView) -> StepView {
    match f.mirrors(logical as u64, len as u64) {
        Err(e) => StepView::Failed(e),
        Ok(places) => if fetch.last is Some && fetch.tried >= places.len() {
            StepView::Failed(fetch.last->0)
        } else {
            let (devid, phys) = places[fetch.tried];
            StepView::Read(
                Request { logical: logical as u64, devid, phys, len: len as u64 },
            )
        },
    }
}

/// Where the extent being handed out ends, as far as the range goes. An inline extent ends
/// with its data.
pub open spec fn emit_end(r: ReaderView, source: SourceView) -> int {
    let e = r.exts[r.idx];
    let to = match (e.kind, source) {
        (ExtentKindView::Inline(_), SourceView::Plain { data, .. }) => e.file_off + data.len(),
        _ => extent_end(e),
    };
    if to < r.end {
        to
    } else {
        r.end
    }
}

/// The size of the next piece before `to`.
pub open spec fn piece_len(pos: int, to: int) -> int {
    if to - pos < MAX_PIECE {
        to - pos
    } else {
        MAX_PIECE as int
    }
}

pub open spec fn now(step: StepView, r: ReaderView) -> Stepped {
    Stepped { step, reader: r }
}

/// A step while the data of a compressed extent is being got.
pub open spec fn load_step(
    f: FsView,
    r: ReaderView,
    fetch: FetchView,
    segments: Seq<SegmentView>,
) -> Stepped {
    let e = r.exts[r.idx];
    match (fetch.data, e.kind) {
        (None, ExtentKindView::Regular { disk_bytenr, disk_num_bytes, .. }) => now(
            next_place(f, disk_bytenr as int, disk_num_bytes as int, fetch),
            r,
        ),
        (None, _) => now(StepView::Again, r),
        (Some(raw), kind) => match decompressed(
            e.compression,
            raw,
            e.ram_bytes as int,
            f.sb.sectorsize as int,
            decoded(raw, e.ram_bytes as int, segments),
        ) {
            Err(HaltView::Error(x)) => now(StepView::Failed(x), r),
            Err(HaltView::Segment { from, to }) => now(
            StepView::Segment(raw.subrange(from, to)),
                r,
            ),
            Err(HaltView::Stream { limit }) => now(StepView::Stream { bytes: raw, limit }, r),
            Ok(data) => match kind {
                ExtentKindView::Regular { offset, .. } => now(
                    StepView::Again,
                    ReaderView {
                        stage: StageView::Emit {
                            source: SourceView::Plain { data, skip: offset as int },
                        },
                        last: Some((packed_of(e)->0, data)),
                        ..r
                    },
                ),
                _ => now(
            StepView::Again,
                    ReaderView {
                        stage: StageView::Emit { source: SourceView::Plain { data, skip: 0 } },
                        ..r
                    },
                ),
            },
        },
    }
}

/// A step while an extent is being handed out: first the gap before it, as zeros, then the
/// extent.
pub open spec fn emit_step(r: ReaderView, source: SourceView) -> Stepped {
    let from = r.exts[r.idx].file_off as int;
    let to = emit_end(r, source);
    let n = piece_len(r.pos, to);
    let next = ReaderView { idx: r.idx + 1, stage: StageView::Choose, ..r };
    if from >= to || r.pos >= to {
        now(StepView::Again, next)
    } else if r.pos < from {
        now(
            StepView::Piece(PieceView::Zeros(from - r.pos)),
            ReaderView { pos: from, ..r },
        )
    } else {
        match source {
            SourceView::Zeros => now(
            StepView::Piece(PieceView::Zeros(to - r.pos)),
                ReaderView { pos: to, ..next },
            ),
            SourceView::Plain { data, skip } => {
                let s = skip + (r.pos - from);
                if s + n > data.len() {
                    now(StepView::Failed(plain(ErrorKind::OutsideExtent)), r)
                } else {
                    now(
            StepView::Piece(PieceView::Data(data.subrange(s, s + n))),
                        ReaderView { pos: r.pos + n, ..r },
                    )
                }
            },
            SourceView::Disk { base } => if base + (r.pos - from) > u64::MAX {
                now(StepView::Failed(plain(ErrorKind::AddressOverflow)), r)
            } else {
                now(
            StepView::Again,
                    ReaderView { stage: StageView::Read { base, fetch: unread() }, ..r },
                )
            },
        }
    }
}

/// One step of a reader.
pub open spec fn stepped(f: FsView, r: ReaderView) -> Stepped {
    match r.stage {
        StageView::Choose => match next_extent(r.exts, r.idx, r.pos, r.end) {
            None => if r.pos < r.end {
                now(
            StepView::Piece(PieceView::Zeros(r.end - r.pos)),
                    ReaderView { pos: r.end, ..r },
                )
            } else {
                now(StepView::Done, r)
            },
            Some(i) => match entered(f, r.last, r.exts[i]) {
                Err(e) => now(StepView::Failed(e), ReaderView { idx: i, ..r }),
                Ok(stage) => now(StepView::Again, ReaderView { idx: i, stage, ..r }),
            },
        },
        StageView::Load { fetch, segments } => load_step(f, r, fetch, segments),
        StageView::Emit { source } => emit_step(r, source),
        StageView::Read { base, fetch } => {
            let source = SourceView::Disk { base };
            let n = piece_len(r.pos, emit_end(r, source));
            match fetch.data {
                Some(data) => now(
            StepView::Piece(PieceView::Data(data)),
                    ReaderView { pos: r.pos + n, stage: StageView::Emit { source }, ..r },
                ),
                None => now(
            next_place(f, base + (r.pos - r.exts[r.idx].file_off), n, fetch),
                    r,
                ),
            }
        },
    }
}

/// A read after a reply: the bytes where as many came as were asked for, or one mirror
/// fewer.
pub open spec fn answered(
    fetch: FetchView,
    len: int,
    reply: Result<Seq<u8>, Seq<char>>,
) -> FetchView {
    match reply {
        Ok(b) if b.len() == len => FetchView { data: Some(b), ..fetch },
        Ok(b) => FetchView { tried: fetch.tried + 1, last: Some(cut(b, 0, len)), ..fetch },
        Err(m) => FetchView {
            tried: fetch.tried + 1,
            last: Some(because(ErrorKind::Host, m)),
            ..fetch
        },
    }
}

/// The reader after the reply to the read `req`. A reply to anything but the read that is
/// waited for changes nothing.
pub open spec fn supplied(
    f: FsView,
    r: ReaderView,
    req: Request,
    reply: Result<Seq<u8>, Seq<char>>,
) -> ReaderView {
    if stepped(f, r).step != StepView::Read(req) {
        r
    } else {
        match r.stage {
            StageView::Load { fetch, segments } => ReaderView {
                stage: StageView::Load {
                    fetch: answered(fetch, req.len as int, reply),
                    segments,
                },
                ..r
            },
            StageView::Read { base, fetch } => ReaderView {
                stage: StageView::Read { base, fetch: answered(fetch, req.len as int, reply) },
                ..r
            },
            _ => r,
        }
    }
}

/// The reader after what it asked for was decoded.
pub open spec fn with_segment(r: ReaderView, s: SegmentView) -> ReaderView {
    match r.stage {
        StageView::Load { fetch, segments } if fetch.data is Some => ReaderView {
            stage: StageView::Load { fetch, segments: segments.push(s) },
            ..r
        },
        _ => r,
    }
}

impl ReaderView {
    /// What holds of every reader.
    pub open spec fn wf(self) -> bool {
        &&& 0 <= self.idx <= self.exts.len()
        &&& 0 <= self.pos <= u64::MAX
        &&& 0 <= self.end <= u64::MAX
        &&& match self.stage {
            StageView::Choose => true,
            StageView::Load { fetch, segments } => {
                let e = self.exts[self.idx];
                &&& self.idx < self.exts.len()
                &&& !is_hole(e)
                &&& e.ram_bytes <= MAX_EXTENT
                &&& match e.kind {
                    ExtentKindView::Inline(_) => fetch.data is Some,
                    ExtentKindView::Regular { disk_num_bytes, .. } => disk_num_bytes <= MAX_EXTENT,
                    ExtentKindView::Prealloc => false,
                }
                &&& fetch.last is None ==> fetch.tried == 0
            },
            StageView::Emit { source } => {
                let e = self.exts[self.idx];
                &&& self.idx < self.exts.len()
                &&& source matches SourceView::Disk { .. } ==> e.kind is Regular
                &&& source matches SourceView::Plain { skip, .. } ==> skip >= 0
            },
            StageView::Read { base, fetch } => {
                let e = self.exts[self.idx];
                &&& self.idx < self.exts.len()
                &&& e.kind is Regular
                &&& e.file_off <= self.pos < emit_end(self, SourceView::Disk { base })
                &&& base + (self.pos - e.file_off) <= u64::MAX
                &&& fetch.last is None ==> fetch.tried == 0
                &&& fetch.data matches Some(b) ==> b.len() == piece_len(
                    self.pos,
                    emit_end(self, SourceView::Disk { base }),
                )
            },
        }
    }
}

/// The reader at the start of `[start, end)` of the file at `loc`, clamped to its size.
pub open spec fn reader_of(f: FsView, loc: Loc, start: u64, end: u64) -> Result<
    ReaderView,
    StopView,
> {
    match inode_at(f, loc) {
        Err(s) => Err(s),
        Ok(inode) => match extents_at(f, loc) {
            Err(s) => Err(s),
            Ok(exts) => Ok(
                ReaderView {
                    exts,
                    idx: 0,
                    pos: start as int,
                    end: if end < inode.size {
                        end as int
                    } else {
                        inode.size as int
                    },
                    stage: StageView::Choose,
                    last: None,
                },
            ),
        },
    }
}

/// The reader of a symlink's target. Reading it as any file would honour whatever size a
/// corrupt inode claimed.
pub open spec fn target_reader(f: FsView, loc: Loc) -> Result<ReaderView, StopView> {
    match inode_at(f, loc) {
        Err(s) => Err(s),
        Ok(inode) => if inode.size > MAX_SYMLINK {
            Err(StopView::Error(plain(ErrorKind::SymlinkSize { size: inode.size })))
        } else {
            reader_of(f, loc, 0, inode.size)
        },
    }
}

impl Extent {
    /// The file offset at which this extent ends.
    fn end(&self) -> (r: u64)
        ensures
            r == extent_end(self@),
    {
        self.file_off.saturating_add(self.len)
    }
}

/// Whether an extent reads as zeros.
fn hole(e: &Extent) -> (r: bool)
    ensures
        r == is_hole(e@),
{
    match &e.kind {
        ExtentKind::Prealloc => true,
        ExtentKind::Regular { disk_bytenr, .. } => *disk_bytenr == 0,
        ExtentKind::Inline(_) => false,
    }
}

/// All that the data of a compressed extent on disk depends on.
fn packed(e: &Extent) -> (r: Option<Packed>)
    ensures
        r == packed_of(e@),
{
    match &e.kind {
        ExtentKind::Regular { disk_bytenr, disk_num_bytes, .. } => Some(
            Packed {
                bytenr: *disk_bytenr,
                num_bytes: *disk_num_bytes,
                compression: e.compression,
                ram_bytes: e.ram_bytes,
            },
        ),
        _ => None,
    }
}

fn fetch_of(data: Option<Vec<u8>>) -> (f: Fetch)
    ensures
        f@ == (FetchView {
            data: match data {
                Some(b) => Some(b@),
                None => None,
            },
            ..unread()
        }),
{
    Fetch { tried: 0, last: None, data }
}

impl Fs {
    /// Begins the read of `[start, end)` of the file at `loc`, clamped to its size.
    pub fn read_range(&self, loc: Loc, start: u64, end: u64) -> (r: Result<RangeReader, Stop>)
        requires
            self@.wf(),
        ensures
            match r {
                Ok(x) => x@.wf() && reader_of(self@, loc, start, end) == Ok::<
                    ReaderView,
                    StopView,
                >(x@),
                Err(s) => reader_of(self@, loc, start, end) == Err::<ReaderView, StopView>(s@),
            },
    {
        let inode = self.inode(loc)?;
        let exts = self.extents(loc)?;
        let end: u64 = if end < inode.size {
            end
        } else {
            inode.size
        };
        Ok(RangeReader { exts, idx: 0, pos: start, end, stage: Stage::Choose, last: None })
    }

    /// Begins the read of a symlink's target.
    pub fn read_symlink_target(&self, loc: Loc) -> (r: Result<RangeReader, Stop>)
        requires
            self@.wf(),
        ensures
            match r {
                Ok(x) => x@.wf() && target_reader(self@, loc) == Ok::<ReaderView, StopView>(x@),
                Err(s) => target_reader(self@, loc) == Err::<ReaderView, StopView>(s@),
            },
    {
        let inode = self.inode(loc)?;
        if inode.size > MAX_SYMLINK {
            return Err(Stop::Error(Error::plain(ErrorKind::SymlinkSize { size: inode.size })));
        }
        self.read_range(loc, 0, inode.size)
    }

    /// The next mirror to read from, or why there is none.
    fn place(&self, logical: u64, len: u64, fetch: &Fetch) -> (s: Step)
        requires
            self@.wf(),
            fetch@.last is None ==> fetch@.tried == 0,
        ensures
            s@ == next_place(self@, logical as int, len as int, fetch@),
            s is Failed || s is Read,
            s is Read ==> fetch@.tried < usize::MAX,
    {
        let places = match self.mirrors(logical, len) {
            Ok(v) => v,
            Err(e) => {
                return Step::Failed(e);
            },
        };
        assert(places@.len() > 0);
        if fetch.tried >= places.len() {
            if let Some(e) = &fetch.last {
                return Step::Failed(e.copied());
            }
        }
        let (devid, phys) = places[fetch.tried];
        Step::Read(Request { logical, devid, phys, len })
    }

    /// How the extent `e` is begun.
    fn enter(&self, last: &Option<(Packed, Vec<u8>)>, e: &Extent) -> (r: Result<Stage, Error>)
        requires
            self@.wf(),
        ensures
            ({
                let kept = match *last {
                    Some((key, data)) => Some((key, data@)),
                    None => None,
                };
                match r {
                    Ok(s) => entered(self@, kept, e@) == Ok::<StageView, ErrorView>(s@),
                    Err(x) => entered(self@, kept, e@) == Err::<StageView, ErrorView>(x@),
                }
            }),
    {
        if hole(e) {
            return Ok(Stage::Emit { source: Source::Zeros });
        }
        match &e.kind {
            ExtentKind::Inline(raw) => {
                let nodesize: u64 = self.sb().nodesize as u64;
                if e.ram_bytes > nodesize {
                    return Err(
                        Error::plain(ErrorKind::InlineTooLarge { ram: e.ram_bytes, nodesize }),
                    );
                }
                let data = slice_to_vec(raw.as_slice());
                assert(data@ =~= raw@);
                if e.compression == 0 {
                    Ok(Stage::Emit { source: Source::Plain { data, skip: 0 } })
                } else {
                    let segments: Vec<Segment> = Vec::new();
                    assert(views(segments@) =~= seq![]);
                    Ok(Stage::Load { fetch: fetch_of(Some(data)), segments })
                }
            },
            ExtentKind::Regular { disk_bytenr, disk_num_bytes, offset } => {
                if e.compression == 0 {
                    return match (*disk_bytenr).checked_add(*offset) {
                        Some(base) => Ok(Stage::Emit { source: Source::Disk { base } }),
                        None => Err(
                            Error::plain(
                                ErrorKind::AddressSum { base: *disk_bytenr, offset: *offset },
                            ),
                        ),
                    };
                }
                if e.ram_bytes > MAX_EXTENT || *disk_num_bytes > MAX_EXTENT {
                    return Err(
                        Error::plain(
                            ErrorKind::ImplausibleExtent { disk: *disk_num_bytes, ram: e.ram_bytes },
                        ),
                    );
                }
                if let (Some((key, data)), Some(own)) = (last, packed(e)) {
                    if *key == own {
                        let data = slice_to_vec(data.as_slice());
                        assert(data@ =~= (last->0).1@);
                        return Ok(Stage::Emit { source: Source::Plain { data, skip: *offset } });
                    }
                }
                let segments: Vec<Segment> = Vec::new();
                assert(views(segments@) =~= seq![]);
                Ok(Stage::Load { fetch: fetch_of(None), segments })
            },
            ExtentKind::Prealloc => Ok(Stage::Emit { source: Source::Zeros }),
        }
    }
}

/// A read after a reply.
fn answer(fetch: Fetch, len: u64, reply: Result<Vec<u8>, String>) -> (r: Fetch)
    requires
        fetch@.tried < usize::MAX,
    ensures
        r@ == answered(
            fetch@,
            len as int,
            match reply {
                Ok(b) => Ok(b@),
                Err(m) => Err(m@),
            },
        ),
{
    match reply {
        Ok(b) => {
            let have: u64 = b.len() as u64;
            if have == len {
                Fetch { tried: fetch.tried, last: fetch.last, data: Some(b) }
            } else {
                let e = Error::plain(ErrorKind::Truncated { len, off: 0, have });
                Fetch { tried: fetch.tried + 1, last: Some(e), data: fetch.data }
            }
        },
        Err(m) => Fetch {
            tried: fetch.tried + 1,
            last: Some(Error::because(ErrorKind::Host, m)),
            data: fetch.data,
        },
    }
}

impl RangeReader {
    /// The position of the next extent to hand out.
    fn find_extent(&self) -> (r: Option<usize>)
        ensures
            match r {
                Some(i) => next_extent(self@.exts, self@.idx, self@.pos, self@.end) == Some(
                    i as int,
                ) && i < self@.exts.len(),
                None => next_extent(self@.exts, self@.idx, self@.pos, self@.end) is None,
            },
    {
        let mut i: usize = self.idx;
        while i < self.exts.len()
            invariant
                next_extent(self@.exts, self@.idx, self@.pos, self@.end) == next_extent(
                    self@.exts,
                    i as int,
                    self@.pos,
                    self@.end,
                ),
            decreases self.exts@.len() - i,
        {
            let e = &self.exts[i];
            assert(self@.exts[i as int] == e@);
            if self.pos >= self.end || e.file_off >= self.end {
                return None;
            }
            if e.end() > self.pos {
                return Some(i);
            }
            i += 1;
        }
        None
    }

    /// Hands out the next piece, or says what must be done before there is one.
    pub fn step(&mut self, fs: &Fs) -> (s: Step)
        requires
            old(self)@.wf(),
            fs@.wf(),
        ensures
            final(self)@.wf(),
            s@ == stepped(fs@, old(self)@).step,
            final(self)@ == stepped(fs@, old(self)@).reader,
    {
        let mut stage = Stage::Choose;
        core::mem::swap(&mut stage, &mut self.stage);
        match stage {
            Stage::Choose => self.choose_step(fs),
            Stage::Load { fetch, segments } => self.load_step(fs, fetch, segments),
            Stage::Emit { source } => self.emit_step(Ghost(fs@), source),
            Stage::Read { base, fetch } => self.read_step(fs, base, fetch),
        }
    }

    fn choose_step(&mut self, fs: &Fs) -> (s: Step)
        requires
            old(self)@.wf(),
            old(self)@.stage == StageView::Choose,
            fs@.wf(),
        ensures
            final(self)@.wf(),
            s@ == stepped(fs@, old(self)@).step,
            final(self)@ == stepped(fs@, old(self)@).reader,
    {
        match self.find_extent() {
            None => {
                if self.pos < self.end {
                    let n: u64 = self.end - self.pos;
                    self.pos = self.end;
                    Step::Piece(Piece::Zeros(n))
                } else {
                    Step::Done
                }
            },
            Some(i) => {
                self.idx = i;
                assert(self@.exts[i as int] == self.exts@[i as int]@);
                match fs.enter(&self.last, &self.exts[i]) {
                    Ok(stage) => {
                        self.stage = stage;
                        Step::Again
                    },
                    Err(e) => Step::Failed(e),
                }
            },
        }
    }

    fn load_step(&mut self, fs: &Fs, fetch: Fetch, segments: Vec<Segment>) -> (s: Step)
        requires
            (ReaderView {
                stage: StageView::Load { fetch: fetch@, segments: views(segments@) },
                ..old(self)@
            }).wf(),
            fs@.wf(),
        ensures
            ({
                let before = ReaderView {
                    stage: StageView::Load { fetch: fetch@, segments: views(segments@) },
                    ..old(self)@
                };
                &&& final(self)@.wf()
                &&& s@ == stepped(fs@, before).step
                &&& final(self)@ == stepped(fs@, before).reader
            }),
    {
        let e = &self.exts[self.idx];
        assert(self@.exts[self.idx as int] == e@);
        let mut next = Stage::Choose;
        let mut kept: Option<(Packed, Vec<u8>)> = None;
        let step = match &fetch.data {
            None => match &e.kind {
                ExtentKind::Regular { disk_bytenr, disk_num_bytes, .. } => fs.place(
                    *disk_bytenr,
                    *disk_num_bytes,
                    &fetch,
                ),
                _ => Step::Again,
            },
            Some(raw) => {
                let sectorsize: usize = fs.sb().sectorsize as usize;
                match decompress(
                    e.compression,
                    raw.as_slice(),
                    e.ram_bytes as usize,
                    sectorsize,
                    &segments,
                ) {
                    Err(Halt::Error(x)) => Step::Failed(x),
                    Err(Halt::Segment { from, to }) => {
                        proof {
                            lemma_segment_in_bounds(
                                e.compression,
                                raw@,
                                e.ram_bytes as int,
                                sectorsize as int,
                                decoded(raw@, e.ram_bytes as int, views(segments@)),
                            );
                        }
                        let part = slice_subrange(raw.as_slice(), from, to);
                        Step::Segment(slice_to_vec(part))
                    },
                    Err(Halt::Stream { limit }) => {
                        let bytes = slice_to_vec(raw.as_slice());
                        assert(bytes@ =~= raw@);
                        Step::Stream { bytes, limit }
                    },
                    Ok(data) => {
                        let mut skip: u64 = 0;
                        if let ExtentKind::Regular { offset, .. } = &e.kind {
                            let copy = slice_to_vec(data.as_slice());
                            assert(copy@ =~= data@);
                            if let Some(key) = packed(e) {
                                kept = Some((key, copy));
                            }
                            skip = *offset;
                        }
                        next = Stage::Emit { source: Source::Plain { data, skip } };
                        Step::Again
                    },
                }
            },
        };
        if let Stage::Choose = next {
            next = Stage::Load { fetch, segments };
        }
        if kept.is_some() {
            self.last = kept;
        }
        self.stage = next;
        step
    }

    fn emit_step(&mut self, Ghost(f): Ghost<FsView>, source: Source) -> (s: Step)
        requires
            (ReaderView { stage: StageView::Emit { source: source@ }, ..old(self)@ }).wf(),
        ensures
            ({
                let before = ReaderView {
                    stage: StageView::Emit { source: source@ },
                    ..old(self)@
                };
                &&& final(self)@.wf()
                &&& s@ == stepped(f, before).step
                &&& final(self)@ == stepped(f, before).reader
            }),
    {
        let ghost before = ReaderView {
            stage: StageView::Emit { source: source@ },
            ..self@
        };
        assert(self.idx < self.exts.len());
        let e = &self.exts[self.idx];
        assert(before.exts[self.idx as int] == e@);
        let from: u64 = e.file_off;
        let mut to: u64 = e.end();
        if let (ExtentKind::Inline(_), Source::Plain { data, .. }) = (&e.kind, &source) {
            to = from.saturating_add(data.len() as u64);
        }
        if to > self.end {
            to = self.end;
        }
        assert(to == emit_end(before, source@));
        if from >= to || self.pos >= to {
            self.idx = self.idx + 1;
            self.stage = Stage::Choose;
            return Step::Again;
        }
        if self.pos < from {
            let n: u64 = from - self.pos;
            self.pos = from;
            self.stage = Stage::Emit { source };
            return Step::Piece(Piece::Zeros(n));
        }
        let n: u64 = if to - self.pos < MAX_PIECE {
            to - self.pos
        } else {
            MAX_PIECE
        };
        let into: u64 = self.pos - from;
        match source {
            Source::Zeros => {
                let n: u64 = to - self.pos;
                self.pos = to;
                self.idx = self.idx + 1;
                self.stage = Stage::Choose;
                Step::Piece(Piece::Zeros(n))
            },
            Source::Plain { data, skip } => {
                let len: u64 = data.len() as u64;
                if skip > len || into > len - skip || n > len - skip - into {
                    self.stage = Stage::Emit { source: Source::Plain { data, skip } };
                    return Step::Failed(Error::plain(ErrorKind::OutsideExtent));
                }
                let s: usize = (skip + into) as usize;
                let piece = slice_to_vec(slice_subrange(data.as_slice(), s, s + n as usize));
                self.pos = self.pos + n;
                self.stage = Stage::Emit { source: Source::Plain { data, skip } };
                Step::Piece(Piece::Data(piece))
            },
            Source::Disk { base } => match base.checked_add(into) {
                None => {
                    self.stage = Stage::Emit { source: Source::Disk { base } };
                    Step::Failed(Error::plain(ErrorKind::AddressOverflow))
                },
                Some(_) => {
                    self.stage = Stage::Read { base, fetch: fetch_of(None) };
                    Step::Again
                },
            },
        }
    }

    fn read_step(&mut self, fs: &Fs, base: u64, fetch: Fetch) -> (s: Step)
        requires
            (ReaderView {
                stage: StageView::Read { base: base as int, fetch: fetch@ },
                ..old(self)@
            }).wf(),
            fs@.wf(),
        ensures
            ({
                let before = ReaderView {
                    stage: StageView::Read { base: base as int, fetch: fetch@ },
                    ..old(self)@
                };
                &&& final(self)@.wf()
                &&& s@ == stepped(fs@, before).step
                &&& final(self)@ == stepped(fs@, before).reader
            }),
    {
        let e = &self.exts[self.idx];
        assert(self@.exts[self.idx as int] == e@);
        let mut to: u64 = e.end();
        if to > self.end {
            to = self.end;
        }
        let n: u64 = if to - self.pos < MAX_PIECE {
            to - self.pos
        } else {
            MAX_PIECE
        };
        if fetch.data.is_none() {
            let step = fs.place(base + (self.pos - e.file_off), n, &fetch);
            self.stage = Stage::Read { base, fetch };
            return step;
        }
        match fetch.data {
            Some(data) => {
                self.pos = self.pos + n;
                self.stage = Stage::Emit { source: Source::Disk { base } };
                Step::Piece(Piece::Data(data))
            },
            None => Step::Again,
        }
    }

    /// Takes in what came back for the read `req`: the bytes, or what the host said.
    pub fn supply(&mut self, fs: &Fs, req: Request, reply: Result<Vec<u8>, String>)
        requires
            old(self)@.wf(),
            fs@.wf(),
        ensures
            final(self)@.wf(),
            final(self)@ == supplied(
                fs@,
                old(self)@,
                req,
                match reply {
                    Ok(b) => Ok(b@),
                    Err(m) => Err(m@),
                },
            ),
    {
        let mut stage = Stage::Choose;
        core::mem::swap(&mut stage, &mut self.stage);
        match stage {
            Stage::Load { fetch, segments } => {
                let e = &self.exts[self.idx];
                assert(self@.exts[self.idx as int] == e@);
                let mut fetch = fetch;
                if fetch.data.is_none() {
                    if let ExtentKind::Regular { disk_bytenr, disk_num_bytes, .. } = &e.kind {
                        if let Step::Read(asked) = fs.place(*disk_bytenr, *disk_num_bytes, &fetch) {
                            if asked == req {
                                fetch = answer(fetch, req.len, reply);
                            }
                        }
                    }
                }
                self.stage = Stage::Load { fetch, segments };
            },
            Stage::Read { base, fetch } => {
                let e = &self.exts[self.idx];
                assert(self@.exts[self.idx as int] == e@);
                let mut fetch = fetch;
                if fetch.data.is_none() {
                    let mut to: u64 = e.end();
                    if to > self.end {
                        to = self.end;
                    }
                    let n: u64 = if to - self.pos < MAX_PIECE {
                        to - self.pos
                    } else {
                        MAX_PIECE
                    };
                    if let Step::Read(asked) = fs.place(
                        base + (self.pos - e.file_off),
                        n,
                        &fetch,
                    ) {
                        if asked == req {
                            fetch = answer(fetch, req.len, reply);
                        }
                    }
                }
                self.stage = Stage::Read { base, fetch };
            },
            other => {
                self.stage = other;
            },
        }
    }

    /// Takes in what became of the LZO1X segment or the zstd stream that was to be decoded.
    pub fn decoded(&mut self, segment: Segment)
        requires
            old(self)@.wf(),
        ensures
            final(self)@.wf(),
            final(self)@ == with_segment(old(self)@, segment@),
    {
        let mut stage = Stage::Choose;
        core::mem::swap(&mut stage, &mut self.stage);
        match stage {
            Stage::Load { fetch, segments } => {
                let mut segments = segments;
                if fetch.data.is_some() {
                    proof {
                        lemma_views_push(segments@, segment);
                    }
                    segments.push(segment);
                }
                self.stage = Stage::Load { fetch, segments };
            },
            other => {
                self.stage = other;
            },
        }
    }
}

} // verus!
