//! Copying a file or a whole tree out of the filesystem onto the host.
//!
//! Everything here treats the filesystem as hostile. The name of an entry is raw bytes
//! chosen by whoever made the image, so it is turned into a single path component before
//! it becomes part of a destination.
//!
//! A [`Copier`] is driven from outside: each [`Copier::step`] says what is to be done on
//! the host, and [`Copier::told`] takes in what came of it. A destination is a list of
//! components below the one that the user named.

use globset::GlobSet;
use vstd::prelude::*;
use vstd::string::*;
use vstd::utf8::*;

use crate::disk::{
    mode_is_dir, mode_is_file, mode_is_symlink, type_label, Inode,
};
use crate::error::{about, error_text, plain, Error, ErrorKind, ErrorView};
use crate::fs::{Fs, FsView, Request, Stop, StopView};
use crate::glob::{matches_set, set_paths};
use crate::lookup::{
    inode_at, listing_of, placeholder, same_bytes, snapshot_of, Entry, EntryView, Loc,
};
use crate::model::{lemma_views_push, views};
use crate::names::{
    first_free, fold, folded, free_name, host_name, host_name_of, is_free, name_is_free,
    partial_name, partial_of, Host, NameSet,
};
use crate::sort::{law_sorted_form_is_unique, stably_sorted};
use crate::text::{chars_of, debug_text, digits, lossy, number, quoted, string_of, utf8_lossy, Text};

verus! {

/// Directory nesting past this is corruption, not a real tree.
pub const MAX_DEPTH: usize = 256;

/// What the user asked for.
pub struct Options {
    pub exclude: GlobSet,
    pub force: bool,
    pub one_subvolume: bool,
    pub no_snapshots: bool,
    /// A manifest is to be written.
    pub manifest: bool,
    pub host: Host,
}

#[verifier::ext_equal]
pub struct OptionsView {
    pub exclude: Set<Seq<char>>,
    pub force: bool,
    pub one_subvolume: bool,
    pub no_snapshots: bool,
    pub manifest: bool,
    pub host: Host,
}

impl View for Options {
    type V = OptionsView;

    open spec fn view(&self) -> OptionsView {
        OptionsView {
            exclude: set_paths(self.exclude),
            force: self.force,
            one_subvolume: self.one_subvolume,
            no_snapshots: self.no_snapshots,
            manifest: self.manifest,
            host: self.host,
        }
    }
}

/// What a copy came to.
pub struct Report {
    pub files: u64,
    pub dirs: u64,
    pub symlinks: u64,
    pub bytes: u64,
    pub excluded: u64,
    /// Entries that could not be copied. Non-zero means the copy is incomplete, and the
    /// run ends non-zero so that a script never reads it as success.
    pub failures: u64,
    pub warnings: Vec<String>,
}

#[verifier::ext_equal]
pub struct ReportView {
    pub files: u64,
    pub dirs: u64,
    pub symlinks: u64,
    pub bytes: u64,
    pub excluded: u64,
    pub failures: u64,
    pub warnings: Seq<Seq<char>>,
}

impl View for Report {
    type V = ReportView;

    open spec fn view(&self) -> ReportView {
        ReportView {
            files: self.files,
            dirs: self.dirs,
            symlinks: self.symlinks,
            bytes: self.bytes,
            excluded: self.excluded,
            failures: self.failures,
            warnings: views(self.warnings@),
        }
    }
}

/// A count with something added, which stays at the highest number rather than overflow.
pub open spec fn plus(n: u64, more: u64) -> u64 {
    if n + more > u64::MAX {
        u64::MAX
    } else {
        (n + more) as u64
    }
}

/// A report of nothing.
pub open spec fn blank() -> ReportView {
    ReportView {
        files: 0,
        dirs: 0,
        symlinks: 0,
        bytes: 0,
        excluded: 0,
        failures: 0,
        warnings: seq![],
    }
}

impl Default for Report {
    fn default() -> (r: Report)
        ensures
            r@ == blank(),
    {
        let r = Report {
            files: 0,
            dirs: 0,
            symlinks: 0,
            bytes: 0,
            excluded: 0,
            failures: 0,
            warnings: Vec::new(),
        };
        assert(r@ =~= blank());
        r
    }
}

/// How a run ends that has come to this report: a copy from which entries are missing must
/// not look like a whole one.
pub open spec fn verdict_of(r: ReportView) -> Result<(), ErrorView> {
    if r.failures > 0 {
        Err(plain(ErrorKind::Incomplete { failures: r.failures }))
    } else {
        Ok(())
    }
}

impl Report {
    pub fn verdict(&self) -> (r: Result<(), Error>)
        ensures
            match r {
                Ok(_) => verdict_of(self@) is Ok,
                Err(e) => verdict_of(self@) == Err::<(), ErrorView>(e@),
            },
    {
        if self.failures > 0 {
            Err(Error::plain(ErrorKind::Incomplete { failures: self.failures }))
        } else {
            Ok(())
        }
    }
}

/// One thing to copy: where it is, the path that is shown of it, its path below the source,
/// and where it goes.
struct Job {
    loc: Loc,
    src: String,
    rel: String,
    dest: Vec<String>,
    /// The temporary name beside it. It is empty where the destination is the one that the user
    /// named.
    part: String,
}

#[verifier::ext_equal]
pub struct JobView {
    pub loc: Loc,
    pub src: Seq<char>,
    pub rel: Seq<char>,
    pub dest: Seq<Seq<char>>,
    pub part: Seq<char>,
}

impl View for Job {
    type V = JobView;

    closed spec fn view(&self) -> JobView {
        JobView {
            loc: self.loc,
            src: self.src@,
            rel: self.rel@,
            dest: views(self.dest@),
            part: self.part@,
        }
    }
}

/// A directory whose entries are being copied.
struct Frame {
    job: Job,
    inode: Inode,
    entries: Vec<Entry>,
    next: usize,
    /// The names given to entries of it, in the form the host compares them in.
    taken: NameSet,
}

#[verifier::ext_equal]
pub struct FrameView {
    pub job: JobView,
    pub inode: Inode,
    pub entries: Seq<EntryView>,
    pub next: int,
    pub taken: Set<Seq<char>>,
}

impl View for Frame {
    type V = FrameView;

    closed spec fn view(&self) -> FrameView {
        FrameView {
            job: self.job@,
            inode: self.inode,
            entries: views(self.entries@),
            next: self.next as int,
            taken: self.taken@,
        }
    }
}

/// What a copier is at.
enum Phase {
    /// Finding out what the job is.
    Start,
    /// Finding out whether a lone file goes into a directory.
    Into(Inode),
    /// Deciding whether a directory may be entered.
    Enter(Inode),
    /// Finding out what is in the place of a directory.
    LookDir(Inode),
    MakeDir(Inode),
    NoteDir(Inode),
    /// Listing a directory.
    List(Inode),
    /// Taking up the next entry of the directory on top.
    Next,
    /// Making sure that the place of an entry is inside the directory's.
    Confirm(bool),
    /// Deciding whether an entry is left out.
    Sift(bool),
    /// Finding out what is in the place of anything else.
    LookLeaf(Inode),
    Clear(Inode),
    /// Deciding by its kind how a leaf is copied.
    Leaf(Inode),
    /// Finding out what is in the temporary place of a file.
    LookPart(Inode),
    ClearPart(Inode),
    Target(Inode),
    NoteLink(Inode, String),
    Link(String),
    Write(Inode),
    Move(Inode),
    Stamp(Inode),
    NoteFile(Inode),
    StampDir,
    Over(Option<Error>),
}

#[verifier::ext_equal]
pub enum PhaseView {
    Start,
    Into(Inode),
    Enter(Inode),
    LookDir(Inode),
    MakeDir(Inode),
    NoteDir(Inode),
    List(Inode),
    Next,
    Confirm(bool),
    Sift(bool),
    LookLeaf(Inode),
    Clear(Inode),
    Leaf(Inode),
    LookPart(Inode),
    ClearPart(Inode),
    Target(Inode),
    NoteLink(Inode, Seq<char>),
    Link(Seq<char>),
    Write(Inode),
    Move(Inode),
    Stamp(Inode),
    NoteFile(Inode),
    StampDir,
    Over(Option<ErrorView>),
}

impl View for Phase {
    type V = PhaseView;

    closed spec fn view(&self) -> PhaseView {
        match self {
            Phase::Start => PhaseView::Start,
            Phase::Into(i) => PhaseView::Into(*i),
            Phase::Enter(i) => PhaseView::Enter(*i),
            Phase::LookDir(i) => PhaseView::LookDir(*i),
            Phase::MakeDir(i) => PhaseView::MakeDir(*i),
            Phase::NoteDir(i) => PhaseView::NoteDir(*i),
            Phase::List(i) => PhaseView::List(*i),
            Phase::Next => PhaseView::Next,
            Phase::Confirm(b) => PhaseView::Confirm(*b),
            Phase::Sift(b) => PhaseView::Sift(*b),
            Phase::LookLeaf(i) => PhaseView::LookLeaf(*i),
            Phase::Clear(i) => PhaseView::Clear(*i),
            Phase::Leaf(i) => PhaseView::Leaf(*i),
            Phase::LookPart(i) => PhaseView::LookPart(*i),
            Phase::ClearPart(i) => PhaseView::ClearPart(*i),
            Phase::Target(i) => PhaseView::Target(*i),
            Phase::NoteLink(i, t) => PhaseView::NoteLink(*i, t@),
            Phase::Link(t) => PhaseView::Link(t@),
            Phase::Write(i) => PhaseView::Write(*i),
            Phase::Move(i) => PhaseView::Move(*i),
            Phase::Stamp(i) => PhaseView::Stamp(*i),
            Phase::NoteFile(i) => PhaseView::NoteFile(*i),
            Phase::StampDir => PhaseView::StampDir,
            Phase::Over(None) => PhaseView::Over(None),
            Phase::Over(Some(e)) => PhaseView::Over(Some(e@)),
        }
    }
}

/// A copy under way.
pub struct Copier {
    opts: Options,
    report: Report,
    /// The directories being copied, each inside the one below it.
    stack: Vec<Frame>,
    job: Job,
    phase: Phase,
}

#[verifier::ext_equal]
pub struct CopierView {
    pub opts: OptionsView,
    pub report: ReportView,
    pub stack: Seq<FrameView>,
    pub job: JobView,
    pub phase: PhaseView,
}

impl View for Copier {
    type V = CopierView;

    closed spec fn view(&self) -> CopierView {
        CopierView {
            opts: self.opts@,
            report: self.report@,
            stack: views(self.stack@),
            job: self.job@,
            phase: self.phase@,
        }
    }
}

/// One line of the manifest: what the host filesystem cannot hold.
pub struct Line {
    pub path: String,
    pub dest: Vec<String>,
    pub ty: String,
    /// The permission bits, in octal.
    pub mode: String,
    pub uid: u32,
    pub gid: u32,
    pub size: u64,
    pub mtime: i64,
    pub target: Option<String>,
}

#[verifier::ext_equal]
pub struct LineView {
    pub path: Seq<char>,
    pub dest: Seq<Seq<char>>,
    pub ty: Seq<char>,
    pub mode: Seq<char>,
    pub uid: u32,
    pub gid: u32,
    pub size: u64,
    pub mtime: i64,
    pub target: Option<Seq<char>>,
}

impl View for Line {
    type V = LineView;

    open spec fn view(&self) -> LineView {
        LineView {
            path: self.path@,
            dest: views(self.dest@),
            ty: self.ty@,
            mode: self.mode@,
            uid: self.uid,
            gid: self.gid,
            size: self.size,
            mtime: self.mtime,
            target: match self.target {
                Some(t) => Some(t@),
                None => None,
            },
        }
    }
}

/// What is to be done next.
pub enum Action {
    /// Nothing; step on.
    Again,
    /// A read is needed; its reply goes to [`Fs::supply`].
    Read(Request),
    /// Is this a directory, links followed?
    IsDir(Vec<String>),
    /// What is here, links not followed?
    Examine(Vec<String>),
    MakeDir(Vec<String>),
    Remove(Vec<String>),
    /// What is in the temporary place, links not followed? That is the place beside `dest` with
    /// the name `part`, or where `dest` is empty, beside the destination with the name that goes
    /// with it.
    ExaminePart { dest: Vec<String>, part: String },
    /// Remove what is there.
    RemovePart { dest: Vec<String>, part: String },
    /// Is this directly inside the destination without its last component?
    Confirm(Vec<String>),
    /// Read the target of this symlink.
    Target(Loc),
    Symlink { target: String, dest: Vec<String>, src: String },
    /// Write the file into the temporary place, where nothing is; remove it if that fails.
    Write { loc: Loc, dest: Vec<String>, part: String, size: u64, mode: u32 },
    /// Move the finished file into its place.
    Rename { dest: Vec<String>, part: String },
    SetTime { dest: Vec<String>, sec: i64, nsec: u32 },
    Manifest(Line),
    /// The copy is over.
    Finished(Option<Error>),
}

#[verifier::ext_equal]
pub enum ActionView {
    Again,
    Read(Request),
    IsDir(Seq<Seq<char>>),
    Examine(Seq<Seq<char>>),
    MakeDir(Seq<Seq<char>>),
    Remove(Seq<Seq<char>>),
    ExaminePart { dest: Seq<Seq<char>>, part: Seq<char> },
    RemovePart { dest: Seq<Seq<char>>, part: Seq<char> },
    Confirm(Seq<Seq<char>>),
    Target(Loc),
    Symlink { target: Seq<char>, dest: Seq<Seq<char>>, src: Seq<char> },
    Write { loc: Loc, dest: Seq<Seq<char>>, part: Seq<char>, size: u64, mode: u32 },
    Rename { dest: Seq<Seq<char>>, part: Seq<char> },
    SetTime { dest: Seq<Seq<char>>, sec: i64, nsec: u32 },
    Manifest(LineView),
    Finished(Option<ErrorView>),
}

impl View for Action {
    type V = ActionView;

    open spec fn view(&self) -> ActionView {
        match self {
            Action::Again => ActionView::Again,
            Action::Read(r) => ActionView::Read(*r),
            Action::IsDir(d) => ActionView::IsDir(views(d@)),
            Action::Examine(d) => ActionView::Examine(views(d@)),
            Action::MakeDir(d) => ActionView::MakeDir(views(d@)),
            Action::Remove(d) => ActionView::Remove(views(d@)),
            Action::ExaminePart { dest, part } => ActionView::ExaminePart {
                dest: views(dest@),
                part: part@,
            },
            Action::RemovePart { dest, part } => ActionView::RemovePart {
                dest: views(dest@),
                part: part@,
            },
            Action::Confirm(d) => ActionView::Confirm(views(d@)),
            Action::Target(loc) => ActionView::Target(*loc),
            Action::Symlink { target, dest, src } => ActionView::Symlink {
                target: target@,
                dest: views(dest@),
                src: src@,
            },
            Action::Write { loc, dest, part, size, mode } => ActionView::Write {
                loc: *loc,
                dest: views(dest@),
                part: part@,
                size: *size,
                mode: *mode,
            },
            Action::Rename { dest, part } => ActionView::Rename {
                dest: views(dest@),
                part: part@,
            },
            Action::SetTime { dest, sec, nsec } => ActionView::SetTime {
                dest: views(dest@),
                sec: *sec,
                nsec: *nsec,
            },
            Action::Manifest(l) => ActionView::Manifest(l@),
            Action::Finished(None) => ActionView::Finished(None),
            Action::Finished(Some(e)) => ActionView::Finished(Some(e@)),
        }
    }
}

/// What is in a place on the host.
#[derive(Clone, Copy, Debug, PartialEq, Eq, Structural)]
pub enum Thing {
    Nothing,
    Symlink,
    Other,
}

/// What came of an action. `shown` is how the host shows the place, or the directory that
/// a place should be inside of.
pub enum Told {
    Done,
    Failed(Error),
    /// The answer to `IsDir`.
    Yes(bool),
    Found { thing: Thing, shown: String },
    Placed { inside: bool, shown: String },
    Target(Vec<u8>),
}

#[verifier::ext_equal]
pub enum ToldView {
    Done,
    Failed(ErrorView),
    Yes(bool),
    Found { thing: Thing, shown: Seq<char> },
    Placed { inside: bool, shown: Seq<char> },
    Target(Seq<u8>),
}

impl View for Told {
    type V = ToldView;

    open spec fn view(&self) -> ToldView {
        match self {
            Told::Done => ToldView::Done,
            Told::Failed(e) => ToldView::Failed(e@),
            Told::Yes(b) => ToldView::Yes(*b),
            Told::Found { thing, shown } => ToldView::Found { thing: *thing, shown: shown@ },
            Told::Placed { inside, shown } => ToldView::Placed { inside: *inside, shown: shown@ },
            Told::Target(b) => ToldView::Target(b@),
        }
    }
}

/// A text without the slashes at its end.
pub open spec fn unslashed(s: Seq<char>) -> Seq<char>
    decreases s.len(),
{
    if s.len() > 0 && s.last() == '/' {
        unslashed(s.drop_last())
    } else {
        s
    }
}

/// What comes after the last slash of a text.
pub open spec fn last_segment(s: Seq<char>) -> Seq<char>
    decreases s.len(),
{
    if s.len() == 0 || s.last() == '/' {
        seq![]
    } else {
        last_segment(s.drop_last()).push(s.last())
    }
}

/// The entries of `dir` sorted by name.
pub open spec fn sorted_listing(f: FsView, dir: Loc) -> Result<Seq<EntryView>, StopView> {
    match listing_of(f, dir) {
        Err(s) => Err(s),
        Ok(all) => Ok(choose|r: Seq<EntryView>| stably_sorted::<Entry>(all, r)),
    }
}

/// The line of the manifest for the job.
pub open spec fn line_of(job: JobView, i: Inode, target: Option<Seq<char>>) -> LineView {
    LineView {
        path: job.src,
        dest: job.dest,
        ty: type_label(i.mode),
        mode: digits((i.mode & 0xfff) as nat, 8),
        uid: i.uid,
        gid: i.gid,
        size: i.size,
        mtime: i.mtime_sec,
        target,
    }
}

impl CopierView {
    pub open spec fn at(self, phase: PhaseView) -> CopierView {
        CopierView { phase, ..self }
    }

    pub open spec fn warned(self, text: Seq<char>) -> CopierView {
        CopierView {
            report: ReportView { warnings: self.report.warnings.push(text), ..self.report },
            ..self
        }
    }

    pub open spec fn failure(self, text: Seq<char>) -> CopierView {
        CopierView {
            report: ReportView { failures: plus(self.report.failures, 1), ..self.report },
            ..self
        }.warned(text)
    }

    pub open spec fn left_out(self) -> CopierView {
        CopierView {
            report: ReportView { excluded: plus(self.report.excluded, 1), ..self.report },
            ..self
        }
    }

    /// The job is done: on with the directory it is in, or the copy is over.
    pub open spec fn finished(self) -> CopierView {
        if self.stack.len() == 0 {
            self.at(PhaseView::Over(None))
        } else {
            self.at(PhaseView::Next)
        }
    }

    /// The job failed. One unreadable file must not cost the rest of the tree: the failure
    /// is counted and reported. Only where the job is all there is to copy, the copy fails.
    pub open spec fn failed(self, e: ErrorView) -> CopierView {
        if self.stack.len() == 0 {
            self.at(PhaseView::Over(Some(e)))
        } else {
            self.failure(self.job.src + ": "@ + error_text(e)).at(PhaseView::Next)
        }
    }

    /// The job cannot go on without `s`.
    pub open spec fn stopped(self, s: StopView) -> CopyStep {
        match s {
            StopView::Read(r) => CopyStep { action: ActionView::Read(r), copier: self },
            StopView::Error(e) => CopyStep { action: ActionView::Again, copier: self.failed(e) },
        }
    }

    pub open spec fn doing(self, action: ActionView) -> CopyStep {
        CopyStep { action, copier: self }
    }

    /// The next step is the copier's own; it waits for nothing on the host.
    pub open spec fn is_deciding(self) -> bool {
        match self.phase {
            PhaseView::Start | PhaseView::Enter(_) | PhaseView::List(_) | PhaseView::Next => true,
            PhaseView::Sift(_) | PhaseView::Leaf(_) => true,
            PhaseView::NoteDir(_) | PhaseView::NoteLink(_, _) | PhaseView::NoteFile(_) =>
                !self.opts.manifest,
            PhaseView::StampDir => self.stack.len() == 0,
            _ => false,
        }
    }
}

/// A step of a copier: what is to be done, and the copier after it.
#[verifier::ext_equal]
pub struct CopyStep {
    pub action: ActionView,
    pub copier: CopierView,
}

/// Whether an entry is left out: another subvolume where only one is wanted, or a snapshot
/// where none are.
pub open spec fn sifted(f: FsView, o: OptionsView, subvol: bool, loc: Loc, parent: Loc) -> Result<
    bool,
    StopView,
> {
    if !subvol || placeholder(loc) {
        Ok(false)
    } else if o.one_subvolume && loc.tree != parent.tree {
        Ok(true)
    } else if o.no_snapshots {
        snapshot_of(f, loc.tree)
    } else {
        Ok(false)
    }
}

/// The path of an entry below the source.
pub open spec fn child_rel(rel: Seq<char>, name: Seq<char>) -> Seq<char> {
    if rel.len() == 0 {
        name
    } else {
        rel + "/"@ + name
    }
}

/// The temporary name for a file called `name`, among the names `taken`, its own one of them.
pub open spec fn part_name(name: Seq<char>, taken: Set<Seq<char>>, host: Host) -> Option<
    Seq<char>,
> {
    first_free(partial_of(name), taken, host, 0)
}

/// Takes up the next entry of the directory on top: it is excluded by a pattern, or it gets
/// a name on the host that no other entry of the directory has there, and a temporary name that
/// none of those before it has.
#[verifier::opaque]
pub open spec fn next_entry(c: CopierView) -> CopierView {
    let top = c.stack.last();
    let e = top.entries[top.next];
    let name = utf8_lossy(e.name);
    let rel = child_rel(top.job.rel, name);
    let src = top.job.src + "/"@ + name;
    let base = host_name_of(name, c.opts.host);
    let moved = CopierView {
        stack: c.stack.update(c.stack.len() - 1, FrameView { next: top.next + 1, ..top }),
        ..c
    };
    if top.next >= top.entries.len() {
        c.at(PhaseView::StampDir)
    } else if c.opts.exclude.contains(rel) || c.opts.exclude.contains(name) {
        moved.left_out()
    } else {
        match first_free(base, top.taken, c.opts.host, 0) {
            None => moved.failure(src + ": "@ + error_text(plain(ErrorKind::NoFreeName))),
            Some(host) => {
                let renamed = encode_utf8(base) != e.name || !is_free(
                    base,
                    top.taken,
                    c.opts.host,
                );
                let taken = top.taken.insert(folded(host, c.opts.host));
                let placed = CopierView {
                    stack: c.stack.update(
                        c.stack.len() - 1,
                        FrameView { next: top.next + 1, taken, ..top },
                    ),
                    ..c
                };
                let d = if renamed {
                    placed.warned(
                        src + ": written as "@ + debug_text(host)
                            + " (the original name is not representable here)"@,
                    )
                } else {
                    placed
                };
                match part_name(host, taken, c.opts.host) {
                    None => placed.failure(
                        src + ": "@ + error_text(plain(ErrorKind::NoFreeName)),
                    ),
                    Some(part) => CopierView {
                        job: JobView {
                            loc: e.loc,
                            src,
                            rel,
                            dest: top.job.dest.push(host),
                            part,
                        },
                        phase: PhaseView::Confirm(e.subvol),
                        ..d
                    },
                }
            },
        }
    }
}

/// The directory is one of those it is inside of.
pub open spec fn loops(stack: Seq<FrameView>, dir: Loc) -> bool {
    exists|i: int| 0 <= i < stack.len() && (#[trigger] stack[i]).job.loc == dir
}

/// What the job is.
#[verifier::opaque]
pub open spec fn start_step(f: FsView, c: CopierView) -> CopyStep {
    match inode_at(f, c.job.loc) {
        Err(s) => c.stopped(s),
        Ok(i) => if mode_is_dir(i.mode) {
            if c.stack.len() == 0 {
                CopierView {
                    job: JobView { src: unslashed(c.job.src), ..c.job },
                    phase: PhaseView::Enter(i),
                    ..c
                }.doing(ActionView::Again)
            } else {
                c.at(PhaseView::Enter(i)).doing(ActionView::Again)
            }
        } else if c.stack.len() == 0 {
            c.at(PhaseView::Into(i)).doing(ActionView::Again)
        } else {
            c.at(PhaseView::LookLeaf(i)).doing(ActionView::Again)
        },
    }
}

/// The directory is listed, and its entries are next.
#[verifier::opaque]
pub open spec fn list_step(f: FsView, c: CopierView, i: Inode) -> CopyStep {
    match sorted_listing(f, c.job.loc) {
        Err(s) => c.stopped(s),
        Ok(entries) => CopierView {
            stack: c.stack.push(
                FrameView {
                    job: c.job,
                    inode: i,
                    entries,
                    next: 0,
                    taken: Set::empty(),
                },
            ),
            phase: PhaseView::Next,
            ..c
        }.doing(ActionView::Again),
    }
}

/// The entry is left out, or copied.
#[verifier::opaque]
pub open spec fn sift_step(f: FsView, c: CopierView, subvol: bool) -> CopyStep {
    if c.stack.len() == 0 {
        c.at(PhaseView::Start).doing(ActionView::Again)
    } else {
        match sifted(f, c.opts, subvol, c.job.loc, c.stack.last().job.loc) {
            Err(s) => c.stopped(s),
            Ok(true) => c.left_out().at(PhaseView::Next).doing(ActionView::Again),
            Ok(false) => c.at(PhaseView::Start).doing(ActionView::Again),
        }
    }
}

/// How the leaf is copied.
#[verifier::opaque]
pub open spec fn leaf_step(c: CopierView, i: Inode) -> CopyStep {
    if mode_is_symlink(i.mode) {
        c.at(PhaseView::Target(i)).doing(ActionView::Again)
    } else if !mode_is_file(i.mode) {
        c.warned(c.job.src + ": skipped "@ + type_label(i.mode)).finished().doing(
            ActionView::Again,
        )
    } else {
        c.at(PhaseView::LookPart(i)).doing(ActionView::Again)
    }
}

/// One step of a copier.
pub open spec fn copy_step(f: FsView, c: CopierView) -> CopyStep {
    match c.phase {
        PhaseView::Start => start_step(f, c),
        PhaseView::Into(_) => c.doing(ActionView::IsDir(c.job.dest)),
        PhaseView::Enter(i) => if c.stack.len() > MAX_DEPTH {
            c.failed(plain(ErrorKind::CopyTooDeep)).doing(ActionView::Again)
        } else if loops(c.stack, c.job.loc) {
            c.failed(plain(ErrorKind::CopyLoop)).doing(ActionView::Again)
        } else {
            c.at(PhaseView::LookDir(i)).doing(ActionView::Again)
        },
        PhaseView::LookDir(_) => c.doing(ActionView::Examine(c.job.dest)),
        PhaseView::MakeDir(_) => c.doing(ActionView::MakeDir(c.job.dest)),
        PhaseView::NoteDir(i) => if c.opts.manifest {
            c.doing(ActionView::Manifest(line_of(c.job, i, None)))
        } else {
            c.at(PhaseView::List(i)).doing(ActionView::Again)
        },
        PhaseView::List(i) => list_step(f, c, i),
        PhaseView::Next => if c.stack.len() == 0 {
            c.finished().doing(ActionView::Again)
        } else {
            next_entry(c).doing(ActionView::Again)
        },
        PhaseView::Confirm(_) => c.doing(ActionView::Confirm(c.job.dest)),
        PhaseView::Sift(subvol) => sift_step(f, c, subvol),
        PhaseView::LookLeaf(_) => c.doing(ActionView::Examine(c.job.dest)),
        PhaseView::Clear(_) => c.doing(ActionView::Remove(c.job.dest)),
        PhaseView::Leaf(i) => leaf_step(c, i),
        PhaseView::LookPart(_) => c.doing(
            ActionView::ExaminePart { dest: c.job.dest, part: c.job.part },
        ),
        PhaseView::ClearPart(_) => c.doing(
            ActionView::RemovePart { dest: c.job.dest, part: c.job.part },
        ),
        PhaseView::Target(_) => c.doing(ActionView::Target(c.job.loc)),
        PhaseView::NoteLink(i, t) => if c.opts.manifest {
            c.doing(ActionView::Manifest(line_of(c.job, i, Some(t))))
        } else {
            c.at(PhaseView::Link(t)).doing(ActionView::Again)
        },
        PhaseView::Link(t) => c.doing(
            ActionView::Symlink { target: t, dest: c.job.dest, src: c.job.src },
        ),
        PhaseView::Write(i) => c.doing(
            ActionView::Write {
                loc: c.job.loc,
                dest: c.job.dest,
                part: c.job.part,
                size: i.size,
                mode: i.mode,
            },
        ),
        PhaseView::Move(_) => c.doing(
            ActionView::Rename { dest: c.job.dest, part: c.job.part },
        ),
        PhaseView::Stamp(i) => c.doing(
            ActionView::SetTime { dest: c.job.dest, sec: i.mtime_sec, nsec: i.mtime_nsec },
        ),
        PhaseView::NoteFile(i) => if c.opts.manifest {
            c.doing(ActionView::Manifest(line_of(c.job, i, None)))
        } else {
            c.finished().doing(ActionView::Again)
        },
        PhaseView::StampDir => if c.stack.len() == 0 {
            c.finished().doing(ActionView::Again)
        } else {
            let top = c.stack.last();
            c.doing(
                ActionView::SetTime {
                    dest: top.job.dest,
                    sec: top.inode.mtime_sec,
                    nsec: top.inode.mtime_nsec,
                },
            )
        },
        PhaseView::Over(e) => c.doing(ActionView::Finished(e)),
    }
}

/// A copier after it was told what came of an action.
pub open spec fn copy_told(c: CopierView, t: ToldView) -> CopierView {
    match (c.phase, t) {
        (PhaseView::Into(i), ToldView::Yes(into)) => {
            let name = host_name_of(last_segment(c.job.src), c.opts.host);
            CopierView {
                job: if into {
                    JobView { dest: c.job.dest.push(name), part: partial_of(name), ..c.job }
                } else {
                    c.job
                },
                phase: PhaseView::LookLeaf(i),
                ..c
            }
        },
        (PhaseView::LookDir(i), ToldView::Found { thing, shown }) => if thing == Thing::Symlink {
            c.failed(about(ErrorKind::DestSymlink, shown))
        } else {
            c.at(PhaseView::MakeDir(i))
        },
        (PhaseView::MakeDir(i), ToldView::Done) => CopierView {
            report: ReportView { dirs: plus(c.report.dirs, 1), ..c.report },
            phase: PhaseView::NoteDir(i),
            ..c
        },
        (PhaseView::MakeDir(_), ToldView::Failed(e)) => c.failed(e),
        (PhaseView::NoteDir(i), ToldView::Done) => c.at(PhaseView::List(i)),
        (PhaseView::NoteDir(_), ToldView::Failed(e)) => c.failed(e),
        (PhaseView::Confirm(subvol), ToldView::Placed { inside, shown }) => if inside {
            c.at(PhaseView::Sift(subvol))
        } else {
            c.failure(c.job.src + ": refusing to write outside "@ + shown).at(PhaseView::Next)
        },
        (PhaseView::LookLeaf(i), ToldView::Found { thing, shown }) => if thing == Thing::Nothing {
            c.at(PhaseView::Leaf(i))
        } else if !c.opts.force {
            c.failed(about(ErrorKind::DestExists, shown))
        } else {
            c.at(PhaseView::Clear(i))
        },
        (PhaseView::Clear(i), ToldView::Done) => c.at(PhaseView::Leaf(i)),
        (PhaseView::Clear(_), ToldView::Failed(e)) => c.failed(e),
        (PhaseView::LookPart(i), ToldView::Found { thing, shown }) => if thing == Thing::Nothing {
            c.at(PhaseView::Write(i))
        } else if thing == Thing::Symlink && !c.opts.force {
            c.failed(about(ErrorKind::DestExists, shown))
        } else {
            c.at(PhaseView::ClearPart(i))
        },
        (PhaseView::ClearPart(i), ToldView::Done) => c.at(PhaseView::Write(i)),
        (PhaseView::ClearPart(_), ToldView::Failed(e)) => c.failed(e),
        (PhaseView::Target(i), ToldView::Target(b)) => c.at(PhaseView::NoteLink(i, utf8_lossy(b))),
        (PhaseView::Target(_), ToldView::Failed(e)) => c.failed(e),
        (PhaseView::NoteLink(_, t), ToldView::Done) => c.at(PhaseView::Link(t)),
        (PhaseView::NoteLink(_, _), ToldView::Failed(e)) => c.failed(e),
        (PhaseView::Link(_), ToldView::Done) => CopierView {
            report: ReportView { symlinks: plus(c.report.symlinks, 1), ..c.report },
            ..c
        }.finished(),
        (PhaseView::Link(t), ToldView::Failed(e)) => c.warned(
            c.job.src + ": symlink to "@ + debug_text(t) + " not created ("@ + error_text(e)
                + "); it is recorded in the manifest"@,
        ).finished(),
        (PhaseView::Write(i), ToldView::Done) => c.at(PhaseView::Move(i)),
        (PhaseView::Write(_), ToldView::Failed(e)) => c.failed(e),
        (PhaseView::Move(i), ToldView::Done) => c.at(PhaseView::Stamp(i)),
        (PhaseView::Move(_), ToldView::Failed(e)) => c.failed(e),
        (PhaseView::Stamp(i), _) => CopierView {
            report: ReportView {
                files: plus(c.report.files, 1),
                bytes: plus(c.report.bytes, i.size),
                ..c.report
            },
            phase: PhaseView::NoteFile(i),
            ..c
        },
        (PhaseView::NoteFile(_), ToldView::Done) => c.finished(),
        (PhaseView::NoteFile(_), ToldView::Failed(e)) => c.failed(e),
        (PhaseView::StampDir, _) => CopierView {
            stack: if c.stack.len() > 0 {
                c.stack.drop_last()
            } else {
                c.stack
            },
            ..c
        }.finished(),
        _ => c,
    }
}

/// The text without the slashes at its end.
pub(crate) fn unslash(s: &str) -> (r: String)
    ensures
        r@ == unslashed(s@),
{
    let mut all = chars_of(s);
    while all.len() > 0 && all[all.len() - 1] == '/'
        invariant
            unslashed(all@) == unslashed(s@),
        decreases all@.len(),
    {
        let ghost before = all@;
        all.pop();
        assert(all@ =~= before.drop_last());
    }
    string_of(&all)
}

/// What comes after the last slash of a text.
fn after_last_slash(s: &str) -> (r: String)
    ensures
        r@ == last_segment(s@),
{
    let all = chars_of(s);
    let mut i: usize = all.len();
    assert(all@.take(i as int) =~= all@);
    assert(last_segment(all@) + all@.skip(i as int) =~= last_segment(all@));
    while i > 0 && all[i - 1] != '/'
        invariant
            i <= all@.len(),
            last_segment(all@) == last_segment(all@.take(i as int)) + all@.skip(i as int),
        decreases i,
    {
        let ghost part = all@.take(i as int);
        assert(part.drop_last() =~= all@.take(i - 1));
        assert(part.last() == all@[i - 1]);
        assert(last_segment(part.drop_last()).push(part.last()) + all@.skip(i as int)
            =~= last_segment(all@.take(i - 1)) + all@.skip(i - 1));
        i -= 1;
    }
    proof {
        let part = all@.take(i as int);
        assert(last_segment(part) =~= seq![]);
        assert(seq![] + all@.skip(i as int) =~= all@.skip(i as int));
    }
    let mut out: Vec<char> = Vec::new();
    let mut k: usize = i;
    while k < all.len()
        invariant
            i <= k <= all@.len(),
            out@ == all@.subrange(i as int, k as int),
        decreases all@.len() - k,
    {
        out.push(all[k]);
        assert(out@ =~= all@.subrange(i as int, k + 1));
        k += 1;
    }
    assert(out@ =~= all@.skip(i as int));
    string_of(&out)
}

fn copied(v: &Vec<String>) -> (r: Vec<String>)
    ensures
        views(r@) == views(v@),
{
    let mut out: Vec<String> = Vec::new();
    let mut i: usize = 0;
    while i < v.len()
        invariant
            i <= v@.len(),
            views(out@) == views(v@).take(i as int),
        decreases v@.len() - i,
    {
        let text = v[i].clone();
        proof {
            lemma_views_push(out@, text);
        }
        out.push(text);
        assert(views(out@) =~= views(v@).take(i + 1));
        i += 1;
    }
    assert(views(out@) =~= views(v@));
    out
}

fn copied_error(e: &Option<Error>) -> (r: Option<Error>)
    ensures
        match (*e, r) {
            (None, None) => true,
            (Some(a), Some(b)) => a@ == b@,
            _ => false,
        },
{
    match e {
        Some(e) => Some(e.copied()),
        None => None,
    }
}

impl Job {
    fn line(&self, i: Inode, target: Option<String>) -> (l: Line)
        ensures
            l@ == line_of(
                self@,
                i,
                match target {
                    Some(t) => Some(t@),
                    None => None,
                },
            ),
    {
        Line {
            path: self.src.clone(),
            dest: copied(&self.dest),
            ty: i.file_type().to_owned(),
            mode: number((i.mode & 0xfff) as u64, 8),
            uid: i.uid,
            gid: i.gid,
            size: i.size,
            mtime: i.mtime_sec,
            target,
        }
    }
}

impl Frame {
    closed spec fn wf(self) -> bool {
        self.taken.wf() && self.next <= self.entries@.len()
    }
}

impl Copier {
    /// What holds of every copier.
    pub closed spec fn wf(self) -> bool {
        forall|i: int| 0 <= i < self.stack@.len() ==> (#[trigger] self.stack@[i]).wf()
    }

    /// Begins the copy of what is at `src`, shown as `src_path`, to the destination.
    pub fn new(opts: Options, src: Loc, src_path: String) -> (c: Copier)
        ensures
            c.wf(),
            c@ == (CopierView {
                opts: opts@,
                report: blank(),
                stack: seq![],
                job: JobView {
                    loc: src,
                    src: src_path@,
                    rel: seq![],
                    dest: seq![],
                    part: seq![],
                },
                phase: PhaseView::Start,
            }),
    {
        let job = Job {
            loc: src,
            src: src_path,
            rel: String::new(),
            dest: Vec::new(),
            part: String::new(),
        };
        let c = Copier {
            opts,
            report: Report::default(),
            stack: Vec::new(),
            job,
            phase: Phase::Start,
        };
        assert(c@.stack =~= seq![]);
        assert(c@.job.rel =~= seq![]);
        assert(c@.job.dest =~= seq![]);
        assert(c@.job.part =~= seq![]);
        c
    }

    /// What the copy has come to.
    pub fn report(&self) -> (r: &Report)
        ensures
            r@ == self@.report,
    {
        &self.report
    }

    fn warn(&mut self, text: String)
        requires
            old(self).wf(),
        ensures
            final(self).wf(),
            final(self)@ == old(self)@.warned(text@),
    {
        proof {
            lemma_views_push(self.report.warnings@, text);
        }
        self.report.warnings.push(text);
    }

    fn failure(&mut self, text: String)
        requires
            old(self).wf(),
        ensures
            final(self).wf(),
            final(self)@ == old(self)@.failure(text@),
    {
        self.report.failures = self.report.failures.saturating_add(1);
        self.warn(text);
    }

    fn leave_out(&mut self)
        requires
            old(self).wf(),
        ensures
            final(self).wf(),
            final(self)@ == old(self)@.left_out(),
    {
        self.report.excluded = self.report.excluded.saturating_add(1);
    }

    fn finish(&mut self)
        requires
            old(self).wf(),
        ensures
            final(self).wf(),
            final(self)@ == old(self)@.finished(),
    {
        if self.stack.len() == 0 {
            self.phase = Phase::Over(None);
        } else {
            self.phase = Phase::Next;
        }
    }

    fn fail(&mut self, e: Error)
        requires
            old(self).wf(),
        ensures
            final(self).wf(),
            final(self)@ == old(self)@.failed(e@),
    {
        if self.stack.len() == 0 {
            self.phase = Phase::Over(Some(e));
        } else {
            let text = Text::of(self.job.src.as_str()).lit(": ").lit(e.message().as_str()).done();
            self.failure(text);
            self.phase = Phase::Next;
        }
    }

    fn halt(&mut self, s: Stop) -> (a: Action)
        requires
            old(self).wf(),
        ensures
            final(self).wf(),
            a@ == old(self)@.stopped(s@).action,
            final(self)@ == old(self)@.stopped(s@).copier,
    {
        match s {
            Stop::Read(r) => Action::Read(r),
            Stop::Error(e) => {
                self.fail(e);
                Action::Again
            },
        }
    }

    fn in_loop(&self, dir: Loc) -> (r: bool)
        ensures
            r == loops(self@.stack, dir),
    {
        let mut i: usize = 0;
        while i < self.stack.len()
            invariant
                i <= self.stack@.len(),
                forall|k: int| 0 <= k < i ==> (#[trigger] self@.stack[k]).job.loc != dir,
            decreases self.stack@.len() - i,
        {
            assert(self@.stack[i as int] == self.stack@[i as int]@);
            if self.stack[i].job.loc == dir {
                return true;
            }
            i += 1;
        }
        false
    }

    /// Takes up the next entry of the directory on top.
    fn take_next(&mut self)
        requires
            old(self).wf(),
            old(self)@.stack.len() > 0,
        ensures
            final(self).wf(),
            final(self)@ == next_entry(old(self)@),
    {
        reveal(next_entry);
        let ghost before = self@;
        let ghost frames = self.stack@;
        let n: usize = self.stack.len();
        let mut top = match self.stack.pop() {
            Some(f) => f,
            None => {
                return ;
            },
        };
        let ghost old_top = top@;
        assert(frames.last() == top);
        assert(self.stack@ =~= frames.drop_last());
        assert(before.stack.last() == old_top);
        let at: usize = top.next;
        if at >= top.entries.len() {
            self.stack.push(top);
            assert(self.stack@ =~= frames);
            self.phase = Phase::StampDir;
            return ;
        }
        top.next = at + 1;
        let e = &top.entries[at];
        assert(old_top.entries[at as int] == e@);
        let name = e.name_lossy();
        let rel = if top.job.rel.as_str().is_empty() {
            name.clone()
        } else {
            Text::of(top.job.rel.as_str()).lit("/").lit(name.as_str()).done()
        };
        assert(rel@ == child_rel(old_top.job.rel, name@));
        let src = Text::of(top.job.src.as_str()).lit("/").lit(name.as_str()).done();
        if matches_set(&self.opts.exclude, rel.as_str()) || matches_set(
            &self.opts.exclude,
            name.as_str(),
        ) {
            self.stack.push(top);
            assert(self@.stack =~= before.stack.update(
                n - 1,
                FrameView { next: old_top.next + 1, ..old_top },
            ));
            self.leave_out();
            return ;
        }
        let host = self.opts.host;
        let base = host_name(name.as_str(), host);
        let chosen = match free_name(base.as_str(), &top.taken, host) {
            Some(s) => s,
            None => {
                self.stack.push(top);
                assert(self@.stack =~= before.stack.update(
                    n - 1,
                    FrameView { next: old_top.next + 1, ..old_top },
                ));
                let why = Error::plain(ErrorKind::NoFreeName).message();
                self.failure(Text::of(src.as_str()).lit(": ").lit(why.as_str()).done());
                return ;
            },
        };
        let renamed = !same_bytes(base.as_str().as_bytes(), e.name.as_slice())
            || !name_is_free(base.as_str(), &top.taken, host);
        let loc = e.loc;
        let subvol = e.subvol;
        let mut dest = copied(&top.job.dest);
        let last = chosen.clone();
        proof {
            lemma_views_push(dest@, last);
        }
        dest.push(last);
        top.taken.insert(fold(chosen.as_str(), host));
        let part = free_name(partial_name(chosen.as_str()).as_str(), &top.taken, host);
        let ghost new_top = top@;
        self.stack.push(top);
        assert(self@.stack =~= before.stack.update(n - 1, new_top));
        let part = match part {
            Some(x) => x,
            None => {
                let why = Error::plain(ErrorKind::NoFreeName).message();
                self.failure(Text::of(src.as_str()).lit(": ").lit(why.as_str()).done());
                return ;
            },
        };
        if renamed {
            let text = Text::of(src.as_str()).lit(": written as ").lit(
                quoted(chosen.as_str()).as_str(),
            ).lit(" (the original name is not representable here)").done();
            self.warn(text);
        }
        self.job = Job { loc, src, rel, dest, part };
        self.phase = Phase::Confirm(subvol);
    }

    /// What the job is.
    fn start(&mut self, fs: &Fs) -> (a: Action)
        requires
            old(self).wf(),
            fs@.wf(),
        ensures
            final(self).wf(),
            a@ == copy_step(fs@, old(self)@.at(PhaseView::Start)).action,
            final(self)@ == copy_step(fs@, old(self)@.at(PhaseView::Start)).copier,
    {
        reveal(start_step);
        self.phase = Phase::Start;
        let i = match fs.inode(self.job.loc) {
            Ok(i) => i,
            Err(s) => {
                return self.halt(s);
            },
        };
        if i.is_dir() {
            if self.stack.len() == 0 {
                self.job.src = unslash(self.job.src.as_str());
            }
            self.phase = Phase::Enter(i);
        } else if self.stack.len() == 0 {
            self.phase = Phase::Into(i);
        } else {
            self.phase = Phase::LookLeaf(i);
        }
        Action::Again
    }

    /// Whether the directory may be entered.
    fn enter(&mut self, Ghost(f): Ghost<FsView>, i: Inode) -> (a: Action)
        requires
            old(self).wf(),
        ensures
            final(self).wf(),
            a@ == copy_step(f, old(self)@.at(PhaseView::Enter(i))).action,
            final(self)@ == copy_step(f, old(self)@.at(PhaseView::Enter(i))).copier,
    {
        self.phase = Phase::Enter(i);
        if self.stack.len() > MAX_DEPTH {
            self.fail(Error::plain(ErrorKind::CopyTooDeep));
        } else if self.in_loop(self.job.loc) {
            self.fail(Error::plain(ErrorKind::CopyLoop));
        } else {
            self.phase = Phase::LookDir(i);
        }
        Action::Again
    }

    /// Lists the directory.
    fn list(&mut self, fs: &Fs, i: Inode) -> (a: Action)
        requires
            old(self).wf(),
            fs@.wf(),
        ensures
            final(self).wf(),
            a@ == copy_step(fs@, old(self)@.at(PhaseView::List(i))).action,
            final(self)@ == copy_step(fs@, old(self)@.at(PhaseView::List(i))).copier,
    {
        reveal(list_step);
        self.phase = Phase::List(i);
        let ghost before = self@;
        let entries = match fs.readdir(self.job.loc) {
            Ok(v) => v,
            Err(s) => {
                return self.halt(s);
            },
        };
        proof {
            let all = listing_of(fs@, self.job.loc)->Ok_0;
            let r = choose|r: Seq<EntryView>| stably_sorted::<Entry>(all, r);
            law_sorted_form_is_unique::<Entry>(all, r, views(entries@));
        }
        let job = Job {
            loc: self.job.loc,
            src: self.job.src.clone(),
            rel: self.job.rel.clone(),
            dest: copied(&self.job.dest),
            part: self.job.part.clone(),
        };
        let frame = Frame { job, inode: i, entries, next: 0, taken: NameSet::new() };
        proof {
            lemma_views_push(self.stack@, frame);
        }
        self.stack.push(frame);
        self.phase = Phase::Next;
        Action::Again
    }

    /// Whether the entry is left out.
    fn sift(&mut self, fs: &Fs, subvol: bool) -> (a: Action)
        requires
            old(self).wf(),
            fs@.wf(),
        ensures
            final(self).wf(),
            a@ == copy_step(fs@, old(self)@.at(PhaseView::Sift(subvol))).action,
            final(self)@ == copy_step(fs@, old(self)@.at(PhaseView::Sift(subvol))).copier,
    {
        reveal(sift_step);
        self.phase = Phase::Sift(subvol);
        let n: usize = self.stack.len();
        if n == 0 {
            self.phase = Phase::Start;
            return Action::Again;
        }
        assert(self@.stack.last() == self.stack@[n - 1]@);
        let parent = self.stack[n - 1].job.loc;
        let loc = self.job.loc;
        let mut skip = false;
        if subvol && !Fs::is_placeholder(loc) {
            if self.opts.one_subvolume && loc.tree != parent.tree {
                skip = true;
            } else if self.opts.no_snapshots {
                skip = match fs.is_snapshot(loc.tree) {
                    Ok(b) => b,
                    Err(s) => {
                        return self.halt(s);
                    },
                };
            }
        }
        if skip {
            self.leave_out();
            self.phase = Phase::Next;
        } else {
            self.phase = Phase::Start;
        }
        Action::Again
    }

    /// How the leaf is copied.
    fn leaf(&mut self, Ghost(f): Ghost<FsView>, i: Inode) -> (a: Action)
        requires
            old(self).wf(),
        ensures
            final(self).wf(),
            a@ == copy_step(f, old(self)@.at(PhaseView::Leaf(i))).action,
            final(self)@ == copy_step(f, old(self)@.at(PhaseView::Leaf(i))).copier,
    {
        reveal(leaf_step);
        self.phase = Phase::Leaf(i);
        if i.is_symlink() {
            self.phase = Phase::Target(i);
        } else if !i.is_file() {
            let text = Text::of(self.job.src.as_str()).lit(": skipped ").lit(i.file_type()).done();
            self.warn(text);
            self.finish();
        } else {
            self.phase = Phase::LookPart(i);
        }
        Action::Again
    }

    /// What is to be done on the host, where the copier waits for that.
    fn asked(&self, Ghost(f): Ghost<FsView>) -> (a: Option<Action>)
        requires
            self.wf(),
        ensures
            match a {
                Some(x) => copy_step(f, self@) == (CopyStep { action: x@, copier: self@ }),
                None => self@.is_deciding(),
            },
    {
        let dest = copied(&self.job.dest);
        match &self.phase {
            Phase::Into(_) => Some(Action::IsDir(dest)),
            Phase::LookDir(_) => Some(Action::Examine(dest)),
            Phase::MakeDir(_) => Some(Action::MakeDir(dest)),
            Phase::NoteDir(i) => if self.opts.manifest {
                Some(Action::Manifest(self.job.line(*i, None)))
            } else {
                None
            },
            Phase::Confirm(_) => Some(Action::Confirm(dest)),
            Phase::LookLeaf(_) => Some(Action::Examine(dest)),
            Phase::Clear(_) => Some(Action::Remove(dest)),
            Phase::LookPart(_) => Some(
                Action::ExaminePart { dest, part: self.job.part.clone() },
            ),
            Phase::ClearPart(_) => Some(Action::RemovePart { dest, part: self.job.part.clone() }),
            Phase::Target(_) => Some(Action::Target(self.job.loc)),
            Phase::NoteLink(i, t) => if self.opts.manifest {
                Some(Action::Manifest(self.job.line(*i, Some(t.clone()))))
            } else {
                None
            },
            Phase::Link(t) => Some(
                Action::Symlink { target: t.clone(), dest, src: self.job.src.clone() },
            ),
            Phase::Write(i) => Some(
                Action::Write {
                    loc: self.job.loc,
                    dest,
                    part: self.job.part.clone(),
                    size: i.size,
                    mode: i.mode,
                },
            ),
            Phase::Move(_) => Some(Action::Rename { dest, part: self.job.part.clone() }),
            Phase::Stamp(i) => Some(
                Action::SetTime { dest, sec: i.mtime_sec, nsec: i.mtime_nsec },
            ),
            Phase::NoteFile(i) => if self.opts.manifest {
                Some(Action::Manifest(self.job.line(*i, None)))
            } else {
                None
            },
            Phase::StampDir => {
                let n: usize = self.stack.len();
                if n == 0 {
                    return None;
                }
                let top = &self.stack[n - 1];
                assert(self@.stack.last() == top@);
                Some(
                    Action::SetTime {
                        dest: copied(&top.job.dest),
                        sec: top.inode.mtime_sec,
                        nsec: top.inode.mtime_nsec,
                    },
                )
            },
            Phase::Over(e) => Some(Action::Finished(copied_error(e))),
            _ => None,
        }
    }

    /// Says what is to be done next.
    #[verifier::rlimit(40)]
    pub fn step(&mut self, fs: &Fs) -> (a: Action)
        requires
            old(self).wf(),
            fs@.wf(),
        ensures
            final(self).wf(),
            a@ == copy_step(fs@, old(self)@).action,
            final(self)@ == copy_step(fs@, old(self)@).copier,
    {
        if let Some(a) = self.asked(Ghost(fs@)) {
            return a;
        }
        let ghost before = self@;
        let mut phase = Phase::Next;
        core::mem::swap(&mut phase, &mut self.phase);
        assert(before =~= self@.at(phase@));
        match phase {
            Phase::Start => self.start(fs),
            Phase::Enter(i) => self.enter(Ghost(fs@), i),
            Phase::List(i) => self.list(fs, i),
            Phase::Sift(subvol) => self.sift(fs, subvol),
            Phase::Leaf(i) => self.leaf(Ghost(fs@), i),
            Phase::NoteDir(i) => {
                self.phase = Phase::List(i);
                Action::Again
            },
            Phase::NoteLink(_, t) => {
                self.phase = Phase::Link(t);
                Action::Again
            },
            Phase::Next => {
                if self.stack.len() == 0 {
                    self.finish();
                } else {
                    self.take_next();
                }
                Action::Again
            },
            _ => {
                self.finish();
                Action::Again
            },
        }
    }

    /// Takes in what came of the action that was asked for.
    #[verifier::rlimit(40)]
    pub fn told(&mut self, t: Told)
        requires
            old(self).wf(),
        ensures
            final(self).wf(),
            final(self)@ == copy_told(old(self)@, t@),
    {
        let ghost before = self@;
        let mut phase = Phase::Next;
        core::mem::swap(&mut phase, &mut self.phase);
        match (phase, t) {
            (Phase::Into(i), Told::Yes(into)) => {
                if into {
                    let name = after_last_slash(self.job.src.as_str());
                    let last = host_name(name.as_str(), self.opts.host);
                    self.job.part = partial_name(last.as_str());
                    proof {
                        lemma_views_push(self.job.dest@, last);
                    }
                    self.job.dest.push(last);
                }
                self.phase = Phase::LookLeaf(i);
            },
            (Phase::LookDir(i), Told::Found { thing, shown }) => {
                if thing == Thing::Symlink {
                    self.fail(Error::about(ErrorKind::DestSymlink, shown));
                } else {
                    self.phase = Phase::MakeDir(i);
                }
            },
            (Phase::MakeDir(i), Told::Done) => {
                self.report.dirs = self.report.dirs.saturating_add(1);
                self.phase = Phase::NoteDir(i);
            },
            (Phase::MakeDir(_), Told::Failed(e)) => self.fail(e),
            (Phase::NoteDir(i), Told::Done) => {
                self.phase = Phase::List(i);
            },
            (Phase::NoteDir(_), Told::Failed(e)) => self.fail(e),
            (Phase::Confirm(subvol), Told::Placed { inside, shown }) => {
                if inside {
                    self.phase = Phase::Sift(subvol);
                } else {
                    let text = Text::of(self.job.src.as_str()).lit(
                        ": refusing to write outside ",
                    ).lit(shown.as_str()).done();
                    self.failure(text);
                    self.phase = Phase::Next;
                }
            },
            (Phase::LookLeaf(i), Told::Found { thing, shown }) => {
                if thing == Thing::Nothing {
                    self.phase = Phase::Leaf(i);
                } else if !self.opts.force {
                    self.fail(Error::about(ErrorKind::DestExists, shown));
                } else {
                    self.phase = Phase::Clear(i);
                }
            },
            (Phase::Clear(i), Told::Done) => {
                self.phase = Phase::Leaf(i);
            },
            (Phase::Clear(_), Told::Failed(e)) => self.fail(e),
            (Phase::LookPart(i), Told::Found { thing, shown }) => {
                if thing == Thing::Nothing {
                    self.phase = Phase::Write(i);
                } else if thing == Thing::Symlink && !self.opts.force {
                    self.fail(Error::about(ErrorKind::DestExists, shown));
                } else {
                    self.phase = Phase::ClearPart(i);
                }
            },
            (Phase::ClearPart(i), Told::Done) => {
                self.phase = Phase::Write(i);
            },
            (Phase::ClearPart(_), Told::Failed(e)) => self.fail(e),
            (Phase::Target(i), Told::Target(b)) => {
                self.phase = Phase::NoteLink(i, lossy(b.as_slice()));
            },
            (Phase::Target(_), Told::Failed(e)) => self.fail(e),
            (Phase::NoteLink(_, t), Told::Done) => {
                self.phase = Phase::Link(t);
            },
            (Phase::NoteLink(_, _), Told::Failed(e)) => self.fail(e),
            (Phase::Link(_), Told::Done) => {
                self.report.symlinks = self.report.symlinks.saturating_add(1);
                self.finish();
            },
            (Phase::Link(t), Told::Failed(e)) => {
                let text = Text::of(self.job.src.as_str()).lit(": symlink to ").lit(
                    quoted(t.as_str()).as_str(),
                ).lit(" not created (").lit(e.message().as_str()).lit(
                    "); it is recorded in the manifest",
                ).done();
                self.warn(text);
                self.finish();
            },
            (Phase::Write(i), Told::Done) => {
                self.phase = Phase::Move(i);
            },
            (Phase::Write(_), Told::Failed(e)) => self.fail(e),
            (Phase::Move(i), Told::Done) => {
                self.phase = Phase::Stamp(i);
            },
            (Phase::Move(_), Told::Failed(e)) => self.fail(e),
            (Phase::Stamp(i), _) => {
                self.report.files = self.report.files.saturating_add(1);
                self.report.bytes = self.report.bytes.saturating_add(i.size);
                self.phase = Phase::NoteFile(i);
            },
            (Phase::NoteFile(_), Told::Done) => self.finish(),
            (Phase::NoteFile(_), Told::Failed(e)) => self.fail(e),
            (Phase::StampDir, _) => {
                if self.stack.len() > 0 {
                    let ghost frames = self.stack@;
                    self.stack.pop();
                    assert(self@.stack =~= before.stack.drop_last());
                }
                self.finish();
            },
            (other, _) => {
                self.phase = other;
            },
        }
    }
}

} // verus!
