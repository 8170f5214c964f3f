//! Searching a directory tree by name.
//!
//! A [`Finder`] is driven from outside, like a copier: each [`Finder::step`] hands out a
//! path, or a warning, or the read that must come first.

use globset::GlobSet;
use vstd::prelude::*;
use vstd::string::*;

use crate::copy::{sorted_listing, unslash, unslashed};
use crate::disk::{FT_DIR, FT_SYMLINK};
use crate::error::{about, error_text, plain, Error, ErrorKind, ErrorView};
use crate::fs::{Fs, FsView, Request, Stop, StopView};
use crate::glob::{matches_set, set_paths};
use crate::lookup::{listing_of, placeholder, snapshot_of, Entry, EntryView, Loc};
use crate::model::{lemma_views_push, views};
use crate::sort::{law_sorted_form_is_unique, stably_sorted};
use crate::text::{utf8_lossy, Text};

verus! {

/// Nesting past this is corruption, not a real tree.
pub const MAX_FIND_DEPTH: usize = 256;

/// What is searched for.
pub struct FindQuery {
    /// The names meant, where not all are.
    pub name: Option<GlobSet>,
    /// `f`, `d` or `l`, where not all types are meant.
    pub ty: Option<char>,
    pub max_depth: Option<usize>,
    pub one_subvolume: bool,
    pub no_snapshots: bool,
}

#[verifier::ext_equal]
pub struct FindQueryView {
    pub name: Option<Set<Seq<char>>>,
    pub ty: Option<char>,
    pub max_depth: Option<usize>,
    pub one_subvolume: bool,
    pub no_snapshots: bool,
}

impl View for FindQuery {
    type V = FindQueryView;

    open spec fn view(&self) -> FindQueryView {
        FindQueryView {
            name: match self.name {
                Some(g) => Some(set_paths(g)),
                None => None,
            },
            ty: self.ty,
            max_depth: self.max_depth,
            one_subvolume: self.one_subvolume,
            no_snapshots: self.no_snapshots,
        }
    }
}

/// Only files, directories and symlinks can be searched for.
pub open spec fn type_check(ty: Option<char>) -> Result<(), ErrorView> {
    match ty {
        Some(t) if t != 'f' && t != 'd' && t != 'l' => Err(plain(ErrorKind::FindType)),
        _ => Ok(()),
    }
}

pub fn check_type(ty: Option<char>) -> (r: Result<(), Error>)
    ensures
        match r {
            Ok(_) => type_check(ty) is Ok,
            Err(e) => type_check(ty) == Err::<(), ErrorView>(e@),
        },
{
    match ty {
        Some(t) => if t != 'f' && t != 'd' && t != 'l' {
            Err(Error::plain(ErrorKind::FindType))
        } else {
            Ok(())
        },
        None => Ok(()),
    }
}

/// A name below a directory.
pub open spec fn joined(dir: Seq<char>, name: Seq<char>) -> Seq<char> {
    unslashed(dir) + "/"@ + name
}

/// The path of `name` in `dir`.
pub fn join(dir: &str, name: &str) -> (r: String)
    ensures
        r@ == joined(dir@, name@),
{
    Text::of(unslash(dir).as_str()).lit("/").lit(name).done()
}

/// The letter of an entry's type.
pub open spec fn type_letter(ftype: u8) -> char {
    if ftype == FT_DIR {
        'd'
    } else if ftype == FT_SYMLINK {
        'l'
    } else {
        'f'
    }
}

/// The entry is one of those searched for.
pub open spec fn is_meant(q: FindQueryView, ftype: u8, name: Seq<char>) -> bool {
    &&& q.ty matches Some(t) ==> t == type_letter(ftype)
    &&& q.name matches Some(names) ==> names.contains(name)
}

/// A directory whose entries are being searched.
struct Place {
    dir: Loc,
    path: String,
    entries: Vec<Entry>,
    next: usize,
}

#[verifier::ext_equal]
pub struct PlaceView {
    pub dir: Loc,
    pub path: Seq<char>,
    pub entries: Seq<EntryView>,
    pub next: int,
}

impl View for Place {
    type V = PlaceView;

    closed spec fn view(&self) -> PlaceView {
        PlaceView {
            dir: self.dir,
            path: self.path@,
            entries: views(self.entries@),
            next: self.next as int,
        }
    }
}

/// What a finder is at.
enum Mode {
    /// Entering a directory.
    Enter { dir: Loc, path: String },
    /// Taking up the next entry.
    Next,
    /// Deciding whether the entry just taken up is searched too.
    Sift { loc: Loc, subvol: bool, is_dir: bool, path: String },
    Over(Option<Error>),
}

#[verifier::ext_equal]
pub enum ModeView {
    Enter { dir: Loc, path: Seq<char> },
    Next,
    Sift { loc: Loc, subvol: bool, is_dir: bool, path: Seq<char> },
    Over(Option<ErrorView>),
}

impl View for Mode {
    type V = ModeView;

    closed spec fn view(&self) -> ModeView {
        match self {
            Mode::Enter { dir, path } => ModeView::Enter { dir: *dir, path: path@ },
            Mode::Next => ModeView::Next,
            Mode::Sift { loc, subvol, is_dir, path } => ModeView::Sift {
                loc: *loc,
                subvol: *subvol,
                is_dir: *is_dir,
                path: path@,
            },
            Mode::Over(None) => ModeView::Over(None),
            Mode::Over(Some(e)) => ModeView::Over(Some(e@)),
        }
    }
}

/// A search under way.
pub struct Finder {
    query: FindQuery,
    stack: Vec<Place>,
    /// Directories that were given up; they count as parents for good.
    stuck: Vec<Loc>,
    mode: Mode,
}

#[verifier::ext_equal]
pub struct FinderView {
    pub query: FindQueryView,
    pub stack: Seq<PlaceView>,
    pub stuck: Seq<Loc>,
    pub mode: ModeView,
}

impl View for Finder {
    type V = FinderView;

    closed spec fn view(&self) -> FinderView {
        FinderView {
            query: self.query@,
            stack: views(self.stack@),
            stuck: self.stuck@,
            mode: self.mode@,
        }
    }
}

/// What a step of a search comes to.
pub enum Finding {
    /// Nothing yet; step on.
    Again,
    /// A read is needed; its reply goes to [`Fs::supply`].
    Read(Request),
    /// A path that was searched for.
    Found(String),
    /// A directory that could not be searched, and why.
    Warning(String),
    /// The search is over.
    Finished(Option<Error>),
}

#[verifier::ext_equal]
pub enum FindingView {
    Again,
    Read(Request),
    Found(Seq<char>),
    Warning(Seq<char>),
    Finished(Option<ErrorView>),
}

impl View for Finding {
    type V = FindingView;

    open spec fn view(&self) -> FindingView {
        match self {
            Finding::Again => FindingView::Again,
            Finding::Read(r) => FindingView::Read(*r),
            Finding::Found(p) => FindingView::Found(p@),
            Finding::Warning(w) => FindingView::Warning(w@),
            Finding::Finished(None) => FindingView::Finished(None),
            Finding::Finished(Some(e)) => FindingView::Finished(Some(e@)),
        }
    }
}

/// A step of a search: what it hands out, and the finder after it.
#[verifier::ext_equal]
pub struct FindStep {
    pub finding: FindingView,
    pub finder: FinderView,
}

/// The directory is being searched, or was given up.
pub open spec fn is_seen(s: FinderView, dir: Loc) -> bool {
    s.stuck.contains(dir) || exists|i: int|
        0 <= i < s.stack.len() && (#[trigger] s.stack[i]).dir == dir
}

impl FinderView {
    pub open spec fn at(self, mode: ModeView) -> FinderView {
        FinderView { mode, ..self }
    }

    /// A directory is done with.
    pub open spec fn left(self) -> FindStep {
        FindStep {
            finding: FindingView::Again,
            finder: if self.stack.len() == 0 {
                self.at(ModeView::Over(None))
            } else {
                self.at(ModeView::Next)
            },
        }
    }

    /// The directory at `path` cannot be searched. That is worth a warning, unless it is
    /// where the search began.
    pub open spec fn failed(self, path: Seq<char>, e: ErrorView) -> FindStep {
        if self.stack.len() == 0 {
            FindStep { finding: FindingView::Again, finder: self.at(ModeView::Over(Some(e))) }
        } else {
            FindStep {
                finding: FindingView::Warning(path + ": "@ + error_text(e)),
                finder: self.at(ModeView::Next),
            }
        }
    }

    /// A directory is given up.
    pub open spec fn stuck_at(self, dir: Loc) -> FinderView {
        FinderView { stuck: self.stuck.push(dir), ..self }
    }
}

/// Entering a directory: one below the depth that is searched is left at once, and one that
/// contains one of its own parents would never end.
#[verifier::opaque]
pub open spec fn enter_step(f: FsView, s: FinderView, dir: Loc, path: Seq<char>) -> FindStep {
    if s.query.max_depth matches Some(m) && s.stack.len() >= m {
        s.left()
    } else if s.stack.len() >= MAX_FIND_DEPTH {
        s.left()
    } else if is_seen(s, dir) {
        s.failed(path, about(ErrorKind::FindLoop, path))
    } else {
        match sorted_listing(f, dir) {
            Err(StopView::Read(r)) => FindStep { finding: FindingView::Read(r), finder: s },
            Err(StopView::Error(e)) => s.stuck_at(dir).failed(path, e),
            Ok(entries) => FindStep {
                finding: FindingView::Again,
                finder: FinderView {
                    stack: s.stack.push(PlaceView { dir, path, entries, next: 0 }),
                    mode: ModeView::Next,
                    ..s
                },
            },
        }
    }
}

/// Taking up the next entry of the directory on top.
#[verifier::opaque]
pub open spec fn next_step(s: FinderView) -> FindStep {
    let top = s.stack.last();
    let e = top.entries[top.next];
    let name = utf8_lossy(e.name);
    let path = joined(top.path, name);
    if s.stack.len() == 0 {
        s.left()
    } else if top.next >= top.entries.len() {
        FinderView { stack: s.stack.drop_last(), ..s }.left()
    } else {
        FindStep {
            finding: if is_meant(s.query, e.ftype, name) {
                FindingView::Found(path)
            } else {
                FindingView::Again
            },
            finder: FinderView {
                stack: s.stack.update(
                    s.stack.len() - 1,
                    PlaceView { next: top.next + 1, ..top },
                ),
                mode: ModeView::Sift {
                    loc: e.loc,
                    subvol: e.subvol,
                    is_dir: e.ftype == FT_DIR,
                    path,
                },
                ..s
            },
        }
    }
}

/// Whether another subvolume is left out of the search.
pub open spec fn passed_over(f: FsView, q: FindQueryView, subvol: bool, loc: Loc) -> Result<
    bool,
    StopView,
> {
    if !subvol || placeholder(loc) {
        Ok(false)
    } else if q.one_subvolume {
        Ok(true)
    } else if q.no_snapshots {
        snapshot_of(f, loc.tree)
    } else {
        Ok(false)
    }
}

/// An entry that was taken up is entered where it is a directory to be searched. If that
/// cannot be told, the directory it is in is given up.
#[verifier::opaque]
pub open spec fn sift_find(
    f: FsView,
    s: FinderView,
    loc: Loc,
    subvol: bool,
    is_dir: bool,
    path: Seq<char>,
) -> FindStep {
    match passed_over(f, s.query, subvol, loc) {
        Err(StopView::Read(r)) => FindStep { finding: FindingView::Read(r), finder: s },
        Err(StopView::Error(e)) => if s.stack.len() == 0 {
            s.failed(path, e)
        } else {
            let top = s.stack.last();
            FinderView { stack: s.stack.drop_last(), ..s.stuck_at(top.dir) }.failed(top.path, e)
        },
        Ok(skip) => FindStep {
            finding: FindingView::Again,
            finder: if is_dir && !skip {
                s.at(ModeView::Enter { dir: loc, path })
            } else {
                s.at(ModeView::Next)
            },
        },
    }
}

/// One step of a search.
pub open spec fn find_step(f: FsView, s: FinderView) -> FindStep {
    match s.mode {
        ModeView::Enter { dir, path } => enter_step(f, s, dir, path),
        ModeView::Next => next_step(s),
        ModeView::Sift { loc, subvol, is_dir, path } => sift_find(
            f,
            s,
            loc,
            subvol,
            is_dir,
            path,
        ),
        ModeView::Over(e) => FindStep { finding: FindingView::Finished(e), finder: s },
    }
}

impl Finder {
    /// What holds of every finder.
    pub closed spec fn wf(self) -> bool {
        forall|i: int|
            0 <= i < self.stack@.len() ==> (#[trigger] self.stack@[i]).next
                <= self.stack@[i].entries@.len()
    }

    /// Begins a search of the directory at `dir`, shown as `path`.
    pub fn new(query: FindQuery, dir: Loc, path: String) -> (s: Finder)
        ensures
            s.wf(),
            s@ == (FinderView {
                query: query@,
                stack: seq![],
                stuck: seq![],
                mode: ModeView::Enter { dir, path: path@ },
            }),
    {
        let s = Finder {
            query,
            stack: Vec::new(),
            stuck: Vec::new(),
            mode: Mode::Enter { dir, path },
        };
        assert(s@.stack =~= seq![]);
        s
    }

    fn seen(&self, dir: Loc) -> (r: bool)
        ensures
            r == is_seen(self@, dir),
    {
        let mut i: usize = 0;
        while i < self.stuck.len()
            invariant
                i <= self.stuck@.len(),
                forall|k: int| 0 <= k < i ==> self.stuck@[k] != dir,
            decreases self.stuck@.len() - i,
        {
            if self.stuck[i] == dir {
                assert(self@.stuck[i as int] == dir);
                return true;
            }
            i += 1;
        }
        let mut i: usize = 0;
        while i < self.stack.len()
            invariant
                i <= self.stack@.len(),
                forall|k: int| 0 <= k < self.stuck@.len() ==> self.stuck@[k] != dir,
                forall|k: int| 0 <= k < i ==> (#[trigger] self@.stack[k]).dir != dir,
            decreases self.stack@.len() - i,
        {
            assert(self@.stack[i as int] == self.stack@[i as int]@);
            if self.stack[i].dir == dir {
                return true;
            }
            i += 1;
        }
        false
    }

    fn leave(&mut self) -> (r: Finding)
        requires
            old(self).wf(),
        ensures
            final(self).wf(),
            r@ == old(self)@.left().finding,
            final(self)@ == old(self)@.left().finder,
    {
        if self.stack.len() == 0 {
            self.mode = Mode::Over(None);
        } else {
            self.mode = Mode::Next;
        }
        Finding::Again
    }

    fn fail(&mut self, path: &str, e: Error) -> (r: Finding)
        requires
            old(self).wf(),
        ensures
            final(self).wf(),
            r@ == old(self)@.failed(path@, e@).finding,
            final(self)@ == old(self)@.failed(path@, e@).finder,
    {
        if self.stack.len() == 0 {
            self.mode = Mode::Over(Some(e));
            Finding::Again
        } else {
            self.mode = Mode::Next;
            Finding::Warning(Text::of(path).lit(": ").lit(e.message().as_str()).done())
        }
    }

    fn enter(&mut self, fs: &Fs, dir: Loc, path: String) -> (r: Finding)
        requires
            old(self).wf(),
            fs@.wf(),
        ensures
            final(self).wf(),
            ({
                let s = old(self)@.at(ModeView::Enter { dir, path: path@ });
                &&& r@ == enter_step(fs@, s, dir, path@).finding
                &&& final(self)@ == enter_step(fs@, s, dir, path@).finder
            }),
    {
        reveal(enter_step);
        if let Some(m) = self.query.max_depth {
            if self.stack.len() >= m {
                return self.leave();
            }
        }
        if self.stack.len() >= MAX_FIND_DEPTH {
            return self.leave();
        }
        if self.seen(dir) {
            return self.fail(path.as_str(), Error::about(ErrorKind::FindLoop, path.clone()));
        }
        let entries = match fs.readdir(dir) {
            Ok(v) => v,
            Err(Stop::Read(r)) => {
                self.mode = Mode::Enter { dir, path };
                return Finding::Read(r);
            },
            Err(Stop::Error(e)) => {
                self.stuck.push(dir);
                return self.fail(path.as_str(), e);
            },
        };
        proof {
            let all = listing_of(fs@, dir)->Ok_0;
            let r = choose|r: Seq<EntryView>| stably_sorted::<Entry>(all, r);
            law_sorted_form_is_unique::<Entry>(all, r, views(entries@));
        }
        let place = Place { dir, path, entries, next: 0 };
        proof {
            lemma_views_push(self.stack@, place);
        }
        self.stack.push(place);
        self.mode = Mode::Next;
        Finding::Again
    }

    fn meant(&self, e: &Entry, name: &str) -> (r: bool)
        ensures
            r == is_meant(self@.query, e.ftype, name@),
    {
        if let Some(t) = self.query.ty {
            let letter = if e.ftype == FT_DIR {
                'd'
            } else if e.ftype == FT_SYMLINK {
                'l'
            } else {
                'f'
            };
            if t != letter {
                return false;
            }
        }
        match &self.query.name {
            Some(g) => matches_set(g, name),
            None => true,
        }
    }

    fn take_next(&mut self) -> (r: Finding)
        requires
            old(self).wf(),
        ensures
            final(self).wf(),
            ({
                let s = old(self)@.at(ModeView::Next);
                &&& r@ == next_step(s).finding
                &&& final(self)@ == next_step(s).finder
            }),
    {
        reveal(next_step);
        let ghost before = self@.at(ModeView::Next);
        let ghost places = self.stack@;
        let n: usize = self.stack.len();
        let mut top = match self.stack.pop() {
            Some(t) => t,
            None => {
                return self.leave();
            },
        };
        let ghost old_top = top@;
        assert(places.last() == top);
        assert(self.stack@ =~= places.drop_last());
        assert(before.stack.last() == old_top);
        let at: usize = top.next;
        if at >= top.entries.len() {
            assert(self@.stack =~= before.stack.drop_last());
            return self.leave();
        }
        top.next = at + 1;
        let e = &top.entries[at];
        assert(old_top.entries[at as int] == e@);
        let name = e.name_lossy();
        let path = join(top.path.as_str(), name.as_str());
        let hit = self.meant(e, name.as_str());
        let finding = if hit {
            Finding::Found(path.clone())
        } else {
            Finding::Again
        };
        self.mode = Mode::Sift { loc: e.loc, subvol: e.subvol, is_dir: e.ftype == FT_DIR, path };
        self.stack.push(top);
        assert(self@.stack =~= before.stack.update(
            n - 1,
            PlaceView { next: old_top.next + 1, ..old_top },
        ));
        finding
    }

    fn sift(&mut self, fs: &Fs, loc: Loc, subvol: bool, is_dir: bool, path: String) -> (r: Finding)
        requires
            old(self).wf(),
            fs@.wf(),
        ensures
            final(self).wf(),
            ({
                let s = old(self)@.at(ModeView::Sift { loc, subvol, is_dir, path: path@ });
                &&& r@ == sift_find(fs@, s, loc, subvol, is_dir, path@).finding
                &&& final(self)@ == sift_find(fs@, s, loc, subvol, is_dir, path@).finder
            }),
    {
        reveal(sift_find);
        let ghost before = self@;
        let mut skip = false;
        if subvol && !Fs::is_placeholder(loc) {
            if self.query.one_subvolume {
                skip = true;
            } else if self.query.no_snapshots {
                skip = match fs.is_snapshot(loc.tree) {
                    Ok(b) => b,
                    Err(Stop::Read(r)) => {
                        self.mode = Mode::Sift { loc, subvol, is_dir, path };
                        return Finding::Read(r);
                    },
                    Err(Stop::Error(e)) => {
                        let ghost places = self.stack@;
                        return match self.stack.pop() {
                            None => self.fail(path.as_str(), e),
                            Some(top) => {
                                assert(before.stack.last() == top@);
                                self.stuck.push(top.dir);
                                assert(self@.stack =~= before.stack.drop_last());
                                self.fail(top.path.as_str(), e)
                            },
                        };
                    },
                };
            }
        }
        if is_dir && !skip {
            self.mode = Mode::Enter { dir: loc, path };
        } else {
            self.mode = Mode::Next;
        }
        Finding::Again
    }

    /// Hands out the next path, or says what must be done before there is one.
    pub fn step(&mut self, fs: &Fs) -> (r: Finding)
        requires
            old(self).wf(),
            fs@.wf(),
        ensures
            final(self).wf(),
            r@ == find_step(fs@, old(self)@).finding,
            final(self)@ == find_step(fs@, old(self)@).finder,
    {
        let ghost before = self@;
        let mut mode = Mode::Next;
        core::mem::swap(&mut mode, &mut self.mode);
        assert(before =~= self@.at(mode@));
        match mode {
            Mode::Enter { dir, path } => self.enter(fs, dir, path),
            Mode::Next => self.take_next(),
            Mode::Sift { loc, subvol, is_dir, path } => self.sift(fs, loc, subvol, is_dir, path),
            Mode::Over(e) => {
                let copy = match &e {
                    Some(x) => Some(x.copied()),
                    None => None,
                };
                self.mode = Mode::Over(e);
                Finding::Finished(copy)
            },
        }
    }
}

/// The directories being searched are all different, and none was given up; there are no
/// more of them than the depth that is searched.
pub open spec fn on_track(s: FinderView) -> bool {
    &&& s.stack.len() <= MAX_FIND_DEPTH
    &&& s.query.max_depth matches Some(m) ==> s.stack.len() <= m
    &&& forall|i: int, j: int|
        0 <= i < j < s.stack.len() ==> (#[trigger] s.stack[i]).dir != (#[trigger] s.stack[j]).dir
    &&& forall|i: int|
        0 <= i < s.stack.len() ==> !s.stuck.contains((#[trigger] s.stack[i]).dir)
}

/// Every step keeps a search on track, so that a directory which contains one of its own
/// parents cannot make it run forever.
pub proof fn law_search_stays_on_track(f: FsView, s: FinderView)
    requires
        on_track(s),
    ensures
        on_track(find_step(f, s).finder),
{
    reveal(enter_step);
    reveal(next_step);
    reveal(sift_find);
    let t = find_step(f, s).finder;
    if t.stack.len() > s.stack.len() {
        let n = s.stack.len() as int;
        assert forall|i: int, j: int| 0 <= i < j < t.stack.len() implies (#[trigger] t.stack[i]).dir
            != (#[trigger] t.stack[j]).dir by {
            assert(t.stack[i] == s.stack[i]);
            if j < n {
                assert(t.stack[j] == s.stack[j]);
            }
        }
    } else {
        assert forall|i: int| 0 <= i < t.stack.len() implies (#[trigger] t.stack[i]).dir
            == s.stack[i].dir by {}
        assert forall|i: int| 0 <= i < t.stack.len() implies !t.stuck.contains(
            (#[trigger] t.stack[i]).dir,
        ) by {
            let d = t.stack[i].dir;
            assert(!s.stuck.contains(s.stack[i].dir));
            if t.stuck.contains(d) {
                let k = t.stuck.index_of(d);
                assert(t.stuck[k] == d);
                if k < s.stuck.len() {
                    assert(s.stuck[k] == d);
                }
            }
        }
    }
}

/// A path is handed out only for an entry of the type and name searched for, and it is the
/// path of that entry.
pub proof fn law_found_is_meant(f: FsView, s: FinderView, path: Seq<char>)
    requires
        find_step(f, s).finding == FindingView::Found(path),
    ensures
        s.stack.len() > 0,
        ({
            let top = s.stack.last();
            let e = top.entries[top.next];
            &&& is_meant(s.query, e.ftype, utf8_lossy(e.name))
            &&& path == joined(top.path, utf8_lossy(e.name))
        }),
{
    reveal(enter_step);
    reveal(next_step);
    reveal(sift_find);
}

/// Under `one_subvolume` another subvolume is not searched, and under `no_snapshots` a
/// snapshot is not: the search goes on with the next entry.
pub proof fn law_other_subvolumes_are_not_searched(
    f: FsView,
    s: FinderView,
    loc: Loc,
    is_dir: bool,
    path: Seq<char>,
)
    requires
        s.mode == (ModeView::Sift { loc, subvol: true, is_dir, path }),
        !placeholder(loc),
        s.query.one_subvolume || s.query.no_snapshots && snapshot_of(f, loc.tree) == Ok::<
            bool,
            StopView,
        >(true),
    ensures
        find_step(f, s) == (FindStep {
            finding: FindingView::Again,
            finder: s.at(ModeView::Next),
        }),
{
    reveal(sift_find);
}

/// Every entry of a directory that is searched is taken up once, in their order, and handed
/// out if it is one that is searched for.
pub proof fn law_every_entry_is_considered(f: FsView, s: FinderView)
    requires
        s.mode is Next,
        s.stack.len() > 0,
        s.stack.last().next < s.stack.last().entries.len(),
    ensures
        ({
            let top = s.stack.last();
            let e = top.entries[top.next];
            let name = utf8_lossy(e.name);
            let t = find_step(f, s);
            &&& t.finder.stack.last() == (PlaceView { next: top.next + 1, ..top })
            &&& t.finding == if is_meant(s.query, e.ftype, name) {
                FindingView::Found(joined(top.path, name))
            } else {
                FindingView::Again
            }
        }),
{
    reveal(next_step);
}

} // verus!
