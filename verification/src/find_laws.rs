//! What a search hands out, told by the entries that the filesystem has.

use vstd::prelude::*;

use crate::copy::sorted_listing;
use crate::find::{
    enter_step, find_step, next_step, sift_find, type_check, FindQueryView, FindingView,
    FinderView, ModeView, PlaceView,
};
use crate::fs::{FsView, StopView};
use crate::lookup::{snapshot_of, EntryView, Loc};
use crate::text::utf8_lossy;

verus! {

/// `dir` with the slashes at its end taken off, a slash, and a name.
pub open spec fn is_path_of(path: Seq<char>, dir: Seq<char>, name: Seq<char>) -> bool {
    exists|stem: Seq<char>, slashes: Seq<char>|
        {
            &&& dir == #[trigger] (stem + slashes)
            &&& forall|i: int| 0 <= i < slashes.len() ==> #[trigger] slashes[i] == '/'
            &&& stem.len() > 0 ==> stem.last() != '/'
            &&& path == stem + seq!['/'] + name
        }
}

/// Slashes are taken off the end, and nothing else is.
pub proof fn lemma_unslashed(s: Seq<char>)
    ensures
        ({
            let t = crate::copy::unslashed(s);
            &&& t.len() <= s.len()
            &&& s.take(t.len() as int) == t
            &&& forall|i: int| t.len() <= i < s.len() ==> #[trigger] s[i] == '/'
            &&& t.len() > 0 ==> t.last() != '/'
        }),
    decreases s.len(),
{
    let t = crate::copy::unslashed(s);
    if s.len() > 0 && s.last() == '/' {
        let u = s.drop_last();
        lemma_unslashed(u);
        assert(s.take(t.len() as int) =~= u.take(t.len() as int));
        assert forall|i: int| t.len() <= i < s.len() implies #[trigger] s[i] == '/' by {
            if i < u.len() {
                assert(u[i] == s[i]);
            }
        }
    } else {
        assert(s.take(s.len() as int) =~= s);
    }
}

/// A path is made of the directory and the name.
proof fn lemma_joined(dir: Seq<char>, name: Seq<char>)
    ensures
        is_path_of(crate::find::joined(dir, name), dir, name),
{
    let stem = crate::copy::unslashed(dir);
    let slashes = dir.skip(stem.len() as int);
    lemma_unslashed(dir);
    reveal_strlit("/");
    assert("/"@ =~= seq!['/']);
    assert(dir =~= stem + slashes);
    assert forall|i: int| 0 <= i < slashes.len() implies #[trigger] slashes[i] == '/' by {
        assert(slashes[i] == dir[stem.len() + i]);
    }
}

/// Whether an entry of type `ftype` is what the letter means: `d` is for directories, of type
/// 2, `l` for symlinks, of type 7, and `f` for all the rest.
pub open spec fn is_of_type(letter: char, ftype: u8) -> bool {
    ||| letter == 'd' && ftype == 2
    ||| letter == 'l' && ftype == 7
    ||| letter == 'f' && ftype != 2 && ftype != 7
}

/// Whether an entry is searched for: it is of the type, where one is given, and its name is one
/// of the names, where some are given.
pub open spec fn is_searched_for(q: FindQueryView, e: EntryView) -> bool {
    &&& q.ty matches Some(t) ==> is_of_type(t, e.ftype)
    &&& q.name matches Some(names) ==> names.contains(utf8_lossy(e.name))
}

/// An entry that is taken up is handed out if and only if it is searched for, as the path of its
/// directory and its name; whether it is or not, what it leads to is looked at next.
pub proof fn law_entries_searched_for_are_handed_out(f: FsView, s: FinderView)
    requires
        s.mode is Next,
        s.stack.len() > 0,
        s.stack.last().next < s.stack.last().entries.len(),
        type_check(s.query.ty) is Ok,
    ensures
        ({
            let top = s.stack.last();
            let e = top.entries[top.next];
            let t = find_step(f, s);
            &&& is_searched_for(s.query, e) <==> t.finding is Found
            &&& !is_searched_for(s.query, e) <==> t.finding is Again
            &&& t.finding matches FindingView::Found(path) ==> is_path_of(
                path,
                top.path,
                utf8_lossy(e.name),
            )
            &&& t.finder.mode matches ModeView::Sift { loc, subvol, is_dir, path } && loc == e.loc
                && subvol == e.subvol && (is_dir <==> e.ftype == 2) && is_path_of(
                path,
                top.path,
                utf8_lossy(e.name),
            )
            &&& t.finder.query == s.query
            &&& t.finder.stuck == s.stuck
            &&& t.finder.stack.len() == s.stack.len()
            &&& t.finder.stack.drop_last() == s.stack.drop_last()
            &&& t.finder.stack.last() == (PlaceView { next: top.next + 1, ..top })
        }),
{
    reveal(next_step);
    let top = s.stack.last();
    let e = top.entries[top.next];
    lemma_joined(top.path, utf8_lossy(e.name));
    assert(find_step(f, s).finder.stack.drop_last() =~= s.stack.drop_last());
}

/// With `d` only directories are handed out, with `l` only symlinks, with `f` neither.
pub proof fn law_types_are_kept_apart(f: FsView, s: FinderView, t: char)
    requires
        find_step(f, s).finding is Found,
        s.query.ty == Some(t),
    ensures
        ({
            let e = s.stack.last().entries[s.stack.last().next];
            &&& t == 'd' ==> e.ftype == 2
            &&& t == 'l' ==> e.ftype == 7
            &&& t == 'f' ==> e.ftype != 2 && e.ftype != 7
        }),
{
    reveal(enter_step);
    reveal(next_step);
    reveal(sift_find);
}

/// Only those three letters can be asked for.
pub proof fn law_types_are_three(ty: Option<char>)
    ensures
        type_check(ty) is Ok <==> ty is None || ty == Some('f') || ty == Some('d') || ty == Some(
            'l',
        ),
{
}

/// Whether the subvolume at `loc` is left out of a search that began elsewhere: under
/// `one_subvolume` every one is, under `no_snapshots` every snapshot. The empty directory that
/// stands for a missing one has nothing to leave out.
pub open spec fn is_left_out(f: FsView, q: FindQueryView, subvol: bool, loc: Loc) -> bool {
    subvol && loc.tree != 0 && (q.one_subvolume || q.no_snapshots && snapshot_of(f, loc.tree)
        == Ok::<bool, StopView>(true))
}

/// A directory that was taken up is entered if and only if it is not in a subvolume that is left
/// out; nothing else ever is.
pub proof fn law_directories_are_searched(
    f: FsView,
    s: FinderView,
    loc: Loc,
    subvol: bool,
    is_dir: bool,
    path: Seq<char>,
)
    requires
        s.mode == (ModeView::Sift { loc, subvol, is_dir, path }),
        subvol && loc.tree != 0 && !s.query.one_subvolume && s.query.no_snapshots ==> snapshot_of(
            f,
            loc.tree,
        ) is Ok,
    ensures
        ({
            let t = find_step(f, s);
            &&& t.finding == FindingView::Again
            &&& t.finder.stack == s.stack
            &&& t.finder.query == s.query
            &&& t.finder.stuck == s.stuck
            &&& is_dir && !is_left_out(f, s.query, subvol, loc) ==> t.finder.mode
                == (ModeView::Enter { dir: loc, path })
            &&& !is_dir || is_left_out(f, s.query, subvol, loc) ==> t.finder.mode == ModeView::Next
        }),
{
    reveal(sift_find);
}

/// Where it cannot be told whether a subvolume is a snapshot, and that matters, the directory that
/// it is in is given up with a warning; where a read is needed to tell, that is asked for.
pub proof fn law_doubtful_subvolumes(
    f: FsView,
    s: FinderView,
    loc: Loc,
    is_dir: bool,
    path: Seq<char>,
    stop: StopView,
)
    requires
        s.mode == (ModeView::Sift { loc, subvol: true, is_dir, path }),
        s.stack.len() > 1,
        loc.tree != 0,
        !s.query.one_subvolume,
        s.query.no_snapshots,
        snapshot_of(f, loc.tree) == Err::<bool, StopView>(stop),
    ensures
        ({
            let t = find_step(f, s);
            match stop {
                StopView::Read(r) => t.finding == FindingView::Read(r) && t.finder == s,
                StopView::Error(_) => {
                    &&& t.finding matches FindingView::Warning(text) && s.stack.last().path.is_prefix_of(
                        text,
                    )
                    &&& t.finder == (FinderView {
                        mode: ModeView::Next,
                        stack: s.stack.drop_last(),
                        stuck: s.stuck.push(s.stack.last().dir),
                        ..s
                    })
                },
            }
        }),
{
    reveal(sift_find);
    if let StopView::Error(e) = stop {
        let path = s.stack.last().path;
        let text = path + ": "@ + crate::error::error_text(e);
        assert(text.take(path.len() as int) =~= path);
    }
}

/// The directory is one of those that are being searched, or one that was given up.
pub open spec fn is_known(s: FinderView, dir: Loc) -> bool {
    (exists|i: int| 0 <= i < s.stack.len() && (#[trigger] s.stack[i]).dir == dir) || (exists|
        i: int,
    |
        0 <= i < s.stuck.len() && #[trigger] s.stuck[i] == dir)
}

/// A directory is listed where it is no deeper than is searched: one of the depth `max_depth`
/// is not, counted from 0 where the search begins, nor is any of a depth past 255. All of its
/// entries are then to be taken up, from the first on. One that is inside itself is not listed.
pub proof fn law_depth_bounds_the_search(f: FsView, s: FinderView, dir: Loc, path: Seq<char>)
    requires
        s.mode == (ModeView::Enter { dir, path }),
        s.stack.len() > 0,
    ensures
        ({
            let t = find_step(f, s);
            let depth = s.stack.len();
            let shallow = depth < 256 && (s.query.max_depth matches Some(m) ==> depth < m);
            &&& !shallow ==> t.finding is Again && t.finder == (FinderView {
                mode: ModeView::Next,
                ..s
            })
            &&& shallow && is_known(s, dir) ==> t.finding is Warning && t.finder.stack == s.stack
            &&& shallow && !is_known(s, dir) ==> match sorted_listing(f, dir) {
                Ok(entries) => t.finding is Again && t.finder == (FinderView {
                    mode: ModeView::Next,
                    stack: s.stack.push(PlaceView { dir, path, entries, next: 0 }),
                    ..s
                }),
                Err(StopView::Read(r)) => t.finding == FindingView::Read(r) && t.finder == s,
                Err(StopView::Error(_)) => t.finding is Warning && t.finder.stack == s.stack
                    && t.finder.mode is Next && t.finder.stuck == s.stuck.push(dir),
            }
        }),
{
    reveal(enter_step);
    if crate::find::is_seen(s, dir) {
        if s.stuck.contains(dir) {
            let i = s.stuck.index_of(dir);
            assert(s.stuck[i] == dir);
        }
    }
}

/// Where the search begins nothing stands above it: there a depth of 0 finds nothing, and an
/// error ends the search.
pub proof fn law_the_first_directory(f: FsView, s: FinderView, dir: Loc, path: Seq<char>)
    requires
        s.mode == (ModeView::Enter { dir, path }),
        s.stack.len() == 0,
        s.stuck.len() == 0,
    ensures
        ({
            let t = find_step(f, s);
            if s.query.max_depth == Some(0usize) {
                t.finding is Again && t.finder.mode == ModeView::Over(None)
            } else {
                match sorted_listing(f, dir) {
                    Ok(entries) => t.finding is Again && t.finder == (FinderView {
                        mode: ModeView::Next,
                        stack: seq![PlaceView { dir, path, entries, next: 0 }],
                        ..s
                    }),
                    Err(StopView::Read(r)) => t.finding == FindingView::Read(r) && t.finder == s,
                    Err(StopView::Error(e)) => t.finding is Again && t.finder.mode
                        == ModeView::Over(Some(e)),
                }
            }
        }),
{
    reveal(enter_step);
    assert(s.stack.push(PlaceView { dir, path, entries: sorted_listing(f, dir)->Ok_0, next: 0 })
        =~= seq![PlaceView { dir, path, entries: sorted_listing(f, dir)->Ok_0, next: 0 }]);
}

/// A directory whose entries have all been taken up is left for the one it is in, and after the
/// last the search is over, without an error.
pub proof fn law_directories_are_left(f: FsView, s: FinderView)
    requires
        s.mode is Next,
        s.stack.len() > 0,
        s.stack.last().next >= s.stack.last().entries.len(),
    ensures
        ({
            let t = find_step(f, s);
            &&& t.finding is Again
            &&& t.finder == (FinderView {
                stack: s.stack.drop_last(),
                mode: if s.stack.len() == 1 {
                    ModeView::Over(None)
                } else {
                    ModeView::Next
                },
                ..s
            })
        }),
{
    reveal(next_step);
}

} // verus!
