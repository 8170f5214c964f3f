//! Where a path leads, one name at a time.

use vstd::prelude::*;
use vstd::utf8::encode_utf8;

use crate::entry_laws::{lemma_type_number, type_number};
use crate::error::ErrorKind;
use crate::fs::{FsView, StopView};
use crate::lookup::{inode_at, lookup_of, root_of, Loc};
use crate::path::{
    components, is_step, law_joined_paths, resolved, resolved_from, split, ResolvedView,
};

verus! {

/// The text is one name: not empty, `.` or `..`, and without a slash or backslash.
pub open spec fn is_name(n: Seq<char>) -> bool {
    &&& n.len() > 0
    &&& n != seq!['.']
    &&& n != seq!['.', '.']
    &&& forall|i: int| 0 <= i < n.len() ==> #[trigger] n[i] != '/' && n[i] != '\\'
}

proof fn lemma_one_part(n: Seq<char>)
    requires
        forall|i: int| 0 <= i < n.len() ==> #[trigger] n[i] != '/' && n[i] != '\\',
    ensures
        split(n) == seq![n],
    decreases n.len(),
{
    if n.len() == 0 {
        assert(n =~= seq![]);
    } else {
        let front = n.drop_last();
        assert forall|i: int| 0 <= i < front.len() implies #[trigger] front[i] != '/' && front[i]
            != '\\' by {
            assert(front[i] == n[i]);
        }
        lemma_one_part(front);
        assert(n[n.len() - 1] != '/');
        assert(front.push(n.last()) =~= n);
        assert(split(n) =~= seq![n]);
    }
}

/// A name is the one component of itself, and of `..` the same holds; the empty text and `.` have
/// none.
pub proof fn law_single_components(n: Seq<char>)
    ensures
        is_name(n) || n == seq!['.', '.'] ==> components(n) == seq![n],
        n.len() == 0 || n == seq!['.'] ==> components(n) == Seq::<Seq<char>>::empty(),
{
    let pred = |p: Seq<char>| is_step(p);
    if is_name(n) || n == seq!['.', '.'] || n.len() == 0 || n == seq!['.'] {
        lemma_one_part(n);
        reveal(Seq::filter);
        let one = seq![n];
        assert(one.drop_last() =~= seq![]);
        assert(one.drop_last().filter(pred) =~= seq![]);
        assert(is_name(n) || n == seq!['.', '.'] ==> n.len() != 1 || n[0] != '.') by {
            if n.len() == 1 && n[0] == '.' {
                assert(n =~= seq!['.']);
            }
        }
        assert(components(n) =~= if is_step(n) {
            seq![n]
        } else {
            seq![]
        });
    }
}

/// A backslash parts components as a slash does.
pub proof fn law_backslashes_part(a: Seq<char>, b: Seq<char>)
    ensures
        components(a + seq!['\\'] + b) == components(a + seq!['/'] + b),
{
    lemma_same_split(a, b);
}

proof fn lemma_same_split(a: Seq<char>, b: Seq<char>)
    ensures
        split(a + seq!['\\'] + b) == split(a + seq!['/'] + b),
    decreases b.len(),
{
    let s = a + seq!['\\'] + b;
    let t = a + seq!['/'] + b;
    if b.len() == 0 {
        assert(s.drop_last() =~= a);
        assert(t.drop_last() =~= a);
    } else {
        lemma_same_split(a, b.drop_last());
        assert(s.drop_last() =~= a + seq!['\\'] + b.drop_last());
        assert(t.drop_last() =~= a + seq!['/'] + b.drop_last());
    }
}

/// The names gone along, each after a slash.
pub open spec fn trail(parts: Seq<Seq<char>>, k: int) -> Seq<char>
    decreases parts.len() - k,
{
    if k >= parts.len() {
        seq![]
    } else if parts[k] == seq!['.', '.'] {
        trail(parts, k + 1)
    } else {
        seq!['/'] + parts[k] + trail(parts, k + 1)
    }
}

/// The way along some components, with others to follow: where they lead somewhere, the rest is
/// taken from there; where they do not, neither do all together.
#[verifier::rlimit(30)]
proof fn lemma_way(
    f: FsView,
    parts: Seq<Seq<char>>,
    tail: Seq<Seq<char>>,
    k: int,
    stack: Seq<Loc>,
    walked: Seq<char>,
) -> (r: (Seq<Loc>, Seq<char>))
    requires
        0 <= k <= parts.len(),
        stack.len() > 0,
    ensures
        match resolved_from(f, parts, k, stack, walked) {
            Ok(ResolvedView::At(dir)) => {
                &&& r.0.len() > 0
                &&& r.0.last() == dir
                &&& r.1 == walked + trail(parts, k)
                &&& resolved_from(f, parts + tail, k, stack, walked) == resolved_from(
                    f,
                    parts + tail,
                    parts.len() as int,
                    r.0,
                    r.1,
                )
            },
            other => resolved_from(f, parts + tail, k, stack, walked) == other,
        },
    decreases parts.len() - k,
{
    let all = parts + tail;
    if k >= parts.len() {
        assert(walked + trail(parts, k) =~= walked);
        (stack, walked)
    } else {
        let part = parts[k];
        assert(all[k] == part);
        let path = walked + seq!['/'] + part;
        if part == seq!['.', '.'] {
            let up = if stack.len() > 1 {
                stack.drop_last()
            } else {
                stack
            };
            lemma_way(f, parts, tail, k + 1, up, walked)
        } else {
            match lookup_of(f, stack.last(), encode_utf8(part)) {
                Ok(Some(e)) => {
                    let r = lemma_way(f, parts, tail, k + 1, stack.push(e.loc), path);
                    assert(path + trail(parts, k + 1) =~= walked + trail(parts, k));
                    r
                },
                _ => (stack, walked),
            }
        }
    }
}

/// A name after a path is looked up in the directory that the path leads to: it leads on to what
/// the directory has under the name, is not found where it has none, and is refused where the
/// path leads to no directory. A symlink is not followed, but handed out in its place. Where the
/// path itself leads nowhere, nothing after it does.
pub proof fn law_names_lead_on(f: FsView, p: Seq<char>, n: Seq<char>)
    requires
        is_name(n),
    ensures
        ({
            let r = resolved(f, p + seq!['/'] + n);
            match resolved(f, p) {
                Ok(ResolvedView::At(dir)) => {
                    let inode = inode_at(f, dir);
                    let shown = trail(components(p), 0);
                    let enters = dir.tree == 0 || (inode matches Ok(i) && type_number(i.mode) == 4);
                    &&& enters ==> match lookup_of(f, dir, encode_utf8(n)) {
                        Ok(Some(e)) => r == Ok::<ResolvedView, StopView>(ResolvedView::At(e.loc)),
                        Ok(None) => r matches Err(StopView::Error(e)) && e.kind
                            == ErrorKind::NotFound && e.subject == shown + seq!['/'] + n,
                        Err(s) => r == Err::<ResolvedView, StopView>(s),
                    }
                    &&& dir.tree != 0 && (inode matches Ok(i) && type_number(i.mode) == 10) ==> (
                    r matches Ok(ResolvedView::Link { loc, path }) && loc == dir && path == shown)
                    &&& dir.tree != 0 && (inode matches Ok(i) && type_number(i.mode) != 4
                        && type_number(i.mode) != 10) ==> (r matches Err(StopView::Error(e))
                        && e.kind == ErrorKind::NotADirectory && e.subject == shown)
                    &&& dir.tree != 0 && inode is Err ==> r == Err::<ResolvedView, StopView>(
                        inode->Err_0,
                    )
                },
                other => r == other,
            }
        }),
{
    law_joined_paths(p, n);
    law_single_components(n);
    if let Ok(root) = root_of(f) {
        let parts = components(p);
        let (st, w) = lemma_way(f, parts, seq![n], 0, seq![root], seq![]);
        let all = parts + seq![n];
        assert(all[parts.len() as int] == n);
        assert(Seq::<char>::empty() + trail(parts, 0) =~= trail(parts, 0));
        if let Ok(ResolvedView::At(dir)) = resolved(f, p) {
            if let Ok(i) = inode_at(f, dir) {
                lemma_type_number(i.mode);
            }
            match lookup_of(f, dir, encode_utf8(n)) {
                Ok(Some(e)) => {
                    assert(st.push(e.loc).last() == e.loc);
                    assert(resolved_from(
                        f,
                        all,
                        (parts.len() + 1) as int,
                        st.push(e.loc),
                        w + seq!['/'] + n,
                    ) == Ok::<ResolvedView, StopView>(ResolvedView::At(e.loc)));
                },
                _ => {},
            }
        }
    }
}

/// What is said of a symlink on the way names it by that path.
pub proof fn law_links_are_named(path: Seq<char>, target: Seq<u8>)
    ensures
        crate::path::link_error(path, target).kind == ErrorKind::IsSymlink,
        crate::path::link_error(path, target).subject == path,
{
}

/// A name and then `..` lead back to where they set out.
#[verifier::rlimit(30)]
pub proof fn law_parents_lead_back(f: FsView, p: Seq<char>, n: Seq<char>)
    requires
        is_name(n),
        resolved(f, p) matches Ok(ResolvedView::At(_)),
        resolved(f, p + seq!['/'] + n) matches Ok(ResolvedView::At(_)),
    ensures
        resolved(f, p + seq!['/'] + n + seq!['/'] + seq!['.', '.']) == resolved(f, p),
{
    let up = seq!['.', '.'];
    law_joined_paths(p, n);
    law_joined_paths(p + seq!['/'] + n, up);
    law_single_components(n);
    law_single_components(up);
    law_names_lead_on(f, p, n);
    let parts = components(p);
    let root = root_of(f)->Ok_0;
    let tail = seq![n, up];
    assert(parts + seq![n] + seq![up] =~= parts + tail);
    let all = parts + tail;
    let k = parts.len() as int;
    let (st, w) = lemma_way(f, parts, tail, 0, seq![root], seq![]);
    assert(all[k] == n);
    assert(all[k + 1] == up);
    let dir = st.last();
    if let Ok(i) = inode_at(f, dir) {
        lemma_type_number(i.mode);
    }
    let w2 = w + seq!['/'] + n;
    let e = lookup_of(f, dir, encode_utf8(n))->Ok_0->0;
    let st2 = st.push(e.loc);
    assert(resolved_from(f, all, k, st, w) == resolved_from(f, all, k + 1, st2, w2));
    assert(st2.drop_last() =~= st);
    assert(resolved_from(f, all, k + 1, st2, w2) == resolved_from(f, all, k + 2, st, w2));
    assert(resolved_from(f, all, k + 2, st, w2) == Ok::<ResolvedView, StopView>(
        ResolvedView::At(dir),
    ));
}

/// The empty path, `/`, and any that only climbs lead to the top; and so do `.` and empty
/// components change nothing anywhere.
pub proof fn law_the_top(f: FsView, p: Seq<char>, root: Loc)
    requires
        root_of(f) == Ok::<Loc, StopView>(root),
    ensures
        resolved(f, seq![]) == Ok::<ResolvedView, StopView>(ResolvedView::At(root)),
        resolved(f, seq!['/']) == Ok::<ResolvedView, StopView>(ResolvedView::At(root)),
        resolved(f, seq!['.', '.']) == Ok::<ResolvedView, StopView>(ResolvedView::At(root)),
        resolved(f, p + seq!['/']) == resolved(f, p),
        resolved(f, p + seq!['/'] + seq!['.']) == resolved(f, p),
        resolved(f, seq!['/'] + p) == resolved(f, p),
{
    let none = Seq::<char>::empty();
    law_single_components(none);
    law_single_components(seq!['.']);
    law_single_components(seq!['.', '.']);
    law_joined_paths(none, none);
    law_joined_paths(p, none);
    law_joined_paths(none, p);
    law_joined_paths(p, seq!['.']);
    assert(none + seq!['/'] + none =~= seq!['/']);
    assert(p + seq!['/'] + none =~= p + seq!['/']);
    assert(none + seq!['/'] + p =~= seq!['/'] + p);
    let nothing = Seq::<Seq<char>>::empty();
    assert(components(p) + nothing =~= components(p));
    assert(nothing + components(p) =~= components(p));
    assert(nothing + nothing =~= nothing);
    reveal_with_fuel(resolved_from, 2);
}

} // verus!
