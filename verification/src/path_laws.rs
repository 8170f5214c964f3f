//! The path of a subvolume leads to it.

use vstd::prelude::*;
use vstd::utf8::*;

use crate::disk::{mode_is_dir, FS_TREE_OBJECTID};
use crate::fs::{FsView, StopView};
use crate::lookup::{inode_at, lookup_of, root_of, tree_of, Loc, TreeRoot};
use crate::path::{
    components, is_separator, is_step, law_joined_paths, resolved, resolved_from, split,
    ResolvedView,
};
use crate::subvol::{
    chained, names_to, parent_of, path_in, slashed, subvols_of, BackrefView, SubvolView,
    MAX_PARENTS,
};
use crate::subvol_laws::{hangs, hangs_from, law_paths_hang_together, refs_of};

verus! {

/// A name that is one component of a path.
pub open spec fn is_name(name: Seq<char>) -> bool {
    &&& is_step(name)
    &&& name != seq!['.', '.']
    &&& forall|k: int| 0 <= k < name.len() ==> !is_separator(#[trigger] name[k])
}

/// Directory `dir` has an entry of that name that leads to `to`.
pub open spec fn leads(f: FsView, dir: Loc, name: Seq<char>, to: Loc) -> bool {
    &&& is_name(name)
    &&& inode_at(f, dir) matches Ok(i) && mode_is_dir(i.mode)
    &&& lookup_of(f, dir, encode_utf8(name)) matches Ok(Some(e)) && e.loc == to
}

/// The references from inode `ino` up to the top of its tree are matched by the entries of the
/// directories that they name; `known` of them have been followed.
pub open spec fn is_linked_up(f: FsView, root: TreeRoot, tree: u64, ino: u64, known: int) -> bool
    decreases MAX_PARENTS - known,
{
    ino == root.root_dirid || known >= MAX_PARENTS || match parent_of(f, root, tree, ino) {
        Err(_) => true,
        Ok((parent, name)) => leads(f, Loc { tree, ino: parent }, name, Loc { tree, ino })
            && is_linked_up(f, root, tree, parent, known + 1),
    }
}

/// The back reference of a subvolume, and the references of the directories it hangs in, are
/// matched by directory entries.
pub open spec fn is_linked(f: FsView, refs: Map<u64, BackrefView>, s: SubvolView) -> bool {
    let b = refs[s.id];
    &&& tree_of(f, b.parent) matches Ok(root) ==> is_linked_up(f, root, b.parent, b.dirid, 0)
    &&& tree_of(f, s.id) matches Ok(t) && leads(
        f,
        Loc { tree: b.parent, ino: b.dirid },
        b.name,
        Loc { tree: s.id, ino: t.root_dirid },
    )
}

/// So are those of its parent, of the parent of that, and so on.
pub open spec fn is_reachable(
    f: FsView,
    refs: Map<u64, BackrefView>,
    out: Seq<SubvolView>,
    i: int,
) -> bool
    decreases i,
{
    &&& is_linked(f, refs, out[i])
    &&& forall|j: int|
        0 <= j < i && (#[trigger] out[j]).id == out[i].parent ==> is_reachable(f, refs, out, j)
}

/// Each of the names leads from one of the places to the next.
spec fn is_way(f: FsView, places: Seq<Loc>, names: Seq<Seq<char>>) -> bool {
    &&& places.len() == names.len() + 1
    &&& forall|k: int|
        0 <= k < names.len() ==> leads(f, places[k], #[trigger] names[k], places[k + 1])
}

/// The names lead from one place to another, directory by directory.
spec fn steps(f: FsView, from: Loc, names: Seq<Seq<char>>, to: Loc) -> bool {
    exists|places: Seq<Loc>| #[trigger]
        is_way(f, places, names) && places[0] == from && places.last() == to
}

/// No names lead nowhere else.
proof fn lemma_no_steps(f: FsView, at: Loc)
    ensures
        steps(f, at, seq![], at),
{
    assert(is_way(f, seq![at], seq![]));
}

/// Where the last of the names leads from.
proof fn lemma_last_step(f: FsView, from: Loc, names: Seq<Seq<char>>, to: Loc) -> (mid: Loc)
    requires
        steps(f, from, names, to),
        names.len() > 0,
    ensures
        steps(f, from, names.drop_last(), mid),
        leads(f, mid, names.last(), to),
{
    let places = choose|places: Seq<Loc>| #[trigger]
        is_way(f, places, names) && places[0] == from && places.last() == to;
    let n = names.len() - 1;
    let before = places.drop_last();
    assert(leads(f, places[n], names[n], places[n + 1]));
    assert forall|k: int| 0 <= k < n implies leads(
        f,
        before[k],
        #[trigger] names.drop_last()[k],
        before[k + 1],
    ) by {
        assert(names.drop_last()[k] == names[k]);
    }
    assert(is_way(f, before, names.drop_last()));
    places[n]
}

proof fn lemma_steps_then(
    f: FsView,
    from: Loc,
    names: Seq<Seq<char>>,
    mid: Loc,
    name: Seq<char>,
    to: Loc,
)
    requires
        steps(f, from, names, mid),
        leads(f, mid, name, to),
    ensures
        steps(f, from, names.push(name), to),
{
    let places = choose|places: Seq<Loc>| #[trigger]
        is_way(f, places, names) && places[0] == from && places.last() == mid;
    let after = places.push(to);
    let all = names.push(name);
    assert forall|k: int| 0 <= k < all.len() implies leads(
        f,
        after[k],
        #[trigger] all[k],
        after[k + 1],
    ) by {
        if k < names.len() {
            assert(all[k] == names[k]);
        }
    }
    assert(is_way(f, after, all));
}

proof fn lemma_steps_join(
    f: FsView,
    a: Loc,
    front: Seq<Seq<char>>,
    b: Loc,
    rest: Seq<Seq<char>>,
    c: Loc,
)
    requires
        steps(f, a, front, b),
        steps(f, b, rest, c),
    ensures
        steps(f, a, front + rest, c),
    decreases rest.len(),
{
    if rest.len() == 0 {
        assert(front + rest =~= front);
    } else {
        let mid = lemma_last_step(f, b, rest, c);
        lemma_steps_join(f, a, front, b, rest.drop_last(), mid);
        lemma_steps_then(f, a, front + rest.drop_last(), mid, rest.last(), c);
        assert((front + rest.drop_last()).push(rest.last()) =~= front + rest);
    }
}

proof fn lemma_steps_are_names(f: FsView, a: Loc, names: Seq<Seq<char>>, b: Loc, i: int)
    requires
        steps(f, a, names, b),
        0 <= i < names.len(),
    ensures
        is_name(names[i]),
    decreases names.len(),
{
    let mid = lemma_last_step(f, a, names, b);
    if i < names.len() - 1 {
        lemma_steps_are_names(f, a, names.drop_last(), mid, i);
    }
}

/// One such step of a path.
proof fn lemma_step(
    f: FsView,
    parts: Seq<Seq<char>>,
    k: int,
    stack: Seq<Loc>,
    walked: Seq<char>,
    to: Loc,
)
    requires
        0 <= k < parts.len(),
        leads(f, stack.last(), parts[k], to),
    ensures
        resolved_from(f, parts, k, stack, walked) == resolved_from(
            f,
            parts,
            k + 1,
            stack.push(to),
            walked + seq!['/'] + parts[k],
        ),
{
}

/// A path whose components are such steps is followed to their end.
proof fn lemma_followed(
    f: FsView,
    parts: Seq<Seq<char>>,
    from: Loc,
    n: int,
    to: Loc,
) -> (r: (Seq<Loc>, Seq<char>))
    requires
        0 <= n <= parts.len(),
        steps(f, from, parts.take(n), to),
    ensures
        r.0.len() > 0,
        r.0.last() == to,
        resolved_from(f, parts, 0, seq![from], seq![]) == resolved_from(f, parts, n, r.0, r.1),
    decreases n,
{
    if n == 0 {
        (seq![from], seq![])
    } else {
        let names = parts.take(n);
        let mid = lemma_last_step(f, from, names, to);
        assert(names.drop_last() =~= parts.take(n - 1));
        assert(names.last() == parts[n - 1]);
        let (stack, walked) = lemma_followed(f, parts, from, n - 1, mid);
        lemma_step(f, parts, n - 1, stack, walked, to);
        (stack.push(to), walked + seq!['/'] + parts[n - 1])
    }
}

proof fn lemma_split_name(name: Seq<char>)
    requires
        forall|k: int| 0 <= k < name.len() ==> !is_separator(#[trigger] name[k]),
    ensures
        split(name) == seq![name],
    decreases name.len(),
{
    if name.len() > 0 {
        let front = name.drop_last();
        lemma_split_name(front);
        assert(seq![front].drop_last().push(front.push(name.last())) =~= seq![name]) by {
            assert(front.push(name.last()) =~= name);
        }
    } else {
        assert(name =~= seq![]);
    }
}

/// A name is its own only component, and the empty path has none.
proof fn lemma_components_of_name(name: Seq<char>)
    ensures
        is_name(name) ==> components(name) == seq![name],
        name.len() == 0 ==> components(name) == Seq::<Seq<char>>::empty(),
{
    reveal(Seq::filter);
    reveal_with_fuel(Seq::filter, 2);
    let one = seq![name];
    assert(one.drop_last() =~= seq![]);
    if is_name(name) {
        lemma_split_name(name);
        assert(components(name) =~= seq![name]);
    }
    if name.len() == 0 {
        lemma_split_name(name);
        assert(components(name) =~= Seq::<Seq<char>>::empty());
    }
}

/// The components of one path after another.
spec fn flat(parts: Seq<Seq<char>>) -> Seq<Seq<char>>
    decreases parts.len(),
{
    if parts.len() == 0 {
        seq![]
    } else {
        flat(parts.drop_last()) + components(parts.last())
    }
}

proof fn lemma_components_of_slashed(parts: Seq<Seq<char>>)
    ensures
        components(slashed(parts)) == flat(parts),
    decreases parts.len(),
{
    if parts.len() == 0 {
        lemma_components_of_name(slashed(parts));
    } else if parts.len() == 1 {
        reveal_with_fuel(flat, 2);
        assert(flat(parts) =~= components(parts[0]));
    } else {
        lemma_components_of_slashed(parts.drop_last());
        law_joined_paths(slashed(parts.drop_last()), parts.last());
    }
}

/// Empty parts add nothing.
proof fn lemma_flat_filter(parts: Seq<Seq<char>>)
    ensures
        flat(parts.filter(|s: Seq<char>| s.len() > 0)) == flat(parts),
    decreases parts.len(),
{
    let pred = |s: Seq<char>| s.len() > 0;
    reveal(Seq::filter);
    if parts.len() > 0 {
        let front = parts.drop_last();
        lemma_flat_filter(front);
        let left = front.filter(pred);
        if parts.last().len() > 0 {
            assert(left.push(parts.last()).drop_last() =~= left);
        } else {
            lemma_components_of_name(parts.last());
            assert(flat(parts) =~= flat(front));
        }
    }
}

proof fn lemma_flat_push(parts: Seq<Seq<char>>, x: Seq<char>)
    ensures
        flat(parts.push(x)) == flat(parts) + components(x),
{
    assert(parts.push(x).drop_last() =~= parts);
}

/// The components of three paths after one another.
proof fn lemma_flat_three(a: Seq<char>, b: Seq<char>, c: Seq<char>)
    ensures
        flat(seq![a, b, c]) == components(a) + components(b) + components(c),
{
    let none = Seq::<Seq<char>>::empty();
    lemma_flat_push(none, a);
    lemma_flat_push(none.push(a), b);
    lemma_flat_push(none.push(a).push(b), c);
    assert(none.push(a).push(b).push(c) =~= seq![a, b, c]);
    assert(flat(none) =~= none);
    let first = components(a);
    assert(none + first =~= first);
}

#[verifier::spinoff_prover]
proof fn lemma_components_of_chained(a: Seq<char>, b: Seq<char>, c: Seq<char>)
    ensures
        components(chained(a, b, c)) == components(a) + components(b) + components(c),
{
    let all = seq![a, b, c];
    lemma_components_of_slashed(all.filter(|s: Seq<char>| s.len() > 0));
    lemma_flat_filter(all);
    lemma_flat_three(a, b, c);
}

/// Names joined by slashes are the components of what they make.
proof fn lemma_components_of_names(names: Seq<Seq<char>>)
    requires
        forall|i: int| 0 <= i < names.len() ==> is_name(#[trigger] names[i]),
    ensures
        components(slashed(names)) == names,
    decreases names.len(),
{
    lemma_components_of_slashed(names);
    if names.len() > 0 {
        let front = names.drop_last();
        assert forall|i: int| 0 <= i < front.len() implies is_name(#[trigger] front[i]) by {
            assert(front[i] == names[i]);
        }
        lemma_components_of_names(front);
        lemma_components_of_slashed(front);
        lemma_components_of_name(names.last());
        assert(names[names.len() - 1] == names.last());
        assert(front + seq![names.last()] =~= names);
    }
}

/// A leading slash makes no difference.
proof fn lemma_components_of_absolute(path: Seq<char>)
    ensures
        components(seq!['/'] + path) == components(path),
{
    let none = Seq::<char>::empty();
    law_joined_paths(none, path);
    lemma_components_of_name(none);
    assert(none + seq!['/'] + path =~= seq!['/'] + path);
    assert(components(none) + components(path) =~= components(path));
}

/// The names on the way up lead back down.
proof fn lemma_names_lead(f: FsView, root: TreeRoot, tree: u64, ino: u64, known: int)
    requires
        is_linked_up(f, root, tree, ino, known),
        names_to(f, root, tree, ino, known) is Ok,
    ensures
        steps(
            f,
            Loc { tree, ino: root.root_dirid },
            names_to(f, root, tree, ino, known)->Ok_0,
            Loc { tree, ino },
        ),
    decreases MAX_PARENTS - known,
{
    if ino == root.root_dirid {
        lemma_no_steps(f, Loc { tree, ino });
    } else {
        let (parent, name) = parent_of(f, root, tree, ino)->Ok_0;
        lemma_names_lead(f, root, tree, parent, known + 1);
        lemma_steps_then(
            f,
            Loc { tree, ino: root.root_dirid },
            names_to(f, root, tree, parent, known + 1)->Ok_0,
            Loc { tree, ino: parent },
            name,
            Loc { tree, ino },
        );
    }
}

/// The top directory of a subvolume.
pub open spec fn top_of(f: FsView, id: u64) -> Loc {
    Loc { tree: id, ino: (tree_of(f, id)->Ok_0).root_dirid }
}

/// From the top of the parent, the rest of the path leads to the subvolume.
proof fn lemma_below_parent(
    f: FsView,
    refs: Map<u64, BackrefView>,
    s: SubvolView,
    base: Seq<char>,
    from: Loc,
)
    requires
        hangs_from(f, refs, s, base),
        is_linked(f, refs, s),
        steps(f, from, components(base), top_of(f, s.parent)),
    ensures
        steps(f, from, components(s.path), top_of(f, s.id)),
{
    let b = refs[s.id];
    let dir = path_in(f, b.parent, b.dirid)->Ok_0;
    let root = tree_of(f, b.parent)->Ok_0;
    let names = names_to(f, root, b.parent, b.dirid, 0)->Ok_0;
    let place = Loc { tree: b.parent, ino: b.dirid };
    lemma_names_lead(f, root, b.parent, b.dirid, 0);
    assert forall|i: int| 0 <= i < names.len() implies is_name(#[trigger] names[i]) by {
        lemma_steps_are_names(f, top_of(f, b.parent), names, place, i);
    }
    lemma_components_of_names(names);
    lemma_components_of_name(b.name);
    lemma_components_of_chained(base, dir, b.name);
    lemma_components_of_absolute(chained(base, dir, b.name));
    lemma_steps_join(f, from, components(base), top_of(f, b.parent), names, place);
    lemma_steps_then(f, from, components(base) + names, place, b.name, top_of(f, s.id));
    assert(components(s.path) =~= (components(base) + names).push(b.name));
}

proof fn lemma_reached(f: FsView, out: Seq<SubvolView>, i: int)
    requires
        subvols_of(f) == Ok::<Seq<SubvolView>, StopView>(out),
        0 <= i < out.len(),
        is_reachable(f, refs_of(f), out, i),
    ensures
        root_of(f) is Ok,
        steps(f, root_of(f)->Ok_0, components(out[i].path), top_of(f, out[i].id)),
    decreases i,
{
    let refs = refs_of(f);
    let s = out[i];
    law_paths_hang_together(f, out);
    assert(hangs(f, refs, out, i));
    if s.parent == FS_TREE_OBJECTID && hangs_from(f, refs, s, seq![]) {
        lemma_components_of_name(seq![]);
        lemma_no_steps(f, top_of(f, FS_TREE_OBJECTID));
        lemma_below_parent(f, refs, s, seq![], top_of(f, FS_TREE_OBJECTID));
    } else {
        let j = choose|j: int|
            0 <= j < i && (#[trigger] out[j]).id == s.parent && out[j].path.len() > 0
                && out[j].path[0] == '/' && hangs_from(f, refs, s, out[j].path.skip(1));
        let base = out[j].path.skip(1);
        lemma_reached(f, out, j);
        lemma_components_of_absolute(base);
        assert(seq!['/'] + base =~= out[j].path);
        lemma_below_parent(f, refs, s, base, root_of(f)->Ok_0);
    }
}

/// The path that a subvolume is listed with leads to its top directory, where the references
/// that the path was made from are matched by directory entries.
pub proof fn law_the_path_leads_to_the_subvolume(f: FsView, out: Seq<SubvolView>, i: int)
    requires
        subvols_of(f) == Ok::<Seq<SubvolView>, StopView>(out),
        0 <= i < out.len(),
        is_reachable(f, refs_of(f), out, i),
    ensures
        resolved(f, out[i].path) == Ok::<ResolvedView, StopView>(
            ResolvedView::At(top_of(f, out[i].id)),
        ),
{
    lemma_reached(f, out, i);
    let parts = components(out[i].path);
    let n = parts.len() as int;
    assert(parts.take(n) =~= parts);
    let (stack, walked) = lemma_followed(f, parts, root_of(f)->Ok_0, n, top_of(f, out[i].id));
}

} // verus!
