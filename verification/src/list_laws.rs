//! That no subvolume is missing from the list, and what path each has there.

use vstd::prelude::*;

use crate::cut_laws::law_root_items_are_all_there;
use crate::disk::{le, Key};
use crate::error::ErrorView;
use crate::format_laws::law_the_numbers_of_the_format;
use crate::fs::{FsView, StopView};
use crate::lookup::{tree_of, TreeRoot};
use crate::sound::{asked, law_walk_finds_the_range, sound, spans};
use crate::subvol::{
    all_roots, backref_of, chained, deduped, names_to, nothing_placed, parent_of, path_in,
    place_all, place_one, place_rounds, roots_in, slashed, subvols_of, BackrefView, PlacedView,
    RootInfo, SubvolView,
};
use crate::subvol_laws::{hangs, law_paths_hang_together, refs_of};
use crate::tree::{tree_walk, ItemView};

verus! {

/// The subvolume is in the list.
pub open spec fn is_listed(out: Seq<SubvolView>, id: u64) -> bool {
    exists|j: int| 0 <= j < out.len() && (#[trigger] out[j]).id == id
}

/// What has a path is the top-level subvolume or is in the list.
spec fn is_kept(p: PlacedView) -> bool {
    forall|id: u64| #[trigger] p.paths.contains_key(id) <==> id == 5 || is_listed(p.out, id)
}

proof fn lemma_one_kept(f: FsView, p: PlacedView, it: RootInfo, refs: Map<u64, BackrefView>)
    requires
        is_kept(p),
    ensures
        place_one(f, p, it, refs) matches Ok(q) ==> {
            &&& is_kept(q)
            &&& forall|id: u64| #[trigger] p.paths.contains_key(id) ==> q.paths.contains_key(id)
            &&& forall|x: RootInfo| #[trigger] p.next.contains(x) ==> q.next.contains(x)
            &&& q.next.len() <= p.next.len() + 1
            &&& refs.contains_key(it.id) ==> q.paths.contains_key(it.id) || (q.next.contains(it)
                && !q.paths.contains_key(refs[it.id].parent))
            &&& q.next.len() == p.next.len() + 1 ==> q.paths == p.paths
        },
{
    if let Ok(q) = place_one(f, p, it, refs) {
        if refs.contains_key(it.id) {
            if !p.paths.contains_key(refs[it.id].parent) {
                assert(q.next[p.next.len() as int] == it);
                assert forall|x: RootInfo| #[trigger] p.next.contains(x) implies q.next.contains(x) by {
                    let i = p.next.index_of(x);
                    assert(q.next[i] == x);
                }
            } else {
                assert(q.out[p.out.len() as int].id == it.id);
                assert forall|id: u64| #[trigger] q.paths.contains_key(id) <==> id == 5
                    || is_listed(q.out, id) by {
                    if p.paths.contains_key(id) && id != 5 {
                        let j = choose|j: int| 0 <= j < p.out.len() && (#[trigger] p.out[j]).id == id;
                        assert(q.out[j].id == id);
                    }
                    if is_listed(q.out, id) && id != it.id {
                        let j = choose|j: int| 0 <= j < q.out.len() && (#[trigger] q.out[j]).id == id;
                        assert(p.out[j].id == id);
                        assert(is_listed(p.out, id));
                        assert(p.paths.contains_key(id));
                    }
                }
            }
        }
    }
}

proof fn lemma_all_kept(
    f: FsView,
    p: PlacedView,
    pending: Seq<RootInfo>,
    refs: Map<u64, BackrefView>,
)
    requires
        is_kept(p),
    ensures
        place_all(f, p, pending, refs) matches Ok(q) ==> {
            &&& is_kept(q)
            &&& forall|id: u64| #[trigger] p.paths.contains_key(id) ==> q.paths.contains_key(id)
            &&& forall|x: RootInfo| #[trigger] p.next.contains(x) ==> q.next.contains(x)
            &&& q.next.len() <= p.next.len() + pending.len()
            &&& forall|i: int|
                0 <= i < pending.len() && refs.contains_key((#[trigger] pending[i]).id)
                    ==> q.paths.contains_key(pending[i].id) || q.next.contains(pending[i])
            &&& q.next.len() == p.next.len() + pending.len() ==> q.paths == p.paths && forall|i: int|
                0 <= i < pending.len() && refs.contains_key((#[trigger] pending[i]).id)
                    ==> q.paths.contains_key(pending[i].id) || !q.paths.contains_key(
                    refs[pending[i].id].parent,
                )
        },
    decreases pending.len(),
{
    if pending.len() > 0 {
        let front = pending.drop_last();
        let n = pending.len() - 1;
        lemma_all_kept(f, p, front, refs);
        if let Ok(q) = place_all(f, p, front, refs) {
            lemma_one_kept(f, q, pending.last(), refs);
            if let Ok(r) = place_one(f, q, pending.last(), refs) {
                assert forall|i: int|
                    0 <= i < pending.len() && refs.contains_key(
                        (#[trigger] pending[i]).id,
                    ) implies r.paths.contains_key(pending[i].id) || r.next.contains(
                    pending[i],
                ) by {
                    if i < n {
                        assert(front[i] == pending[i]);
                    }
                }
                if r.next.len() == p.next.len() + pending.len() {
                    assert forall|i: int|
                        0 <= i < pending.len() && refs.contains_key(
                            (#[trigger] pending[i]).id,
                        ) implies r.paths.contains_key(pending[i].id) || !r.paths.contains_key(
                        refs[pending[i].id].parent,
                    ) by {
                        if i < n {
                            assert(front[i] == pending[i]);
                        }
                    }
                }
            }
        }
    }
}

proof fn lemma_rounds_kept(
    f: FsView,
    p: PlacedView,
    pending: Seq<RootInfo>,
    refs: Map<u64, BackrefView>,
)
    requires
        is_kept(p),
    ensures
        place_rounds(f, p, pending, refs) matches Ok(q) ==> {
            &&& is_kept(q)
            &&& forall|id: u64| #[trigger] p.paths.contains_key(id) ==> q.paths.contains_key(id)
            &&& forall|i: int|
                0 <= i < pending.len() && refs.contains_key((#[trigger] pending[i]).id)
                    && q.paths.contains_key(refs[pending[i].id].parent) ==> q.paths.contains_key(
                    pending[i].id,
                )
        },
    decreases pending.len(),
{
    if pending.len() > 0 {
        let start = PlacedView { next: seq![], ..p };
        assert(is_kept(start)) by {
            assert forall|id: u64| #[trigger] start.paths.contains_key(id) <==> id == 5
                || is_listed(start.out, id) by {
                assert(p.paths.contains_key(id) <==> id == 5 || is_listed(p.out, id));
            }
        }
        lemma_all_kept(f, start, pending, refs);
        if let Ok(q) = place_all(f, start, pending, refs) {
            if q.next.len() < pending.len() {
                let again = PlacedView { next: seq![], ..q };
                assert(is_kept(again)) by {
                    assert forall|id: u64| #[trigger] again.paths.contains_key(id) <==> id == 5
                        || is_listed(again.out, id) by {
                        assert(q.paths.contains_key(id) <==> id == 5 || is_listed(q.out, id));
                    }
                }
                lemma_rounds_kept(f, again, q.next, refs);
                if let Ok(r) = place_rounds(f, again, q.next, refs) {
                    assert forall|id: u64| #[trigger] p.paths.contains_key(id) implies
                        r.paths.contains_key(id) by {
                        assert(start.paths.contains_key(id));
                        assert(again.paths.contains_key(id));
                    }
                    assert forall|i: int|
                        0 <= i < pending.len() && refs.contains_key((#[trigger] pending[i]).id)
                            && r.paths.contains_key(refs[pending[i].id].parent) implies
                        r.paths.contains_key(pending[i].id) by {
                        if !q.paths.contains_key(pending[i].id) {
                            let k = q.next.index_of(pending[i]);
                            assert(q.next[k] == pending[i]);
                        } else {
                            assert(again.paths.contains_key(pending[i].id));
                        }
                    }
                }
            } else {
                let last = PlacedView { next: seq![], ..q };
                assert(is_kept(last)) by {
                    assert forall|id: u64| #[trigger] last.paths.contains_key(id) <==> id == 5
                        || is_listed(last.out, id) by {
                        assert(q.paths.contains_key(id) <==> id == 5 || is_listed(q.out, id));
                    }
                }
                assert(q.next.len() == start.next.len() + pending.len());
                assert(last.paths == q.paths && q.paths == p.paths);
            }
        }
    }
}

proof fn lemma_deduped_keeps(s: Seq<RootInfo>, i: int)
    requires
        0 <= i < s.len(),
    ensures
        exists|j: int| 0 <= j < deduped(s).len() && (#[trigger] deduped(s)[j]).id == s[i].id,
    decreases s.len(),
{
    let before = s.drop_last();
    let front = deduped(before);
    let all = deduped(s);
    if i < before.len() {
        lemma_deduped_keeps(before, i);
        let j = choose|j: int| 0 <= j < front.len() && (#[trigger] front[j]).id == before[i].id;
        assert(all[j].id == s[i].id);
    } else if front.len() > 0 && front.last().id == s.last().id {
        assert(all[front.len() - 1].id == s[i].id);
    } else {
        assert(all[front.len() as int].id == s[i].id);
    }
}

proof fn lemma_root_taken(items: Seq<ItemView>, k: int)
    requires
        roots_in(items) is Ok,
        0 <= k < items.len(),
        items[k].key.ty == 132,
    ensures
        exists|i: int|
            0 <= i < (roots_in(items)->Ok_0).roots.len() && (#[trigger] (roots_in(
                items,
            )->Ok_0).roots[i]).id == items[k].key.objectid,
    decreases items.len(),
{
    law_the_numbers_of_the_format();
    let front = items.drop_last();
    let r = roots_in(items)->Ok_0;
    let q = roots_in(front)->Ok_0;
    if k < front.len() {
        assert(front[k] == items[k]);
        lemma_root_taken(front, k);
        let i = choose|i: int|
            0 <= i < q.roots.len() && (#[trigger] q.roots[i]).id == front[k].key.objectid;
        assert(r.roots[i] == q.roots[i]);
    } else {
        assert(r.roots[r.roots.len() - 1].id == items[k].key.objectid);
    }
}

proof fn lemma_ref_taken(items: Seq<ItemView>, k: int)
    requires
        roots_in(items) is Ok,
        0 <= k < items.len(),
        items[k].key.ty == 144,
        forall|j: int|
            k < j < items.len() && (#[trigger] items[j]).key.ty == 144 ==> items[j].key.objectid
                != items[k].key.objectid,
    ensures
        ({
            let refs = (roots_in(items)->Ok_0).refs;
            let id = items[k].key.objectid;
            &&& refs.contains_key(id)
            &&& backref_of(items[k].key.offset, items[k].data) == Ok::<BackrefView, ErrorView>(
                refs[id],
            )
        }),
    decreases items.len(),
{
    law_the_numbers_of_the_format();
    let front = items.drop_last();
    if k < front.len() {
        assert(front[k] == items[k]);
        assert(items[items.len() - 1] == items.last());
        assert forall|j: int| k < j < front.len() && (#[trigger] front[j]).key.ty == 144 implies
            front[j].key.objectid != front[k].key.objectid by {
            assert(front[j] == items[j]);
        }
        lemma_ref_taken(front, k);
    }
}

/// No subvolume is left out: one that has a root item, of type 132, and a back reference, of type
/// 144, to the top-level subvolume or to one that is listed, is listed too, with that parent.
pub proof fn law_every_subvolume_is_listed(
    f: FsView,
    out: Seq<SubvolView>,
    id: u64,
    k: int,
    l: int,
)
    requires
        sound(f, f.sb.root, all_roots()),
        subvols_of(f) == Ok::<Seq<SubvolView>, StopView>(out),
        256 <= id <= u64::MAX - 256,
        ({
            let items = tree_walk(f, f.sb.root, all_roots()).items;
            &&& 0 <= k < items.len()
            &&& items[k].key.objectid == id && items[k].key.ty == 132
            &&& 0 <= l < items.len()
            &&& items[l].key.objectid == id && items[l].key.ty == 144
            &&& forall|j: int|
                l < j < items.len() && (#[trigger] items[j]).key.ty == 144
                    ==> items[j].key.objectid != id
            &&& items[l].key.offset == 5 || is_listed(out, items[l].key.offset)
        }),
    ensures
        exists|j: int|
            0 <= j < out.len() && (#[trigger] out[j]).id == id && out[j].parent == tree_walk(
                f,
                f.sb.root,
                all_roots(),
            ).items[l].key.offset,
{
    law_the_numbers_of_the_format();
    let items = tree_walk(f, f.sb.root, all_roots()).items;
    let r = roots_in(items)->Ok_0;
    let pending = deduped(r.roots);
    lemma_root_taken(items, k);
    let a = choose|i: int| 0 <= i < r.roots.len() && (#[trigger] r.roots[i]).id == id;
    lemma_deduped_keeps(r.roots, a);
    let b = choose|j: int| 0 <= j < pending.len() && (#[trigger] pending[j]).id == id;
    lemma_ref_taken(items, l);
    let start = nothing_placed();
    assert(is_kept(start)) by {
        assert forall|x: u64| #[trigger] start.paths.contains_key(x) <==> x == 5 || is_listed(
            start.out,
            x,
        ) by {}
    }
    lemma_rounds_kept(f, start, pending, r.refs);
    let q = place_rounds(f, start, pending, r.refs)->Ok_0;
    let parent = items[l].key.offset;
    assert(r.refs[id].parent == parent);
    assert(q.paths.contains_key(parent));
    assert(q.paths.contains_key(pending[b].id));
    assert(is_listed(out, id));
    let j = choose|j: int| 0 <= j < out.len() && (#[trigger] out[j]).id == id;
    law_paths_hang_together(f, out);
    assert(hangs(f, refs_of(f), out, j));
}

/// Where the paths to the directories that subvolumes are in can be told, they are.
proof fn lemma_all_placed(
    f: FsView,
    p: PlacedView,
    pending: Seq<RootInfo>,
    refs: Map<u64, BackrefView>,
)
    requires
        forall|id: u64| #[trigger]
            refs.contains_key(id) ==> path_in(f, refs[id].parent, refs[id].dirid) is Ok,
    ensures
        place_all(f, p, pending, refs) is Ok,
    decreases pending.len(),
{
    if pending.len() > 0 {
        lemma_all_placed(f, p, pending.drop_last(), refs);
    }
}

proof fn lemma_rounds_placed(
    f: FsView,
    p: PlacedView,
    pending: Seq<RootInfo>,
    refs: Map<u64, BackrefView>,
)
    requires
        forall|id: u64| #[trigger]
            refs.contains_key(id) ==> path_in(f, refs[id].parent, refs[id].dirid) is Ok,
    ensures
        place_rounds(f, p, pending, refs) is Ok,
    decreases pending.len(),
{
    if pending.len() > 0 {
        let start = PlacedView { next: seq![], ..p };
        lemma_all_placed(f, start, pending, refs);
        let q = place_all(f, start, pending, refs)->Ok_0;
        if q.next.len() < pending.len() {
            lemma_rounds_placed(f, PlacedView { next: seq![], ..q }, q.next, refs);
        }
    }
}

proof fn lemma_roots_read(items: Seq<ItemView>)
    requires
        forall|i: int|
            0 <= i < items.len() && (#[trigger] items[i]).key.ty == 132 ==> items[i].data.len()
                >= 216,
        forall|i: int|
            0 <= i < items.len() && (#[trigger] items[i]).key.ty == 144 ==> items[i].data.len()
                >= 18 && items[i].data.len() >= 18 + le(items[i].data, 16, 2),
    ensures
        roots_in(items) is Ok,
    decreases items.len(),
{
    law_the_numbers_of_the_format();
    if items.len() > 0 {
        let front = items.drop_last();
        assert forall|i: int| 0 <= i < front.len() && (#[trigger] front[i]).key.ty == 132 implies
            front[i].data.len() >= 216 by {
            assert(front[i] == items[i]);
        }
        assert forall|i: int| 0 <= i < front.len() && (#[trigger] front[i]).key.ty == 144 implies
            front[i].data.len() >= 18 && front[i].data.len() >= 18 + le(front[i].data, 16, 2) by {
            assert(front[i] == items[i]);
        }
        lemma_roots_read(front);
        let x = items.last();
        assert(items[items.len() - 1] == x);
        law_root_items_are_all_there(x.key.objectid, x.data);
        law_root_items_are_all_there(x.key.offset, x.data);
    }
}

/// The subvolumes can be listed wherever the root tree is sound, its root items and back references
/// are all there, and the ways to the directories that they name can be told.
pub proof fn law_subvolumes_can_be_listed(f: FsView)
    requires
        sound(f, f.sb.root, all_roots()),
        ({
            let items = tree_walk(f, f.sb.root, all_roots()).items;
            &&& forall|i: int|
                0 <= i < items.len() && (#[trigger] items[i]).key.ty == 132 ==> items[i].data.len()
                    >= 216
            &&& forall|i: int|
                0 <= i < items.len() && (#[trigger] items[i]).key.ty == 144 ==> items[i].data.len()
                    >= 18 && items[i].data.len() >= 18 + le(items[i].data, 16, 2)
        }),
        forall|id: u64| #[trigger]
            refs_of(f).contains_key(id) ==> path_in(f, refs_of(f)[id].parent, refs_of(f)[id].dirid)
                is Ok,
    ensures
        subvols_of(f) is Ok,
{
    let q = all_roots();
    let items = tree_walk(f, f.sb.root, q).items;
    assert(spans(q, q));
    law_walk_finds_the_range(f, f.sb.root, q, q);
    lemma_roots_read(items);
    let r = roots_in(items)->Ok_0;
    assert(r.refs == refs_of(f));
    assert forall|id: u64| #[trigger] r.refs.contains_key(id) implies path_in(
        f,
        r.refs[id].parent,
        r.refs[id].dirid,
    ) is Ok by {
        assert(refs_of(f).contains_key(id));
    }
    lemma_rounds_placed(f, nothing_placed(), deduped(r.roots), r.refs);
}

/// The items about subvolumes are those of all ids from 256 up to 256 below the highest.
pub proof fn law_all_subvolume_ids_are_asked_for(k: Key)
    ensures
        asked(all_roots(), k) <==> 256 <= k.objectid <= u64::MAX - 256,
{
    law_the_numbers_of_the_format();
}

/// A path below another: nothing where the part is empty, or else a slash and the part.
pub open spec fn below(part: Seq<char>) -> Seq<char> {
    if part.len() == 0 {
        seq![]
    } else {
        seq!['/'] + part
    }
}

proof fn lemma_chained(a: Seq<char>, b: Seq<char>, c: Seq<char>)
    requires
        c.len() > 0,
    ensures
        seq!['/'] + chained(a, b, c) == below(a) + below(b) + below(c),
{
    let pred = |s: Seq<char>| s.len() > 0;
    let all = seq![a, b, c];
    reveal(Seq::filter);
    reveal_with_fuel(Seq::filter, 4);
    reveal_with_fuel(slashed, 4);
    assert(all.drop_last() =~= seq![a, b]);
    assert(all.drop_last().drop_last() =~= seq![a]);
    assert(all.drop_last().drop_last().drop_last() =~= seq![]);
    let one = seq![a].filter(pred);
    let two = seq![a, b].filter(pred);
    let three = all.filter(pred);
    assert(one =~= if a.len() > 0 {
        seq![a]
    } else {
        seq![]
    });
    assert(two =~= one + if b.len() > 0 {
        seq![b]
    } else {
        seq![]
    });
    assert(three =~= two + seq![c]);
    assert(three.last() == c);
    assert(three.drop_last() =~= two);
    if b.len() > 0 {
        assert(two.last() == b);
        assert(two.drop_last() =~= one);
    }
    if a.len() > 0 {
        assert(slashed(one) =~= a);
    }
    assert(seq!['/'] + chained(a, b, c) =~= below(a) + below(b) + below(c));
}

/// A subvolume with a name is listed at the path of its parent, then the way through the parent's
/// directories to the one that it is in, then its name.
pub proof fn law_paths_are_made_of_names(f: FsView, out: Seq<SubvolView>, i: int)
    requires
        subvols_of(f) == Ok::<Seq<SubvolView>, StopView>(out),
        0 <= i < out.len(),
        refs_of(f)[out[i].id].name.len() > 0,
    ensures
        ({
            let b = refs_of(f)[out[i].id];
            let dir = path_in(f, b.parent, b.dirid)->Ok_0;
            &&& out[i].parent == b.parent
            &&& path_in(f, b.parent, b.dirid) is Ok
            &&& exists|base: Seq<char>| #[trigger]
                is_base(out, i, base) && out[i].path == base + below(dir) + seq!['/'] + b.name
        }),
{
    law_the_numbers_of_the_format();
    law_paths_hang_together(f, out);
    let refs = refs_of(f);
    assert(hangs(f, refs, out, i));
    let b = refs[out[i].id];
    let dir = path_in(f, b.parent, b.dirid)->Ok_0;
    if out[i].parent == 5 && crate::subvol_laws::hangs_from(f, refs, out[i], seq![]) {
        let base = Seq::<char>::empty();
        lemma_chained(base, dir, b.name);
        assert(is_base(out, i, base));
        assert(out[i].path =~= base + below(dir) + seq!['/'] + b.name);
    } else {
        let j = choose|j: int|
            0 <= j < i && (#[trigger] out[j]).id == out[i].parent && out[j].path.len() > 0
                && out[j].path[0] == '/' && crate::subvol_laws::hangs_from(
                f,
                refs,
                out[i],
                out[j].path.skip(1),
            );
        let a = out[j].path.skip(1);
        lemma_chained(a, dir, b.name);
        let base = below(a);
        if a.len() > 0 {
            assert(base =~= out[j].path);
        } else {
            assert(out[j].path =~= seq!['/']);
        }
        assert(is_base(out, i, base));
        assert(out[i].path =~= base + below(dir) + seq!['/'] + b.name);
    }
}

/// What the path of a subvolume begins with: nothing in the top-level one, or the path of its
/// parent, of which a lone slash counts for nothing.
pub open spec fn is_base(out: Seq<SubvolView>, i: int, base: Seq<char>) -> bool {
    ||| out[i].parent == 5 && base.len() == 0
    ||| exists|j: int|
        0 <= j < i && (#[trigger] out[j]).id == out[i].parent && base == if out[j].path == seq!['/'] {
            seq![]
        } else {
            out[j].path
        }
}

/// The way to an inode inside its tree is that to the directory it is in, and its name there; at
/// the top directory it is empty.
pub proof fn law_ways_are_made_of_names(
    f: FsView,
    root: TreeRoot,
    tree: u64,
    ino: u64,
    known: int,
    parent: u64,
    name: Seq<char>,
)
    requires
        0 <= known < 4096,
    ensures
        names_to(f, root, tree, root.root_dirid, known) == Ok::<Seq<Seq<char>>, StopView>(seq![]),
        ino != root.root_dirid && parent_of(f, root, tree, ino) == Ok::<
            (u64, Seq<char>),
            StopView,
        >((parent, name)) ==> match names_to(f, root, tree, parent, known + 1) {
            Ok(names) => names_to(f, root, tree, ino, known) == Ok::<Seq<Seq<char>>, StopView>(
                names.push(name),
            ),
            Err(s) => names_to(f, root, tree, ino, known) == Err::<Seq<Seq<char>>, StopView>(s),
        },
{
}

/// Names, each after a slash.
pub open spec fn slash_names(names: Seq<Seq<char>>) -> Seq<char>
    decreases names.len(),
{
    if names.len() == 0 {
        seq![]
    } else {
        slash_names(names.drop_last()) + seq!['/'] + names.last()
    }
}

proof fn lemma_slashed(names: Seq<Seq<char>>)
    requires
        names.len() > 0,
    ensures
        seq!['/'] + slashed(names) == slash_names(names),
    decreases names.len(),
{
    if names.len() == 1 {
        assert(names.drop_last() =~= seq![]);
        assert(slash_names(names.drop_last()) =~= seq![]);
        assert(seq!['/'] + slashed(names) =~= slash_names(names));
    } else {
        lemma_slashed(names.drop_last());
        assert(seq!['/'] + slashed(names) =~= slash_names(names));
    }
}

/// The way inside a tree is written as the names that lead along it with slashes between them; at
/// the top it is empty.
pub proof fn law_ways_are_written(
    f: FsView,
    root: TreeRoot,
    tree: u64,
    ino: u64,
    names: Seq<Seq<char>>,
)
    requires
        tree_of(f, tree) == Ok::<TreeRoot, StopView>(root),
        names_to(f, root, tree, ino, 0) == Ok::<Seq<Seq<char>>, StopView>(names),
    ensures
        path_in(f, tree, ino) matches Ok(p) && (if names.len() == 0 {
            p.len() == 0
        } else {
            seq!['/'] + p == slash_names(names)
        }),
{
    if names.len() > 0 {
        lemma_slashed(names);
    }
}

} // verus!
