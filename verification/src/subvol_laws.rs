//! What holds of the list of subvolumes: which root item counts, that each is listed once, and
//! where their paths lead.

use vstd::prelude::*;

use crate::disk::{
    FIRST_FREE_OBJECTID, FS_TREE_OBJECTID, LAST_FREE_OBJECTID, ROOT_ITEM_KEY,
};
use crate::error::ErrorView;
use crate::fs::{FsView, StopView};
use crate::lookup::{snapshot_of, span};
use crate::sort::{
    law_sorted_form_keeps_the_values, lemma_positions_distinct, sorted_positions, stably_sorted,
};
use crate::sound::{
    asked, contents, law_contents_ascend, law_walk_finds_the_range, sound,
};
use crate::subvol::{
    all_roots, chained, deduped, nothing_placed, path_in, place_all, place_one, place_rounds,
    root_info_of, roots_in, subvols_of, BackrefView, PlacedView, RootInfo, Subvol, SubvolView,
};
use crate::tree::{tree_walk, ItemView};

verus! {

/// What its root item says of a subvolume that is listed.
pub open spec fn info_of(s: SubvolView) -> RootInfo {
    RootInfo {
        id: s.id,
        generation: s.generation,
        readonly: s.readonly,
        snapshot: s.snapshot,
    }
}

/// The items ascend in their keys.
spec fn ascending(s: Seq<ItemView>) -> bool {
    forall|i: int, j: int|
        0 <= i < j < s.len() ==> (#[trigger] s[i]).key.precedes((#[trigger] s[j]).key)
}

/// Items that are left of ascending ones ascend.
proof fn lemma_filter_ascends(s: Seq<ItemView>, pred: spec_fn(ItemView) -> bool)
    requires
        ascending(s),
    ensures
        ascending(s.filter(pred)),
        forall|x: ItemView| #[trigger] s.filter(pred).contains(x) <==> s.contains(x) && pred(x),
    decreases s.len(),
{
    reveal(Seq::filter);
    if s.len() > 0 {
        let front = s.drop_last();
        let t = s.filter(pred);
        let u = front.filter(pred);
        lemma_filter_ascends(front, pred);
        assert forall|x: ItemView| #[trigger] t.contains(x) <==> s.contains(x) && pred(x) by {
            if t.contains(x) {
                let i = t.index_of(x);
                if i < u.len() {
                    assert(u.contains(t[i]));
                    let k = front.index_of(x);
                    assert(s[k] == x);
                } else {
                    assert(s[s.len() - 1] == x);
                }
            }
            if s.contains(x) && pred(x) {
                let k = s.index_of(x);
                if k < front.len() {
                    assert(front[k] == x);
                    assert(u.contains(x));
                    let i = u.index_of(x);
                    assert(t[i] == x);
                } else {
                    assert(t[t.len() - 1] == x);
                }
            }
        }
        assert forall|i: int, j: int| 0 <= i < j < t.len() implies (#[trigger] t[i]).key.precedes(
            (#[trigger] t[j]).key,
        ) by {
            if j >= u.len() {
                assert(u.contains(u[i]));
                let k = front.index_of(u[i]);
                assert(s[k] == t[i] && s[s.len() - 1] == t[j]);
            }
        }
    }
}

/// The items of the root tree that are root items.
spec fn root_items(items: Seq<ItemView>) -> Seq<ItemView> {
    items.filter(|x: ItemView| x.key.ty == ROOT_ITEM_KEY)
}

/// Each root item is one of the roots, in order.
proof fn lemma_roots_in(items: Seq<ItemView>)
    requires
        roots_in(items) is Ok,
    ensures
        (roots_in(items)->Ok_0).roots.len() == root_items(items).len(),
        forall|i: int|
            0 <= i < root_items(items).len() ==> {
                let x = root_items(items)[i];
                root_info_of(x.key.objectid, x.data) == Ok::<RootInfo, ErrorView>(
                    #[trigger] (roots_in(items)->Ok_0).roots[i],
                )
            },
    decreases items.len(),
{
    reveal(Seq::filter);
    if items.len() > 0 {
        lemma_roots_in(items.drop_last());
    }
}

spec fn ids_ascend(s: Seq<RootInfo>) -> bool {
    forall|i: int, j: int| 0 <= i < j < s.len() ==> (#[trigger] s[i]).id <= (#[trigger] s[j]).id
}

spec fn ids_rise(s: Seq<RootInfo>) -> bool {
    forall|i: int, j: int| 0 <= i < j < s.len() ==> (#[trigger] s[i]).id < (#[trigger] s[j]).id
}

/// No later one has the same id.
spec fn is_last(s: Seq<RootInfo>, k: int) -> bool {
    0 <= k < s.len() && forall|m: int| k < m < s.len() ==> (#[trigger] s[m]).id > s[k].id
}

/// Of ascending ids each is left once, and it is the last of those that had it.
proof fn lemma_deduped(s: Seq<RootInfo>)
    requires
        ids_ascend(s),
    ensures
        ids_rise(deduped(s)),
        s.len() > 0 ==> deduped(s).len() > 0 && deduped(s).last() == s.last(),
        forall|j: int|
            0 <= j < deduped(s).len() ==> exists|k: int|
                #[trigger] is_last(s, k) && s[k] == #[trigger] deduped(s)[j],
    decreases s.len(),
{
    if s.len() > 0 {
        let before = s.drop_last();
        let front = deduped(before);
        let all = deduped(s);
        let n = s.len() - 1;
        lemma_deduped(before);
        assert forall|j: int| 0 <= j < all.len() implies exists|k: int|
            #[trigger] is_last(s, k) && s[k] == #[trigger] all[j] by {
            if j == all.len() - 1 {
                assert(is_last(s, n) && s[n] == all[j]);
            } else {
                assert(all[j] == front[j]);
                let k = choose|k: int| #[trigger] is_last(before, k) && before[k] == front[j];
                assert(before[before.len() - 1] == s[n - 1]);
                assert(s[k] == before[k] && s[n - 1].id <= s[n].id);
                assert(front[front.len() - 1] == s[n - 1]);
                assert forall|m: int| k < m < s.len() implies (#[trigger] s[m]).id > s[k].id by {
                    if m < n {
                        assert(before[m] == s[m]);
                    } else if j < front.len() - 1 {
                        assert(front[j].id < front[front.len() - 1].id);
                    }
                }
                assert(is_last(s, k));
            }
        }
        assert(ids_rise(all)) by {
            assert forall|i: int, j: int| 0 <= i < j < all.len() implies (#[trigger] all[i]).id < (
            #[trigger] all[j]).id by {
                assert(all[i] == front[i]);
                if before.len() > 0 {
                    assert(before[before.len() - 1] == s[n - 1]);
                    assert(s[n - 1].id <= s[n].id);
                }
                if j == all.len() - 1 {
                    if i < front.len() - 1 {
                        assert(front[i].id < front[front.len() - 1].id);
                    }
                }
            }
        }
    }
}

/// The ids of the root items ascend in a sound tree.
proof fn lemma_roots_ascend(f: FsView)
    requires
        sound(f, f.sb.root, all_roots()),
        roots_in(tree_walk(f, f.sb.root, all_roots()).items) is Ok,
    ensures
        ids_ascend((roots_in(tree_walk(f, f.sb.root, all_roots()).items)->Ok_0).roots),
{
    let all = contents(f, f.sb.root, all_roots());
    let q = all_roots();
    let items = tree_walk(f, f.sb.root, q).items;
    let pred = |x: ItemView| asked(q, x.key);
    law_walk_finds_the_range(f, f.sb.root, q, q);
    law_contents_ascend(f, f.sb.root, q);
    lemma_filter_ascends(all, pred);
    lemma_filter_ascends(items, |x: ItemView| x.key.ty == ROOT_ITEM_KEY);
    lemma_roots_in(items);
    let own = root_items(items);
    let roots = (roots_in(items)->Ok_0).roots;
    assert forall|i: int, j: int| 0 <= i < j < roots.len() implies (#[trigger] roots[i]).id <= (
    #[trigger] roots[j]).id by {
        assert(own[i].key.precedes(own[j].key));
    }
}

/// What the root tree says of the subvolumes, in a sound tree.
proof fn lemma_roots(f: FsView, it: RootInfo)
    requires
        sound(f, f.sb.root, all_roots()),
        roots_in(tree_walk(f, f.sb.root, all_roots()).items) matches Ok(r) && deduped(
            r.roots,
        ).contains(it),
    ensures
        FIRST_FREE_OBJECTID <= it.id <= LAST_FREE_OBJECTID,
        is_newest(f, it),
{
    let root = f.sb.root;
    let all = contents(f, root, all_roots());
    let q = all_roots();
    let items = tree_walk(f, root, q).items;
    let pred = |x: ItemView| asked(q, x.key);
    law_walk_finds_the_range(f, root, q, q);
    law_contents_ascend(f, root, q);
    assert(items == all.filter(pred));
    lemma_filter_ascends(all, pred);
    let is_root = |x: ItemView| x.key.ty == ROOT_ITEM_KEY;
    let own = root_items(items);
    lemma_filter_ascends(items, is_root);
    lemma_roots_in(items);
    let roots = (roots_in(items)->Ok_0).roots;
    lemma_roots_ascend(f);
    lemma_deduped(roots);
    let j = deduped(roots).index_of(it);
    let k = choose|k: int| #[trigger] is_last(roots, k) && roots[k] == deduped(roots)[j];
    let x = own[k];
    assert(roots[k] == it);
    assert(x.key.objectid == it.id);
    assert(own.contains(x));
    assert(items.contains(x));
    assert(all.contains(x) && asked(q, x.key));
    // The last of the root items with that id.
    let p = span(it.id, ROOT_ITEM_KEY);
    let named = |y: ItemView| asked(p, y.key);
    law_walk_finds_the_range(f, root, q, p);
    lemma_filter_ascends(all, named);
    let found = tree_walk(f, root, p).items;
    assert(found == all.filter(named));
    assert(found.contains(x));
    let y = found.last();
    assert(found.contains(y));
    assert(all.contains(y) && y.key.objectid == it.id && y.key.ty == ROOT_ITEM_KEY);
    assert(pred(y));
    assert(items.contains(y));
    assert(own.contains(y));
    let m = own.index_of(y);
    assert(roots[m].id == it.id);
    if m < k {
        assert(own[m].key.precedes(own[k].key));
        let n = found.index_of(x);
        if n < found.len() - 1 {
            assert(found[n].key.precedes(found[found.len() - 1].key));
        }
    }
}

/// The newest root item of its id says so: they are filed by ascending transaction.
pub open spec fn is_newest(f: FsView, it: RootInfo) -> bool {
    let found = tree_walk(f, f.sb.root, span(it.id, ROOT_ITEM_KEY));
    &&& found.end is Ok
    &&& found.items.len() > 0
    &&& root_info_of(it.id, found.items.last().data) == Ok::<RootInfo, ErrorView>(it)
}

spec fn ids_differ(s: Seq<RootInfo>) -> bool {
    forall|i: int, j: int| 0 <= i < j < s.len() ==> (#[trigger] s[i]).id != (#[trigger] s[j]).id
}

/// What is listed from number `n` on, and what is put off, is of `s`, each once.
spec fn is_drawn(p: PlacedView, n: int, s: Seq<RootInfo>) -> bool {
    &&& 0 <= n <= p.out.len()
    &&& forall|i: int| n <= i < p.out.len() ==> s.contains(info_of(#[trigger] p.out[i]))
    &&& forall|i: int| 0 <= i < p.next.len() ==> s.contains(#[trigger] p.next[i])
    &&& forall|i: int, j: int|
        n <= i < j < p.out.len() ==> (#[trigger] p.out[i]).id != (#[trigger] p.out[j]).id
    &&& ids_differ(p.next)
    &&& forall|i: int, j: int|
        n <= i < p.out.len() && 0 <= j < p.next.len() ==> (#[trigger] p.out[i]).id != (
        #[trigger] p.next[j]).id
}

proof fn lemma_place_all_drawn(
    f: FsView,
    p: PlacedView,
    pending: Seq<RootInfo>,
    refs: Map<u64, BackrefView>,
)
    requires
        p.next.len() == 0,
        ids_differ(pending),
    ensures
        place_all(f, p, pending, refs) matches Ok(q) ==> {
            &&& is_drawn(q, p.out.len() as int, pending)
            &&& q.out.take(p.out.len() as int) == p.out
        },
    decreases pending.len(),
{
    if pending.len() == 0 {
        assert(p.out.take(p.out.len() as int) =~= p.out);
    } else {
        let front = pending.drop_last();
        let it = pending.last();
        let n = p.out.len() as int;
        lemma_place_all_drawn(f, p, front, refs);
        if let Ok(q) = place_all(f, p, front, refs) {
            if let Ok(r) = place_one(f, q, it, refs) {
                assert forall|x: RootInfo| front.contains(x) implies pending.contains(x) && x.id
                    != it.id by {
                    let k = front.index_of(x);
                    assert(pending[k] == x && pending[pending.len() - 1] == it);
                }
                assert(pending[pending.len() - 1] == it);
                if r.out.len() > q.out.len() {
                    assert(r.out.drop_last() =~= q.out);
                    assert(info_of(r.out.last()) == it);
                }
                assert forall|i: int| n <= i < r.out.len() implies pending.contains(
                    info_of(#[trigger] r.out[i]),
                ) by {
                    if i < q.out.len() {
                        assert(r.out[i] == q.out[i]);
                    }
                }
                assert forall|i: int, j: int| n <= i < j < r.out.len() implies (
                #[trigger] r.out[i]).id != (#[trigger] r.out[j]).id by {
                    assert(r.out[i] == q.out[i]);
                    assert(front.contains(info_of(q.out[i])));
                }
                assert forall|i: int, j: int|
                    n <= i < r.out.len() && 0 <= j < r.next.len() implies (#[trigger] r.out[i]).id
                    != (#[trigger] r.next[j]).id by {
                    if i < q.out.len() {
                        assert(r.out[i] == q.out[i]);
                        assert(front.contains(info_of(q.out[i])));
                    }
                    if j < q.next.len() {
                        assert(r.next[j] == q.next[j]);
                        assert(front.contains(q.next[j]));
                    }
                }
                assert forall|i: int| 0 <= i < r.next.len() implies pending.contains(
                    #[trigger] r.next[i],
                ) by {
                    if i < q.next.len() {
                        assert(r.next[i] == q.next[i]);
                    }
                }
                assert forall|i: int, j: int| 0 <= i < j < r.next.len() implies (
                #[trigger] r.next[i]).id != (#[trigger] r.next[j]).id by {
                    assert(r.next[i] == q.next[i]);
                    assert(front.contains(q.next[i]));
                }
                assert(r.out.take(n) =~= p.out) by {
                    assert forall|i: int| 0 <= i < n implies r.out.take(n)[i] == #[trigger] p.out[i] by {
                        assert(q.out.take(n)[i] == q.out[i]);
                        assert(r.out[i] == q.out[i]);
                    }
                }
            }
        }
    }
}

proof fn lemma_rounds_drawn(
    f: FsView,
    p: PlacedView,
    pending: Seq<RootInfo>,
    refs: Map<u64, BackrefView>,
)
    requires
        p.next.len() == 0,
        ids_differ(pending),
    ensures
        place_rounds(f, p, pending, refs) matches Ok(q) ==> {
            &&& q.next.len() == 0
            &&& is_drawn(q, p.out.len() as int, pending)
            &&& q.out.take(p.out.len() as int) == p.out
        },
    decreases pending.len(),
{
    let n = p.out.len() as int;
    if pending.len() == 0 {
        assert(p.out.take(n) =~= p.out);
    } else {
        let start = PlacedView { next: seq![], ..p };
        lemma_place_all_drawn(f, start, pending, refs);
        if let Ok(q) = place_all(f, start, pending, refs) {
            if q.next.len() < pending.len() {
                let again = PlacedView { next: seq![], ..q };
                let m = q.out.len() as int;
                lemma_rounds_drawn(f, again, q.next, refs);
                if let Ok(r) = place_rounds(f, again, q.next, refs) {
                    assert forall|i: int| 0 <= i < m implies #[trigger] r.out[i] == q.out[i] by {
                        assert(r.out.take(m)[i] == r.out[i]);
                    }
                    assert forall|i: int| n <= i < r.out.len() implies pending.contains(
                        info_of(#[trigger] r.out[i]),
                    ) by {
                        if i >= m {
                            let k = q.next.index_of(info_of(r.out[i]));
                            assert(q.next[k] == info_of(r.out[i]));
                        }
                    }
                    assert forall|i: int, j: int| n <= i < j < r.out.len() implies (
                    #[trigger] r.out[i]).id != (#[trigger] r.out[j]).id by {
                        if j >= m && i < m {
                            let k = q.next.index_of(info_of(r.out[j]));
                            assert(q.next[k] == info_of(r.out[j]));
                            assert(q.out[i].id != q.next[k].id);
                        }
                    }
                    assert(r.out.take(n) =~= p.out) by {
                        assert forall|i: int| 0 <= i < n implies r.out.take(n)[i]
                            == #[trigger] p.out[i] by {
                            assert(q.out.take(n)[i] == q.out[i]);
                        }
                    }
                }
            }
        }
    }
}

/// The list is drawn from the root items that count, each once.
proof fn lemma_subvols_drawn(f: FsView, out: Seq<SubvolView>)
    requires
        sound(f, f.sb.root, all_roots()),
        subvols_of(f) == Ok::<Seq<SubvolView>, StopView>(out),
    ensures
        forall|i: int|
            0 <= i < out.len() ==> FIRST_FREE_OBJECTID <= (#[trigger] out[i]).id
                <= LAST_FREE_OBJECTID && is_newest(f, info_of(out[i])),
        forall|i: int, j: int|
            0 <= i < j < out.len() ==> (#[trigger] out[i]).id != (#[trigger] out[j]).id,
{
    let items = tree_walk(f, f.sb.root, all_roots()).items;
    let r = roots_in(items)->Ok_0;
    let pending = deduped(r.roots);
    assert(ids_rise(pending)) by {
        lemma_roots_ascend(f);
        lemma_deduped(r.roots);
    }
    lemma_rounds_drawn(f, nothing_placed(), pending, r.refs);
    assert forall|i: int| 0 <= i < out.len() implies FIRST_FREE_OBJECTID <= (#[trigger] out[i]).id
        <= LAST_FREE_OBJECTID && is_newest(f, info_of(out[i])) by {
        lemma_roots(f, info_of(out[i]));
    }
}

/// Of a subvolume that has several root items, the newest says what is listed of it, and it is
/// listed as a snapshot if and only if it is one.
pub proof fn law_the_newest_root_item_counts(f: FsView, list: Seq<SubvolView>)
    requires
        sound(f, f.sb.root, all_roots()),
        subvols_of(f) matches Ok(out) && stably_sorted::<Subvol>(out, list),
    ensures
        forall|i: int|
            0 <= i < list.len() ==> is_newest(f, info_of(#[trigger] list[i])) && snapshot_of(
                f,
                list[i].id,
            ) == Ok::<bool, StopView>(list[i].snapshot),
{
    let out = subvols_of(f)->Ok_0;
    lemma_subvols_drawn(f, out);
    law_sorted_form_keeps_the_values::<Subvol>(out, list);
    assert forall|i: int| 0 <= i < list.len() implies is_newest(f, info_of(#[trigger] list[i]))
        && snapshot_of(f, list[i].id) == Ok::<bool, StopView>(list[i].snapshot) by {
        assert(list.contains(list[i]));
        let k = out.index_of(list[i]);
        assert(out[k] == list[i]);
    }
}

/// Every subvolume is listed once, by ascending id, and only those with the id of one.
pub proof fn law_each_subvolume_is_listed_once(f: FsView, list: Seq<SubvolView>)
    requires
        sound(f, f.sb.root, all_roots()),
        subvols_of(f) matches Ok(out) && stably_sorted::<Subvol>(out, list),
    ensures
        forall|i: int|
            0 <= i < list.len() ==> FIRST_FREE_OBJECTID <= (#[trigger] list[i]).id
                <= LAST_FREE_OBJECTID,
        forall|i: int, j: int|
            0 <= i < j < list.len() ==> (#[trigger] list[i]).id < (#[trigger] list[j]).id,
{
    let out = subvols_of(f)->Ok_0;
    lemma_subvols_drawn(f, out);
    law_sorted_form_keeps_the_values::<Subvol>(out, list);
    let p = choose|p: Seq<int>| #[trigger]
        sorted_positions::<Subvol>(out, p) && list == Seq::new(p.len(), |i: int| out[p[i]]);
    lemma_positions_distinct::<Subvol>(out, p);
    assert forall|i: int| 0 <= i < list.len() implies FIRST_FREE_OBJECTID <= (
    #[trigger] list[i]).id <= LAST_FREE_OBJECTID by {
        assert(list[i] == out[p[i]]);
    }
    assert forall|i: int, j: int| 0 <= i < j < list.len() implies (#[trigger] list[i]).id < (
    #[trigger] list[j]).id by {
        assert(list[i] == out[p[i]] && list[j] == out[p[j]]);
        assert(p[i] != p[j]);
    }
}

/// A subvolume has the path that its back reference gives it: below `base`, the path of its
/// parent without the leading slash, through the directories of the parent, to its name.
pub open spec fn hangs_from(
    f: FsView,
    refs: Map<u64, BackrefView>,
    s: SubvolView,
    base: Seq<char>,
) -> bool {
    let b = refs[s.id];
    &&& refs.contains_key(s.id)
    &&& s.parent == b.parent
    &&& path_in(f, b.parent, b.dirid) matches Ok(dir) && s.path == seq!['/'] + chained(
        base,
        dir,
        b.name,
    )
}

/// The subvolume that was placed as number `i` hangs from the top-level one, or from one that
/// was placed before it.
pub open spec fn hangs(
    f: FsView,
    refs: Map<u64, BackrefView>,
    out: Seq<SubvolView>,
    i: int,
) -> bool {
    ||| out[i].parent == FS_TREE_OBJECTID && hangs_from(f, refs, out[i], seq![])
    ||| exists|j: int|
        0 <= j < i && (#[trigger] out[j]).id == out[i].parent && out[j].path.len() > 0
            && out[j].path[0] == '/' && hangs_from(f, refs, out[i], out[j].path.skip(1))
}

/// Every path that is known is that of a subvolume in the list, or the empty one of the
/// top-level subvolume.
spec fn has_paths(
    f: FsView,
    refs: Map<u64, BackrefView>,
    paths: Map<u64, Seq<char>>,
    out: Seq<SubvolView>,
) -> bool {
    &&& forall|id: u64| #[trigger]
        paths.contains_key(id) ==> id == FS_TREE_OBJECTID && paths[id] == Seq::<char>::empty()
            || exists|j: int|
            0 <= j < out.len() && (#[trigger] out[j]).id == id && out[j].path == seq!['/']
                + paths[id]
    &&& forall|i: int| 0 <= i < out.len() ==> #[trigger] hangs(f, refs, out, i)
}

proof fn lemma_place_one_hangs(
    f: FsView,
    p: PlacedView,
    it: RootInfo,
    refs: Map<u64, BackrefView>,
)
    requires
        has_paths(f, refs, p.paths, p.out),
    ensures
        place_one(f, p, it, refs) matches Ok(q) ==> has_paths(f, refs, q.paths, q.out),
{
    if let Ok(q) = place_one(f, p, it, refs) {
        if q.out.len() > p.out.len() {
            let n = p.out.len() as int;
            let b = refs[it.id];
            assert forall|id: u64| #[trigger] q.paths.contains_key(id) implies id
                == FS_TREE_OBJECTID && q.paths[id] == Seq::<char>::empty() || exists|j: int|
                0 <= j < q.out.len() && (#[trigger] q.out[j]).id == id && q.out[j].path == seq!['/']
                    + q.paths[id] by {
                if id == it.id {
                    assert(q.out[n].id == id);
                } else {
                    assert(p.paths.contains_key(id));
                    if !(id == FS_TREE_OBJECTID && p.paths[id] == Seq::<char>::empty()) {
                        let j = choose|j: int|
                            0 <= j < p.out.len() && (#[trigger] p.out[j]).id == id
                                && p.out[j].path == seq!['/'] + p.paths[id];
                        assert(q.out[j].id == id);
                    }
                }
            }
            assert forall|i: int| 0 <= i < q.out.len() implies #[trigger] hangs(
                f,
                refs,
                q.out,
                i,
            ) by {
                if i < n {
                    assert(hangs(f, refs, p.out, i));
                    assert(q.out[i] == p.out[i]);
                    if !(p.out[i].parent == FS_TREE_OBJECTID && hangs_from(
                        f,
                        refs,
                        p.out[i],
                        seq![],
                    )) {
                        let j = choose|j: int|
                            0 <= j < i && (#[trigger] p.out[j]).id == p.out[i].parent
                                && p.out[j].path.len() > 0 && p.out[j].path[0] == '/'
                                && hangs_from(f, refs, p.out[i], p.out[j].path.skip(1));
                        assert(q.out[j] == p.out[j]);
                    }
                } else {
                    assert(p.paths.contains_key(b.parent));
                    if !(b.parent == FS_TREE_OBJECTID && p.paths[b.parent] == Seq::<
                        char,
                    >::empty()) {
                        let j = choose|j: int|
                            0 <= j < p.out.len() && (#[trigger] p.out[j]).id == b.parent
                                && p.out[j].path == seq!['/'] + p.paths[b.parent];
                        assert(q.out[j] == p.out[j]);
                        assert(q.out[j].path.skip(1) =~= p.paths[b.parent]);
                    } else {
                        assert(p.paths[b.parent] =~= seq![]);
                    }
                }
            }
        }
    }
}

proof fn lemma_place_all_hangs(
    f: FsView,
    p: PlacedView,
    pending: Seq<RootInfo>,
    refs: Map<u64, BackrefView>,
)
    requires
        has_paths(f, refs, p.paths, p.out),
    ensures
        place_all(f, p, pending, refs) matches Ok(q) ==> has_paths(f, refs, q.paths, q.out),
    decreases pending.len(),
{
    if pending.len() > 0 {
        lemma_place_all_hangs(f, p, pending.drop_last(), refs);
        if let Ok(q) = place_all(f, p, pending.drop_last(), refs) {
            lemma_place_one_hangs(f, q, pending.last(), refs);
        }
    }
}

proof fn lemma_rounds_hang(
    f: FsView,
    p: PlacedView,
    pending: Seq<RootInfo>,
    refs: Map<u64, BackrefView>,
)
    requires
        has_paths(f, refs, p.paths, p.out),
    ensures
        place_rounds(f, p, pending, refs) matches Ok(q) ==> has_paths(f, refs, q.paths, q.out),
    decreases pending.len(),
{
    if pending.len() > 0 {
        let start = PlacedView { next: seq![], ..p };
        lemma_place_all_hangs(f, start, pending, refs);
        if let Ok(q) = place_all(f, start, pending, refs) {
            if q.next.len() < pending.len() {
                lemma_rounds_hang(f, PlacedView { next: seq![], ..q }, q.next, refs);
            }
        }
    }
}

/// The back references of the root tree.
pub open spec fn refs_of(f: FsView) -> Map<u64, BackrefView> {
    (roots_in(tree_walk(f, f.sb.root, all_roots()).items)->Ok_0).refs
}

/// The path begins with a slash, and with that of the parent where the parent is listed.
pub open spec fn begins_with_parent(out: Seq<SubvolView>, i: int) -> bool {
    &&& out[i].path.len() > 0 && out[i].path[0] == '/'
    &&& out[i].parent == FS_TREE_OBJECTID || exists|j: int|
        0 <= j < i && (#[trigger] out[j]).id == out[i].parent && out[j].path.is_prefix_of(
            out[i].path,
        )
}

/// It begins with that of the parent and a slash.
pub open spec fn lies_below_parent(out: Seq<SubvolView>, i: int) -> bool {
    out[i].parent == FS_TREE_OBJECTID || exists|j: int|
        0 <= j < i && (#[trigger] out[j]).id == out[i].parent && out[j].path.push(
            '/',
        ).is_prefix_of(out[i].path)
}

/// No subvolume has the empty name.
pub open spec fn are_named(refs: Map<u64, BackrefView>) -> bool {
    forall|id: u64| #[trigger] refs.contains_key(id) ==> refs[id].name.len() > 0
}

/// Every subvolume listed has an absolute path, which its back reference gives it below the
/// path of its parent; the parent is the top-level subvolume or is listed too, and its path is
/// where the path begins, with a slash after it where no name is empty.
pub proof fn law_paths_hang_together(f: FsView, out: Seq<SubvolView>)
    requires
        subvols_of(f) == Ok::<Seq<SubvolView>, StopView>(out),
    ensures
        forall|i: int|
            0 <= i < out.len() ==> {
                &&& #[trigger] hangs(f, refs_of(f), out, i)
                &&& begins_with_parent(out, i)
                &&& are_named(refs_of(f)) ==> lies_below_parent(out, i)
            },
{
    let r = roots_in(tree_walk(f, f.sb.root, all_roots()).items)->Ok_0;
    lemma_rounds_hang(f, nothing_placed(), deduped(r.roots), r.refs);
    assert forall|i: int| 0 <= i < out.len() implies {
        &&& #[trigger] hangs(f, refs_of(f), out, i)
        &&& begins_with_parent(out, i)
        &&& are_named(refs_of(f)) ==> lies_below_parent(out, i)
    } by {
        lemma_begins(f, out, i);
    }
}

proof fn lemma_begins(f: FsView, out: Seq<SubvolView>, i: int)
    requires
        0 <= i < out.len(),
        forall|k: int| 0 <= k < out.len() ==> #[trigger] hangs(f, refs_of(f), out, k),
    ensures
        begins_with_parent(out, i),
        are_named(refs_of(f)) ==> lies_below_parent(out, i),
{
    let refs = refs_of(f);
    let s = out[i];
    let b = refs[s.id];
    let dir = path_in(f, b.parent, b.dirid)->Ok_0;
    assert(hangs(f, refs, out, i));
    if !(s.parent == FS_TREE_OBJECTID && hangs_from(f, refs, s, seq![])) {
        let j = choose|j: int|
            0 <= j < i && (#[trigger] out[j]).id == s.parent && out[j].path.len() > 0
                && out[j].path[0] == '/' && hangs_from(f, refs, s, out[j].path.skip(1));
        let base = out[j].path.skip(1);
        lemma_chained_begins(base, dir, b.name);
        let path = chained(base, dir, b.name);
        assert(out[j].path =~= seq!['/'] + base);
        assert((seq!['/'] + path).take(out[j].path.len() as int) =~= seq!['/'] + path.take(
            base.len() as int,
        ));
        assert(out[j].path =~= s.path.subrange(0, out[j].path.len() as int));
        assert(out[j].id == s.parent);
        if are_named(refs) {
            assert(hangs(f, refs, out, j));
            lemma_named(f, refs, out, j);
            assert(s.path.subrange(0, (out[j].path.len() + 1) as int) =~= s.path.subrange(
                0,
                out[j].path.len() as int,
            ).push(s.path[out[j].path.len() as int]));
            assert(out[j].path.push('/') =~= s.path.subrange(0, (out[j].path.len() + 1) as int));
        }
    }
}

/// A subvolume with a name has a path beyond the slash.
proof fn lemma_named(f: FsView, refs: Map<u64, BackrefView>, out: Seq<SubvolView>, i: int)
    requires
        hangs(f, refs, out, i),
        are_named(refs),
    ensures
        out[i].path.len() > 1,
{
    let s = out[i];
    let b = refs[s.id];
    let dir = path_in(f, b.parent, b.dirid)->Ok_0;
    if s.parent == FS_TREE_OBJECTID && hangs_from(f, refs, s, seq![]) {
        lemma_chained_begins(seq![], dir, b.name);
    } else {
        let j = choose|j: int|
            0 <= j < i && (#[trigger] out[j]).id == s.parent && out[j].path.len() > 0
                && out[j].path[0] == '/' && hangs_from(f, refs, s, out[j].path.skip(1));
        lemma_chained_begins(out[j].path.skip(1), dir, b.name);
    }
}

/// A chained path begins with its first part, with a slash after it where more follows.
proof fn lemma_chained_begins(a: Seq<char>, b: Seq<char>, c: Seq<char>)
    ensures
        a.len() <= chained(a, b, c).len(),
        chained(a, b, c).take(a.len() as int) == a,
        c.len() > 0 ==> chained(a, b, c).len() > 0,
        a.len() > 0 && c.len() > 0 ==> chained(a, b, c).len() > a.len() && chained(a, b, c)[
            a.len() as int
        ] == '/',
{
    let pred = |s: Seq<char>| s.len() > 0;
    let all = seq![a, b, c];
    reveal(Seq::filter);
    reveal_with_fuel(Seq::filter, 4);
    reveal_with_fuel(crate::subvol::slashed, 4);
    assert(all.drop_last() =~= seq![a, b]);
    assert(all.drop_last().drop_last() =~= seq![a]);
    assert(all.drop_last().drop_last().drop_last() =~= seq![]);
    let one = seq![a].filter(pred);
    let two = seq![a, b].filter(pred);
    let three = all.filter(pred);
    if a.len() == 0 {
        assert(chained(a, b, c).take(0) =~= a);
    } else {
        assert(one =~= seq![a]);
        if b.len() > 0 {
            assert(two =~= seq![a, b]);
            assert(seq![a, b].drop_last() =~= seq![a]);
            if c.len() > 0 {
                assert(three =~= seq![a, b, c]);
            }
        } else {
            assert(two =~= seq![a]);
            if c.len() > 0 {
                assert(three =~= seq![a, c]);
                assert(seq![a, c].drop_last() =~= seq![a]);
            }
        }
        assert(chained(a, b, c).take(a.len() as int) =~= a);
    }
}

} // verus!
