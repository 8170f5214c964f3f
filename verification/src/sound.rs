//! What a walk finds in a sound tree: every item in the range asked for, in order.

use vstd::prelude::*;

use crate::checksum::crc32c_value;
use crate::disk::{le, Key};
use crate::fs::{is_genuine, judged, nritems_of, FsView, Judged, Request, StopView};
use crate::lookup::{exactly, item_at};
use crate::tree::{
    followed, inner_walk, item_of, leaf_walk, level_of, node_walk, ptr_of, tree_walk, ItemView,
    Query, WalkView,
};

verus! {

/// The key lies in `[lo, hi)`, where a missing `hi` is no bound.
pub open spec fn within_bounds(k: Key, lo: Key, hi: Option<Key>) -> bool {
    lo.at_most(k) && (hi matches Some(h) ==> k.precedes(h))
}

/// The items of a leaf from item `i` on can be read, stand in ascending order and lie in
/// the bounds.
pub open spec fn leaf_sound(b: Seq<u8>, i: int, lo: Key, hi: Option<Key>) -> bool
    decreases nritems_of(b) - i,
{
    i >= nritems_of(b) || {
        &&& item_of(b, i) is Ok
        &&& within_bounds((item_of(b, i)->Ok_0).key, lo, hi)
        &&& i + 1 < nritems_of(b) && item_of(b, i + 1) is Ok ==> (item_of(
            b,
            i,
        )->Ok_0).key.precedes((item_of(b, i + 1)->Ok_0).key)
        &&& leaf_sound(b, i + 1, lo, hi)
    }
}

/// The upper bound of what lies below pointer `i` of an inner block.
pub open spec fn child_hi(b: Seq<u8>, i: int, hi: Option<Key>) -> Option<Key> {
    if i + 1 < nritems_of(b) {
        Some((ptr_of(b, i + 1)->Ok_0).0)
    } else {
        hi
    }
}

/// What lies below pointer `i` of an inner block may have a key in the range `r`.
pub open spec fn reached(b: Seq<u8>, i: int, r: Query) -> bool {
    &&& !r.max.precedes((ptr_of(b, i)->Ok_0).0)
    &&& i + 1 < nritems_of(b) ==> !(ptr_of(b, i + 1)->Ok_0).0.at_most(r.min)
}

/// The pointers of an inner block from pointer `i` on can be read, ascend and lie in the
/// bounds, and below each that the range `r` reaches lies a tree that is sound there, with the
/// keys from its own up to the next.
pub open spec fn inner_sound(
    f: FsView,
    b: Seq<u8>,
    r: Query,
    depth: int,
    i: int,
    lo: Key,
    hi: Option<Key>,
) -> bool
    decreases 9 - depth, 1int, nritems_of(b) - i,
{
    i >= nritems_of(b) || {
        let (key, child) = ptr_of(b, i)->Ok_0;
        &&& depth < 8
        &&& ptr_of(b, i) is Ok
        &&& within_bounds(key, lo, hi)
        &&& i + 1 < nritems_of(b) ==> ptr_of(b, i + 1) is Ok && key.precedes(
            (ptr_of(b, i + 1)->Ok_0).0,
        )
        &&& reached(b, i, r) ==> tree_sound(
            f,
            child,
            r,
            depth + 1,
            Some((level_of(b) - 1) as u8),
            key,
            child_hi(b, i, hi),
        )
        &&& inner_sound(f, b, r, depth, i + 1, lo, hi)
    }
}

/// Of the tree below the block at `logical`, the blocks that the range `r` reaches are at hand
/// and in order, their keys in the bounds.
pub open spec fn tree_sound(
    f: FsView,
    logical: u64,
    r: Query,
    depth: int,
    expect: Option<u8>,
    lo: Key,
    hi: Option<Key>,
) -> bool
    decreases 9 - depth, 2int, 0int,
{
    match f.node(logical) {
        Err(_) => false,
        Ok(b) => {
            &&& expect is Some ==> level_of(b) == expect->0
            &&& if level_of(b) == 0 {
                leaf_sound(b, 0, lo, hi)
            } else {
                inner_sound(f, b, r, depth, 0, lo, hi)
            }
        },
    }
}

/// A tree is sound as far as the range `r` of keys reaches: the blocks on the way to a key of
/// the range are at hand and in order. The others need not be there.
pub open spec fn sound(f: FsView, root: u64, r: Query) -> bool {
    tree_sound(f, root, r, 0, None, Key { objectid: 0, ty: 0, offset: 0 }, None)
}

/// The range of all keys: a tree that is sound there is sound as a whole.
pub open spec fn every_key() -> Query {
    Query {
        min: Key { objectid: 0, ty: 0, offset: 0 },
        max: Key { objectid: u64::MAX, ty: u8::MAX, offset: u64::MAX },
        first: false,
    }
}

/// All that the query asks for lies in the range `r`.
pub open spec fn spans(r: Query, q: Query) -> bool {
    r.min.at_most(q.min) && q.max.at_most(r.max)
}

/// The items of a leaf from item `i` on.
pub open spec fn leaf_items(b: Seq<u8>, i: int) -> Seq<ItemView>
    decreases nritems_of(b) - i,
{
    if i >= nritems_of(b) {
        seq![]
    } else {
        seq![item_of(b, i)->Ok_0] + leaf_items(b, i + 1)
    }
}

/// The items below the pointers of an inner block from pointer `i` on that the range `r`
/// reaches.
pub open spec fn inner_items(f: FsView, b: Seq<u8>, r: Query, depth: int, i: int) -> Seq<ItemView>
    decreases 9 - depth, 1int, nritems_of(b) - i,
{
    if i >= nritems_of(b) || depth >= 8 {
        seq![]
    } else {
        (if reached(b, i, r) {
            tree_items(f, (ptr_of(b, i)->Ok_0).1, r, depth + 1)
        } else {
            seq![]
        }) + inner_items(f, b, r, depth, i + 1)
    }
}

/// The items below the block at `logical` in blocks that the range `r` reaches, from left to
/// right.
pub open spec fn tree_items(f: FsView, logical: u64, r: Query, depth: int) -> Seq<ItemView>
    decreases 9 - depth, 2int, 0int,
{
    match f.node(logical) {
        Err(_) => seq![],
        Ok(b) => if level_of(b) == 0 {
            leaf_items(b, 0)
        } else {
            inner_items(f, b, r, depth, 0)
        },
    }
}

/// The items of a tree in the blocks that the range `r` reaches, from left to right.
pub open spec fn contents(f: FsView, root: u64, r: Query) -> Seq<ItemView> {
    tree_items(f, root, r, 0)
}

/// The key is one that the query asks for.
pub open spec fn asked(q: Query, k: Key) -> bool {
    !k.precedes(q.min) && !q.max.precedes(k)
}

/// Those of the items that the query asks for: all of them, or only the first.
pub open spec fn answer(q: Query, s: Seq<ItemView>) -> Seq<ItemView> {
    let all = s.filter(|x: ItemView| asked(q, x.key));
    if q.first && all.len() > 1 {
        all.take(1)
    } else {
        all
    }
}

/// Every item has its key in the bounds.
spec fn bounded(s: Seq<ItemView>, lo: Key, hi: Option<Key>) -> bool {
    forall|i: int| 0 <= i < s.len() ==> within_bounds((#[trigger] s[i]).key, lo, hi)
}

/// What a walk owes on a part of a tree with the items `s` and the upper bound `hi`.
spec fn good(w: WalkView, q: Query, s: Seq<ItemView>, hi: Option<Key>) -> bool {
    &&& w.items == answer(q, s)
    &&& w.end is Ok
    &&& w.end->Ok_0 && q.first ==> w.items.len() == 0
    &&& !w.end->Ok_0 ==> q.first && w.items.len() > 0 || (hi matches Some(h) ==> q.max.precedes(h))
}

proof fn lemma_none_asked(q: Query, s: Seq<ItemView>)
    requires
        forall|i: int| 0 <= i < s.len() ==> !asked(q, (#[trigger] s[i]).key),
    ensures
        answer(q, s) == Seq::<ItemView>::empty(),
    decreases s.len(),
{
    reveal(Seq::filter);
    if s.len() > 0 {
        assert forall|i: int| 0 <= i < s.len() - 1 implies !asked(
            q,
            (#[trigger] s.drop_last()[i]).key,
        ) by {
            assert(s.drop_last()[i] == s[i]);
        }
        lemma_none_asked(q, s.drop_last());
        assert(!asked(q, s[s.len() - 1].key));
    }
    assert(answer(q, s) =~= Seq::<ItemView>::empty());
}

/// The answer for two parts is that for the first, then that for the second, unless the
/// first one found was all that was asked for.
proof fn lemma_answer_add(q: Query, a: Seq<ItemView>, b: Seq<ItemView>)
    ensures
        answer(q, a + b) == if q.first && answer(q, a).len() > 0 {
            answer(q, a)
        } else {
            answer(q, a) + answer(q, b)
        },
{
    let p = |x: ItemView| asked(q, x.key);
    Seq::filter_distributes_over_add(a, b, p);
    assert(answer(q, a + b) =~= if q.first && answer(q, a).len() > 0 {
        answer(q, a)
    } else {
        answer(q, a) + answer(q, b)
    });
}

proof fn lemma_answer_one(q: Query, x: ItemView)
    ensures
        answer(q, seq![x]) == if asked(q, x.key) {
            seq![x]
        } else {
            seq![]
        },
{
    reveal(Seq::filter);
    let s = seq![x];
    assert(s.drop_last() =~= Seq::<ItemView>::empty());
    let p = |x: ItemView| asked(q, x.key);
    assert(s.drop_last().filter(p) =~= Seq::<ItemView>::empty());
    assert(answer(q, s) =~= if asked(q, x.key) {
        seq![x]
    } else {
        seq![]
    });
}

/// The items of a sound leaf lie above its first key.
proof fn lemma_leaf_bounded(b: Seq<u8>, i: int, lo: Key, hi: Option<Key>)
    requires
        leaf_sound(b, i, lo, hi),
    ensures
        bounded(leaf_items(b, i), lo, hi),
        i < nritems_of(b) ==> bounded(leaf_items(b, i), (item_of(b, i)->Ok_0).key, hi),
    decreases nritems_of(b) - i,
{
    if i < nritems_of(b) {
        lemma_leaf_bounded(b, i + 1, lo, hi);
        let x = item_of(b, i)->Ok_0;
        let rest = leaf_items(b, i + 1);
        assert forall|k: int| 0 <= k < leaf_items(b, i).len() implies within_bounds(
            (#[trigger] leaf_items(b, i)[k]).key,
            lo,
            hi,
        ) && within_bounds(leaf_items(b, i)[k].key, x.key, hi) by {
            if k > 0 {
                assert(leaf_items(b, i)[k] == rest[k - 1]);
            }
        }
    }
}

proof fn lemma_leaf(b: Seq<u8>, q: Query, i: int, lo: Key, hi: Option<Key>)
    requires
        leaf_sound(b, i, lo, hi),
    ensures
        good(leaf_walk(b, q, i), q, leaf_items(b, i), hi),
    decreases nritems_of(b) - i,
{
    if i >= nritems_of(b) {
        lemma_none_asked(q, seq![]);
    } else {
        let x = item_of(b, i)->Ok_0;
        let rest = leaf_items(b, i + 1);
        lemma_leaf(b, q, i + 1, lo, hi);
        lemma_answer_one(q, x);
        lemma_answer_add(q, seq![x], rest);
        if x.key.precedes(q.min) {
            assert(seq![] + answer(q, rest) =~= answer(q, rest));
        } else if q.max.precedes(x.key) {
            lemma_leaf_bounded(b, i, lo, hi);
            lemma_none_asked(q, leaf_items(b, i));
        }
    }
}

/// The items below pointer `i`, if the range reaches it.
spec fn below(f: FsView, b: Seq<u8>, r: Query, depth: int, i: int) -> Seq<ItemView> {
    if reached(b, i, r) {
        tree_items(f, (ptr_of(b, i)->Ok_0).1, r, depth + 1)
    } else {
        seq![]
    }
}

proof fn lemma_inner_bounded(
    f: FsView,
    b: Seq<u8>,
    r: Query,
    depth: int,
    i: int,
    lo: Key,
    hi: Option<Key>,
)
    requires
        inner_sound(f, b, r, depth, i, lo, hi),
    ensures
        bounded(inner_items(f, b, r, depth, i), lo, hi),
        i < nritems_of(b) ==> bounded(inner_items(f, b, r, depth, i), (ptr_of(b, i)->Ok_0).0, hi),
    decreases 9 - depth, 1int, nritems_of(b) - i,
{
    if i < nritems_of(b) {
        let (key, child) = ptr_of(b, i)->Ok_0;
        lemma_inner_bounded(f, b, r, depth, i + 1, lo, hi);
        let head = below(f, b, r, depth, i);
        if reached(b, i, r) {
            lemma_tree_bounded(
                f,
                child,
                r,
                depth + 1,
                Some((level_of(b) - 1) as u8),
                key,
                child_hi(b, i, hi),
            );
        }
        let rest = inner_items(f, b, r, depth, i + 1);
        let all = inner_items(f, b, r, depth, i);
        reveal_with_fuel(inner_sound, 2);
        assert forall|k: int| 0 <= k < all.len() implies within_bounds(
            (#[trigger] all[k]).key,
            lo,
            hi,
        ) && within_bounds(all[k].key, key, hi) by {
            if k < head.len() {
                assert(all[k] == head[k]);
            } else {
                assert(all[k] == rest[k - head.len()]);
            }
        }
    }
}

proof fn lemma_tree_bounded(
    f: FsView,
    logical: u64,
    r: Query,
    depth: int,
    expect: Option<u8>,
    lo: Key,
    hi: Option<Key>,
)
    requires
        tree_sound(f, logical, r, depth, expect, lo, hi),
    ensures
        bounded(tree_items(f, logical, r, depth), lo, hi),
    decreases 9 - depth, 2int, 0int,
{
    let b = f.node(logical)->Ok_0;
    if level_of(b) == 0 {
        lemma_leaf_bounded(b, 0, lo, hi);
    } else {
        lemma_inner_bounded(f, b, r, depth, 0, lo, hi);
    }
}

proof fn lemma_inner(
    f: FsView,
    b: Seq<u8>,
    q: Query,
    r: Query,
    depth: int,
    i: int,
    lo: Key,
    hi: Option<Key>,
)
    requires
        inner_sound(f, b, r, depth, i, lo, hi),
        spans(r, q),
    ensures
        good(inner_walk(f, b, q, depth, i), q, inner_items(f, b, r, depth, i), hi),
    decreases 9 - depth, 1int, nritems_of(b) - i,
{
    if i >= nritems_of(b) {
        lemma_none_asked(q, seq![]);
    } else {
        let (key, child) = ptr_of(b, i)->Ok_0;
        let expect = Some((level_of(b) - 1) as u8);
        let head = below(f, b, r, depth, i);
        let rest = inner_items(f, b, r, depth, i + 1);
        lemma_answer_add(q, head, rest);
        lemma_inner_bounded(f, b, r, depth, i, lo, hi);
        lemma_inner(f, b, q, r, depth, i + 1, lo, hi);
        if q.max.precedes(key) {
            lemma_none_asked(q, inner_items(f, b, r, depth, i));
        } else {
            if reached(b, i, r) {
                lemma_tree_bounded(f, child, r, depth + 1, expect, key, child_hi(b, i, hi));
            }
            if i + 1 < nritems_of(b) && (ptr_of(b, i + 1)->Ok_0).0.at_most(q.min) {
                lemma_none_asked(q, head);
                assert(seq![] + answer(q, rest) =~= answer(q, rest));
            } else {
                lemma_tree(f, child, q, r, depth + 1, expect, key, child_hi(b, i, hi));
                let w = node_walk(f, child, q, depth + 1, expect);
                if !w.end->Ok_0 {
                    if i + 1 < nritems_of(b) {
                        if !(q.first && w.items.len() > 0) {
                            lemma_inner_bounded(f, b, r, depth, i + 1, lo, hi);
                            lemma_none_asked(q, rest);
                            assert(answer(q, head) + answer(q, rest) =~= answer(q, head));
                        }
                    } else {
                        assert(rest =~= seq![]);
                        lemma_none_asked(q, rest);
                        assert(answer(q, head) + answer(q, rest) =~= answer(q, head));
                    }
                }
            }
        }
    }
}

proof fn lemma_tree(
    f: FsView,
    logical: u64,
    q: Query,
    r: Query,
    depth: int,
    expect: Option<u8>,
    lo: Key,
    hi: Option<Key>,
)
    requires
        tree_sound(f, logical, r, depth, expect, lo, hi),
        spans(r, q),
    ensures
        good(node_walk(f, logical, q, depth, expect), q, tree_items(f, logical, r, depth), hi),
    decreases 9 - depth, 2int, 0int,
{
    let b = f.node(logical)->Ok_0;
    if level_of(b) == 0 {
        lemma_leaf(b, q, 0, lo, hi);
    } else {
        lemma_inner(f, b, q, r, depth, 0, lo, hi);
    }
}

/// Where a tree is sound as far as the range `r` reaches, a walk within the range does not
/// fail and finds every item whose key is asked for, in the order of the tree, and no other; or
/// the first of them, where no more is asked for.
pub proof fn law_walk_finds_the_range(f: FsView, root: u64, r: Query, q: Query)
    requires
        sound(f, root, r),
        spans(r, q),
    ensures
        tree_walk(f, root, q).end is Ok,
        tree_walk(f, root, q).items == answer(q, contents(f, root, r)),
{
    lemma_tree(f, root, q, r, 0, None, Key { objectid: 0, ty: 0, offset: 0 }, None);
}

/// The items of a sound tree stand in ascending order of their keys, no key twice.
pub proof fn law_contents_ascend(f: FsView, root: u64, r: Query)
    requires
        sound(f, root, r),
    ensures
        forall|i: int, j: int|
            0 <= i < j < contents(f, root, r).len() ==> (#[trigger] contents(
                f,
                root,
                r,
            )[i]).key.precedes((#[trigger] contents(f, root, r)[j]).key),
{
    lemma_tree_ascends(f, root, r, 0, None, Key { objectid: 0, ty: 0, offset: 0 }, None);
}

/// All that any query asks for lies in the range of all keys.
pub proof fn law_every_key_spans(q: Query)
    ensures
        spans(every_key(), q),
{
}

spec fn ascends(s: Seq<ItemView>) -> bool {
    forall|i: int, j: int|
        0 <= i < j < s.len() ==> (#[trigger] s[i]).key.precedes((#[trigger] s[j]).key)
}

/// Two ascending runs make one where a key parts them.
proof fn lemma_ascends_add(a: Seq<ItemView>, b: Seq<ItemView>, lo: Key, mid: Key, hi: Option<Key>)
    requires
        ascends(a),
        ascends(b),
        bounded(a, lo, Some(mid)),
        bounded(b, mid, hi),
    ensures
        ascends(a + b),
{
    assert forall|i: int, j: int| 0 <= i < j < (a + b).len() implies (#[trigger] (a
        + b)[i]).key.precedes((#[trigger] (a + b)[j]).key) by {
        if j < a.len() {
            assert((a + b)[i] == a[i] && (a + b)[j] == a[j]);
        } else if i >= a.len() {
            assert((a + b)[i] == b[i - a.len()] && (a + b)[j] == b[j - a.len()]);
        } else {
            assert((a + b)[i] == a[i] && (a + b)[j] == b[j - a.len()]);
        }
    }
}

proof fn lemma_leaf_ascends(b: Seq<u8>, i: int, lo: Key, hi: Option<Key>)
    requires
        leaf_sound(b, i, lo, hi),
    ensures
        ascends(leaf_items(b, i)),
    decreases nritems_of(b) - i,
{
    if i < nritems_of(b) {
        lemma_leaf_ascends(b, i + 1, lo, hi);
        lemma_leaf_bounded(b, i + 1, lo, hi);
        let x = item_of(b, i)->Ok_0;
        if i + 1 < nritems_of(b) {
            reveal_with_fuel(leaf_sound, 2);
            let mid = (item_of(b, i + 1)->Ok_0).key;
            lemma_ascends_add(seq![x], leaf_items(b, i + 1), lo, mid, hi);
        } else {
            assert(leaf_items(b, i + 1) =~= seq![]);
        }
    }
}

proof fn lemma_inner_ascends(
    f: FsView,
    b: Seq<u8>,
    r: Query,
    depth: int,
    i: int,
    lo: Key,
    hi: Option<Key>,
)
    requires
        inner_sound(f, b, r, depth, i, lo, hi),
    ensures
        ascends(inner_items(f, b, r, depth, i)),
    decreases 9 - depth, 1int, nritems_of(b) - i,
{
    if i < nritems_of(b) {
        let (key, child) = ptr_of(b, i)->Ok_0;
        let expect = Some((level_of(b) - 1) as u8);
        let above = child_hi(b, i, hi);
        if reached(b, i, r) {
            lemma_tree_ascends(f, child, r, depth + 1, expect, key, above);
            lemma_tree_bounded(f, child, r, depth + 1, expect, key, above);
        }
        lemma_inner_ascends(f, b, r, depth, i + 1, lo, hi);
        lemma_inner_bounded(f, b, r, depth, i + 1, lo, hi);
        let head = below(f, b, r, depth, i);
        let rest = inner_items(f, b, r, depth, i + 1);
        if i + 1 < nritems_of(b) {
            lemma_ascends_add(head, rest, key, (ptr_of(b, i + 1)->Ok_0).0, hi);
        } else {
            assert(head + rest =~= head);
        }
    }
}

proof fn lemma_tree_ascends(
    f: FsView,
    logical: u64,
    r: Query,
    depth: int,
    expect: Option<u8>,
    lo: Key,
    hi: Option<Key>,
)
    requires
        tree_sound(f, logical, r, depth, expect, lo, hi),
    ensures
        ascends(tree_items(f, logical, r, depth)),
    decreases 9 - depth, 2int, 0int,
{
    let b = f.node(logical)->Ok_0;
    if level_of(b) == 0 {
        lemma_leaf_ascends(b, 0, lo, hi);
    } else {
        lemma_inner_ascends(f, b, r, depth, 0, lo, hi);
    }
}

/// Whatever the state of the tree, a walk hands out only items whose key was asked for,
/// and at most one where only the first was asked for.
pub proof fn law_walk_stays_in_range(f: FsView, root: u64, q: Query)
    ensures
        forall|i: int|
            0 <= i < tree_walk(f, root, q).items.len() ==> asked(
                q,
                (#[trigger] tree_walk(f, root, q).items[i]).key,
            ),
        q.first ==> tree_walk(f, root, q).items.len() <= 1,
{
    lemma_node_in_range(f, root, q, 0, None);
}

spec fn in_range(w: WalkView, q: Query) -> bool {
    &&& forall|i: int| 0 <= i < w.items.len() ==> asked(q, (#[trigger] w.items[i]).key)
    &&& q.first ==> w.items.len() <= 1 && (w.end == Ok::<bool, StopView>(true) ==> w.items.len()
        == 0)
}

proof fn lemma_followed_in_range(a: WalkView, b: WalkView, q: Query)
    requires
        in_range(a, q),
        in_range(b, q),
    ensures
        in_range(followed(a, b), q),
{
    let w = followed(a, b);
    assert forall|i: int| 0 <= i < w.items.len() implies asked(q, (#[trigger] w.items[i]).key) by {
        if i < a.items.len() {
            assert(w.items[i] == a.items[i]);
        } else {
            assert(w.items[i] == b.items[i - a.items.len()]);
        }
    }
}

proof fn lemma_leaf_in_range(b: Seq<u8>, q: Query, i: int)
    ensures
        in_range(leaf_walk(b, q, i), q),
    decreases nritems_of(b) - i,
{
    if i < nritems_of(b) && item_of(b, i) is Ok {
        lemma_leaf_in_range(b, q, i + 1);
        if !q.first {
            let x = item_of(b, i)->Ok_0;
            if asked(q, x.key) {
                lemma_followed_in_range(
                    WalkView { items: seq![x], end: Ok(true) },
                    leaf_walk(b, q, i + 1),
                    q,
                );
            }
        }
    }
}

proof fn lemma_inner_in_range(f: FsView, b: Seq<u8>, q: Query, depth: int, i: int)
    ensures
        in_range(inner_walk(f, b, q, depth, i), q),
    decreases 9 - depth, 1int, nritems_of(b) - i,
{
    if i < nritems_of(b) && ptr_of(b, i) is Ok {
        let (key, child) = ptr_of(b, i)->Ok_0;
        lemma_inner_in_range(f, b, q, depth, i + 1);
        if depth < 8 {
            let expect = Some((level_of(b) - 1) as u8);
            lemma_node_in_range(f, child, q, depth + 1, expect);
            lemma_followed_in_range(
                node_walk(f, child, q, depth + 1, expect),
                inner_walk(f, b, q, depth, i + 1),
                q,
            );
        }
    }
}

proof fn lemma_node_in_range(f: FsView, logical: u64, q: Query, depth: int, expect: Option<u8>)
    ensures
        in_range(node_walk(f, logical, q, depth, expect), q),
    decreases 9 - depth, 2int, 0int,
{
    if let Ok(b) = f.node(logical) {
        if level_of(b) == 0 {
            lemma_leaf_in_range(b, q, 0);
        } else {
            lemma_inner_in_range(f, b, q, depth, 0);
        }
    }
}

/// `g` knows what `f` knows: whatever is settled about a block in `f` is so in `g`.
pub open spec fn extends(f: FsView, g: FsView) -> bool {
    forall|a: u64| #[trigger] f.node(a) matches Err(StopView::Read(_)) || g.node(a) == f.node(a)
}

/// A walk that waits for a block.
pub open spec fn waits(w: WalkView) -> bool {
    w.end matches Err(StopView::Read(_))
}

/// A walk that came to its end keeps its result when more blocks become known, and one
/// that waits for a block keeps what it has found so far.
pub proof fn law_walk_is_stable(f: FsView, g: FsView, root: u64, q: Query)
    requires
        extends(f, g),
    ensures
        !waits(tree_walk(f, root, q)) ==> tree_walk(g, root, q) == tree_walk(f, root, q),
        tree_walk(f, root, q).items.is_prefix_of(tree_walk(g, root, q).items),
{
    lemma_node_stable(f, g, root, q, 0, None);
}

spec fn stable(v: WalkView, w: WalkView) -> bool {
    &&& !waits(v) ==> w == v
    &&& v.items.is_prefix_of(w.items)
}

proof fn lemma_followed_stable(a: WalkView, b: WalkView, c: WalkView, d: WalkView)
    requires
        stable(a, c),
        stable(b, d),
    ensures
        stable(followed(a, b), followed(c, d)),
{
    let v = followed(a, b);
    let w = followed(c, d);
    assert(v.items =~= w.items.subrange(0, v.items.len() as int));
}

proof fn lemma_inner_stable(f: FsView, g: FsView, b: Seq<u8>, q: Query, depth: int, i: int)
    requires
        extends(f, g),
    ensures
        stable(inner_walk(f, b, q, depth, i), inner_walk(g, b, q, depth, i)),
    decreases 9 - depth, 1int, nritems_of(b) - i,
{
    if i < nritems_of(b) && ptr_of(b, i) is Ok {
        let (key, child) = ptr_of(b, i)->Ok_0;
        lemma_inner_stable(f, g, b, q, depth, i + 1);
        if depth < 8 {
            let expect = Some((level_of(b) - 1) as u8);
            lemma_node_stable(f, g, child, q, depth + 1, expect);
            lemma_followed_stable(
                node_walk(f, child, q, depth + 1, expect),
                inner_walk(f, b, q, depth, i + 1),
                node_walk(g, child, q, depth + 1, expect),
                inner_walk(g, b, q, depth, i + 1),
            );
        }
    }
}

proof fn lemma_node_stable(
    f: FsView,
    g: FsView,
    logical: u64,
    q: Query,
    depth: int,
    expect: Option<u8>,
)
    requires
        extends(f, g),
    ensures
        stable(node_walk(f, logical, q, depth, expect), node_walk(g, logical, q, depth, expect)),
    decreases 9 - depth, 2int, 0int,
{
    if let Ok(b) = f.node(logical) {
        assert(g.node(logical) == f.node(logical));
        if level_of(b) != 0 {
            lemma_inner_stable(f, g, b, q, depth, 0);
        }
    } else {
        assert(f.node(logical) matches Err(StopView::Read(_)) || g.node(logical) == f.node(
            logical,
        ));
    }
}

/// Taking in the reply to the read that is waited for loses nothing that was known, as long
/// as no other block is in the middle of being tried.
pub proof fn law_supply_extends(
    f: FsView,
    req: Request,
    reply: Result<Seq<u8>, Seq<char>>,
)
    requires
        f.attempt matches Some(a) ==> a.logical == req.logical,
    ensures
        extends(f, f.supplied(req, reply)),
{
    let g = f.supplied(req, reply);
    assert forall|a: u64| #[trigger] f.node(a) matches Err(StopView::Read(_)) || g.node(a)
        == f.node(a) by {
        if f.node(req.logical) == Err::<Seq<u8>, StopView>(StopView::Read(req)) {
            assert(!f.nodes.contains_key(req.logical));
        }
    }
}

/// Where a tree is sound, an item is found by its key if and only if it is there, and what is
/// found is its bytes.
pub proof fn law_get_finds_the_item(f: FsView, root: u64, r: Query, key: Key)
    requires
        sound(f, root, r),
        asked(r, key),
    ensures
        match item_at(f, root, key) {
            Err(_) => false,
            Ok(Some(d)) => contents(f, root, r).contains(ItemView { key, data: d }),
            Ok(None) => forall|i: int|
                0 <= i < contents(f, root, r).len() ==> (#[trigger] contents(f, root, r)[i]).key != key,
        },
{
    let q = exactly(key);
    let all = contents(f, root, r);
    let pred = |x: ItemView| asked(q, x.key);
    law_walk_finds_the_range(f, root, r, q);
    let found = all.filter(pred);
    if found.len() > 0 {
        all.lemma_filter_pred(pred, 0);
        all.lemma_filter_contains_rev(pred, found[0]);
    } else {
        assert forall|i: int| 0 <= i < all.len() implies (#[trigger] all[i]).key != key by {
            if all[i].key == key {
                all.lemma_filter_contains(pred, i);
            }
        }
    }
}

/// A block that is used is the one that was asked for: of full size, its header naming its
/// address, and its checksum verified where it can be.
pub proof fn law_blocks_are_verified(f: FsView, logical: u64, b: Seq<u8>)
    requires
        f.wf(),
        f.node(logical) == Ok::<Seq<u8>, StopView>(b),
    ensures
        b.len() == f.sb.nodesize,
        le(b, 48, 8) == logical,
        f.sb.csum_type == 0 ==> le(b, 0, 4) == crc32c_value(0, b.skip(32)),
{
    reveal(is_genuine);
}

/// A reply settles a block or moves on to its next mirror: a good copy is taken, after one
/// that cannot be read or is not genuine the next mirror is asked, and only when there is
/// none left does the block fail, with what was wrong with the last.
pub proof fn law_supply_makes_progress(
    f: FsView,
    req: Request,
    reply: Result<Seq<u8>, Seq<char>>,
)
    requires
        f.node(req.logical) == Err::<Seq<u8>, StopView>(StopView::Read(req)),
    ensures
        ({
            let g = f.supplied(req, reply);
            let tried = f.tried(req.logical) + 1;
            let places = f.mirrors(req.logical, req.len)->Ok_0;
            g.node(req.logical) == match judged(f.sb, req.logical, reply) {
                Judged::Good(b) => Ok::<Seq<u8>, StopView>(b),
                Judged::Next(e) => if tried < places.len() {
                    Err(
                        StopView::Read(
                            Request { devid: places[tried].0, phys: places[tried].1, ..req },
                        ),
                    )
                } else {
                    Err(StopView::Error(e))
                },
                Judged::Fatal(e) => Err(StopView::Error(e)),
            }
        }),
{
}

} // verus!
