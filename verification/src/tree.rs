//! Tree blocks and the walk over the items of a tree.

use vstd::prelude::*;
use vstd::slice::*;

use crate::disk::{
    cut, key_field, lemma_le_fits, short, u32_at, u32_field, u64_at, u64_field, Key, HEADER_SIZE,
};
use crate::error::{plain, Error, ErrorKind, ErrorView};
use crate::fs::{node_ok, nritems_of, Fs, FsView, Stop, StopView};
use crate::model::{lemma_views_push, same, views};

verus! {

/// The height of a tree block; the leaves are at level 0.
pub open spec fn level_of(b: Seq<u8>) -> u8 {
    b[100]
}

/// The bytes of an item, which a leaf keeps `off` past its header.
pub open spec fn item_data(b: Seq<u8>, off: int, size: int) -> Result<Seq<u8>, ErrorView> {
    if short(b, 101 + off, size) {
        Err(cut(b, 101 + off, size))
    } else {
        Ok(b.subrange(101 + off, 101 + off + size))
    }
}

/// Item `i` of a leaf.
pub open spec fn item_of(b: Seq<u8>, i: int) -> Result<ItemView, ErrorView> {
    match (
        key_field(b, 101 + i * 25),
        u32_field(b, 101 + i * 25 + 17),
        u32_field(b, 101 + i * 25 + 21),
    ) {
        (Err(e), _, _) => Err(e),
        (_, Err(e), _) => Err(e),
        (_, _, Err(e)) => Err(e),
        (Ok(key), Ok(off), Ok(size)) => match item_data(b, off as int, size as int) {
            Err(e) => Err(e),
            Ok(data) => Ok(ItemView { key, data }),
        },
    }
}

/// Pointer `i` of an inner block: the first key below it and the address of the child.
pub open spec fn ptr_of(b: Seq<u8>, i: int) -> Result<(Key, u64), ErrorView> {
    match (key_field(b, 101 + i * 33), u64_field(b, 101 + i * 33 + 17)) {
        (Err(e), _) => Err(e),
        (_, Err(e)) => Err(e),
        (Ok(key), Ok(child)) => Ok((key, child)),
    }
}

/// An item of a tree.
pub struct Item {
    pub key: Key,
    pub data: Vec<u8>,
}

#[verifier::ext_equal]
pub struct ItemView {
    pub key: Key,
    pub data: Seq<u8>,
}

impl View for Item {
    type V = ItemView;

    open spec fn view(&self) -> ItemView {
        ItemView { key: self.key, data: self.data@ }
    }
}

/// The items a walk came by, and how it ended: at the end of the tree (`true`), stopped
/// before it (`false`), or on an error or a missing block.
#[verifier::ext_equal]
pub struct WalkView {
    pub items: Seq<ItemView>,
    pub end: Result<bool, StopView>,
}

pub struct Walk {
    pub items: Vec<Item>,
    pub end: Result<bool, Stop>,
}

impl View for Walk {
    type V = WalkView;

    open spec fn view(&self) -> WalkView {
        WalkView {
            items: views(self.items@),
            end: match self.end {
                Ok(b) => Ok(b),
                Err(s) => Err(s@),
            },
        }
    }
}

/// What a walk looks for: items with `min <= key <= max`, all of them or only the first.
#[derive(Clone, Copy, Debug, PartialEq, Eq, Structural)]
pub struct Query {
    pub min: Key,
    pub max: Key,
    pub first: bool,
}

/// A walk that found nothing.
pub open spec fn ended(end: Result<bool, StopView>) -> WalkView {
    WalkView { items: seq![], end }
}

/// `a`, and then `b` where `a` went to its end.
pub open spec fn followed(a: WalkView, b: WalkView) -> WalkView {
    match a.end {
        Ok(true) => WalkView { items: a.items + b.items, end: b.end },
        _ => a,
    }
}

/// The walk of a leaf from item `i` on.
pub open spec fn leaf_walk(b: Seq<u8>, q: Query, i: int) -> WalkView
    decreases nritems_of(b) - i,
{
    if i >= nritems_of(b) {
        ended(Ok(true))
    } else {
        match item_of(b, i) {
            Err(e) => ended(Err(StopView::Error(e))),
            Ok(item) => if item.key.precedes(q.min) {
                leaf_walk(b, q, i + 1)
            } else if q.max.precedes(item.key) {
                ended(Ok(false))
            } else if q.first {
                WalkView { items: seq![item], end: Ok(false) }
            } else {
                followed(WalkView { items: seq![item], end: Ok(true) }, leaf_walk(b, q, i + 1))
            },
        }
    }
}

/// The walk of the children of an inner block from pointer `i` on. A child holds keys
/// below its right sibling's first key, so one whose sibling starts no higher than `min`
/// is passed over.
pub open spec fn inner_walk(f: FsView, b: Seq<u8>, q: Query, depth: int, i: int) -> WalkView
    decreases 9 - depth, 1int, nritems_of(b) - i,
{
    if i >= nritems_of(b) {
        ended(Ok(true))
    } else {
        match ptr_of(b, i) {
            Err(e) => ended(Err(StopView::Error(e))),
            Ok((key, child)) => if q.max.precedes(key) {
                ended(Ok(false))
            } else if i + 1 < nritems_of(b) && ptr_of(b, i + 1) is Err {
                ended(Err(StopView::Error(ptr_of(b, i + 1)->Err_0)))
            } else if i + 1 < nritems_of(b) && (ptr_of(b, i + 1)->Ok_0).0.at_most(q.min) {
                inner_walk(f, b, q, depth, i + 1)
            } else if depth >= 8 {
                ended(Err(StopView::Error(plain(ErrorKind::TooDeep))))
            } else {
                followed(
                    node_walk(f, child, q, depth + 1, Some((level_of(b) - 1) as u8)),
                    inner_walk(f, b, q, depth, i + 1),
                )
            },
        }
    }
}

/// The walk of the block at `logical`, which must have the level that its parent expects.
pub open spec fn node_walk(
    f: FsView,
    logical: u64,
    q: Query,
    depth: int,
    expect: Option<u8>,
) -> WalkView
    decreases 9 - depth, 2int, 0int,
{
    match f.node(logical) {
        Err(s) => ended(Err(s)),
        Ok(b) => if expect is Some && level_of(b) != expect->0 {
            ended(
                Err(
                    StopView::Error(
                        plain(
                            ErrorKind::WrongLevel {
                                logical,
                                level: level_of(b) as u64,
                                expected: expect->0 as u64,
                            },
                        ),
                    ),
                ),
            )
        } else if level_of(b) == 0 {
            leaf_walk(b, q, 0)
        } else {
            inner_walk(f, b, q, depth, 0)
        },
    }
}

/// The walk of the tree whose topmost block is at `root`.
pub open spec fn tree_walk(f: FsView, root: u64, q: Query) -> WalkView {
    node_walk(f, root, q, 0, None)
}

fn nritems(b: &[u8]) -> (n: usize)
    requires
        node_ok(b@, b@.len() as int),
        4096 <= b@.len() <= 65536,
    ensures
        n == nritems_of(b@),
        n <= 65536,
        101 + n * 25 <= b@.len(),
{
    proof {
        lemma_le_fits(b@, 96);
    }
    match u32_at(b, 96) {
        Ok(n) => n as usize,
        Err(_) => 0,
    }
}

fn item<'a>(b: &'a [u8], i: usize) -> (r: Result<(Key, &'a [u8]), Error>)
    requires
        b@.len() <= 65536,
        101 + i * 25 + 25 <= b@.len(),
    ensures
        match r {
            Ok((key, data)) => item_of(b@, i as int) == Ok::<ItemView, ErrorView>(
                ItemView { key, data: data@ },
            ),
            Err(e) => item_of(b@, i as int) == Err::<ItemView, ErrorView>(e@),
        },
{
    let o: usize = HEADER_SIZE + i * 25;
    let key = Key::parse(b, o)?;
    let off: u64 = u32_at(b, o + 17)? as u64;
    let size: u64 = u32_at(b, o + 21)? as u64;
    if 101 + off + size <= b.len() as u64 {
        let from: usize = 101 + off as usize;
        Ok((key, slice_subrange(b, from, from + size as usize)))
    } else {
        Err(
            Error::plain(
                ErrorKind::Truncated { len: size, off: 101 + off, have: b.len() as u64 },
            ),
        )
    }
}

fn ptr(b: &[u8], i: usize) -> (r: Result<(Key, u64), Error>)
    requires
        i <= 65536,
        b@.len() <= 65536,
    ensures
        same(r, ptr_of(b@, i as int)),
{
    let o: usize = HEADER_SIZE + i * 33;
    let key = Key::parse(b, o)?;
    let child = u64_at(b, o + 17)?;
    Ok((key, child))
}

impl Fs {
    fn walk_leaf(&self, b: &[u8], q: Query, out: &mut Vec<Item>) -> (r: Result<bool, Stop>)
        requires
            node_ok(b@, b@.len() as int),
            4096 <= b@.len() <= 65536,
        ensures
            views(final(out)@) == views(old(out)@) + leaf_walk(b@, q, 0).items,
            same(r, leaf_walk(b@, q, 0).end),
    {
        let ghost before = views(out@);
        let ghost all = leaf_walk(b@, q, 0);
        let n: usize = nritems(b);
        let mut i: usize = 0;
        assert(before + all.items =~= views(out@) + leaf_walk(b@, q, 0).items);
        while i < n
            invariant
                i <= n,
                n == nritems_of(b@),
                101 + n * 25 <= b@.len() <= 65536,
                before + all.items == views(out@) + leaf_walk(b@, q, i as int).items,
                all.end == leaf_walk(b@, q, i as int).end,
                before == views(old(out)@),
                all == leaf_walk(b@, q, 0),
            decreases n - i,
        {
            let (key, data) = match item(b, i) {
                Ok(x) => x,
                Err(e) => {
                    return Err(Stop::Error(e));
                },
            };
            if !key.before(&q.min) {
                if q.max.before(&key) {
                    return Ok(false);
                }
                let ghost sofar = views(out@);
                let found = Item { key, data: slice_to_vec(data) };
                let ghost v = found@;
                proof {
                    lemma_views_push(out@, found);
                }
                out.push(found);
                if q.first {
                    assert(sofar + seq![v] =~= views(out@));
                    return Ok(false);
                }
                let ghost rest = leaf_walk(b@, q, i + 1).items;
                assert(sofar + (seq![v] + rest) =~= views(out@) + rest);
            }
            i += 1;
        }
        assert(views(out@) + seq![] =~= views(out@));
        Ok(true)
    }

    fn walk_node(
        &self,
        logical: u64,
        q: Query,
        depth: u8,
        expect: Option<u8>,
        out: &mut Vec<Item>,
    ) -> (r: Result<bool, Stop>)
        requires
            self@.wf(),
            depth <= 8,
        ensures
            views(final(out)@) == views(old(out)@) + node_walk(
                self@,
                logical,
                q,
                depth as int,
                expect,
            ).items,
            same(r, node_walk(self@, logical, q, depth as int, expect).end),
        decreases 9 - depth,
    {
        let ghost before = views(out@);
        let ghost all = node_walk(self@, logical, q, depth as int, expect);
        let b = match self.read_node(logical) {
            Ok(v) => v.as_slice(),
            Err(s) => {
                assert(before + all.items =~= before);
                return Err(s);
            },
        };
        assert(node_ok(b@, b@.len() as int));
        let level: u8 = b[100];
        if let Some(expected) = expect {
            if level != expected {
                assert(before + all.items =~= before);
                return Err(
                    Stop::Error(
                        Error::plain(
                            ErrorKind::WrongLevel {
                                logical,
                                level: level as u64,
                                expected: expected as u64,
                            },
                        ),
                    ),
                );
            }
        }
        if level == 0 {
            return self.walk_leaf(b, q, out);
        }
        let n: usize = nritems(b);
        let mut i: usize = 0;
        while i < n
            invariant
                i <= n <= 65536,
                n == nritems_of(b@),
                b@.len() <= 65536,
                self@.wf(),
                depth <= 8,
                level == level_of(b@),
                level != 0,
                before + all.items == views(out@) + inner_walk(
                    self@,
                    b@,
                    q,
                    depth as int,
                    i as int,
                ).items,
                all.end == inner_walk(self@, b@, q, depth as int, i as int).end,
                before == views(old(out)@),
                all == node_walk(self@, logical, q, depth as int, expect),
            decreases n - i,
        {
            let (key, child) = match ptr(b, i) {
                Ok(x) => x,
                Err(e) => {
                    return Err(Stop::Error(e));
                },
            };
            if q.max.before(&key) {
                return Ok(false);
            }
            let mut passed = false;
            if i + 1 < n {
                match ptr(b, i + 1) {
                    Ok((next, _)) => {
                        passed = !q.min.before(&next);
                        assert(passed == next.at_most(q.min));
                    },
                    Err(e) => {
                        return Err(Stop::Error(e));
                    },
                }
            }
            if !passed {
                if depth == 8 {
                    return Err(Stop::Error(Error::plain(ErrorKind::TooDeep)));
                }
                let ghost sofar = views(out@);
                let ghost below = node_walk(self@, child, q, depth + 1, Some((level - 1) as u8));
                let ghost rest = inner_walk(self@, b@, q, depth as int, i + 1);
                match self.walk_node(child, q, depth + 1, Some(level - 1), out) {
                    Ok(true) => {
                        assert(sofar + (below.items + rest.items) =~= views(out@) + rest.items);
                    },
                    other => {
                        return other;
                    },
                }
            }
            i += 1;
        }
        assert(views(out@) + seq![] =~= views(out@));
        Ok(true)
    }

    /// The items with `min <= key <= max` under the block at `root`, in order, or only the
    /// first of them.
    pub fn walk(&self, root: u64, q: Query) -> (w: Walk)
        requires
            self@.wf(),
        ensures
            w@ == tree_walk(self@, root, q),
    {
        let mut items: Vec<Item> = Vec::new();
        let end = self.walk_node(root, q, 0, None, &mut items);
        let w = Walk { items, end };
        assert(w@.items =~= tree_walk(self@, root, q).items);
        w
    }
}

} // verus!
