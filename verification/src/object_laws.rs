//! Where the objects of a filesystem are: which items of which tree stand for a subvolume, an
//! inode, an entry or an extent.

use vstd::prelude::*;
use vstd::utf8::encode_utf8;

use crate::checksum::crc32c_value;
use crate::disk::{
    dir_entries_of, extent_of, inode_of, DirEntryView, ExtentView, Inode, Key,
};
use crate::error::{ErrorKind, ErrorView};
use crate::format_laws::law_the_numbers_of_the_format;
use crate::fs::{FsView, StopView};
use crate::lookup::{
    default_of, entries_at, entries_in, entry_at, extents_at, extents_in, first_named, inode_at,
    item_at, listing_of, lookup_of, root_of, snapshot_mark, snapshot_of, span, tree_of,
    tree_root_of, EntryView, Loc, TreeRoot,
};
use crate::sound::{
    asked, contents, law_contents_ascend, law_get_finds_the_item, law_walk_finds_the_range, sound,
    spans,
};
use crate::tree::{tree_walk, ItemView, Query};

verus! {

/// The tree at `root`, sound as far as `r` reaches, files the bytes `d` under the key.
pub open spec fn files(f: FsView, root: u64, r: Query, key: Key, d: Seq<u8>) -> bool {
    sound(f, root, r) && asked(r, key) && contents(f, root, r).contains(ItemView { key, data: d })
}

/// It files nothing under the key.
pub open spec fn lacks(f: FsView, root: u64, r: Query, key: Key) -> bool {
    sound(f, root, r) && asked(r, key) && forall|i: int|
        0 <= i < contents(f, root, r).len() ==> (#[trigger] contents(f, root, r)[i]).key != key
}

/// What is filed under a key is found by it, and nothing else is.
pub proof fn law_items_are_found(f: FsView, root: u64, r: Query, key: Key, d: Seq<u8>)
    ensures
        files(f, root, r, key, d) ==> item_at(f, root, key) == Ok::<Option<Seq<u8>>, StopView>(
            Some(d),
        ),
        lacks(f, root, r, key) ==> item_at(f, root, key) == Ok::<Option<Seq<u8>>, StopView>(None),
{
    if files(f, root, r, key, d) || lacks(f, root, r, key) {
        law_get_finds_the_item(f, root, r, key);
        law_contents_ascend(f, root, r);
        let all = contents(f, root, r);
        if let Ok(Some(e)) = item_at(f, root, key) {
            let i = all.index_of(ItemView { key, data: e });
            assert(all[i].key == key);
            if files(f, root, r, key, d) {
                let j = all.index_of(ItemView { key, data: d });
                assert(all[j].key == key);
                assert(i == j);
            }
        } else if files(f, root, r, key, d) {
            let j = all.index_of(ItemView { key, data: d });
            assert(all[j].key == key);
        }
    }
}

/// An inode is the item of type 1 of its number, in the tree of its subvolume.
pub proof fn law_inodes_are_found(f: FsView, loc: Loc, t: TreeRoot, r: Query, d: Seq<u8>, i: Inode)
    requires
        loc.tree != 0,
        tree_of(f, loc.tree) == Ok::<TreeRoot, StopView>(t),
    ensures
        ({
            let key = Key { objectid: loc.ino, ty: 1, offset: 0 };
            &&& files(f, t.bytenr, r, key, d) && inode_of(d) == Ok::<Inode, ErrorView>(i)
                ==> inode_at(f, loc) == Ok::<Inode, StopView>(i)
            &&& lacks(f, t.bytenr, r, key) ==> (inode_at(f, loc) matches Err(StopView::Error(e))
                && e.kind == (ErrorKind::NoInode { ino: loc.ino, tree: loc.tree }))
        }),
{
    law_the_numbers_of_the_format();
    let key = Key { objectid: loc.ino, ty: 1, offset: 0 };
    law_items_are_found(f, t.bytenr, r, key, d);
}

/// The empty directory that stands for a missing subvolume can be entered and read by all, and
/// has nothing in it.
pub proof fn law_placeholders_are_empty(f: FsView, ino: u64, name: Seq<u8>)
    ensures
        ({
            let loc = Loc { tree: 0, ino };
            &&& inode_at(f, loc) matches Ok(i) && i.size == 0 && i.nlink == 1 && i.uid == 0 && i.gid
                == 0 && i.mode == 4 * 4096 + 7 * 64 + 5 * 8 + 5 && i.mtime_sec == 0 && i.mtime_nsec
                == 0
            &&& listing_of(f, loc) == Ok::<Seq<EntryView>, StopView>(seq![])
            &&& lookup_of(f, loc, name) == Ok::<Option<EntryView>, StopView>(None)
        }),
{
}

proof fn lemma_last_kept(s: Seq<ItemView>, pred: spec_fn(ItemView) -> bool, x: ItemView)
    requires
        forall|i: int, j: int|
            0 <= i < j < s.len() ==> (#[trigger] s[i]).key.precedes((#[trigger] s[j]).key),
        s.contains(x),
        pred(x),
        forall|i: int|
            0 <= i < s.len() && pred(#[trigger] s[i]) ==> !x.key.precedes(s[i].key),
    ensures
        s.filter(pred).len() > 0,
        s.filter(pred).last() == x,
    decreases s.len(),
{
    reveal(Seq::filter);
    let k = s.index_of(x);
    let n = s.len() - 1;
    assert(s[k] == x);
    if pred(s[n]) {
        if k < n {
            assert(s[k].key.precedes(s[n].key));
        }
    } else {
        let front = s.drop_last();
        assert(front[k] == x);
        assert forall|i: int, j: int| 0 <= i < j < front.len() implies (
        #[trigger] front[i]).key.precedes((#[trigger] front[j]).key) by {
            assert(front[i] == s[i] && front[j] == s[j]);
        }
        assert forall|i: int| 0 <= i < front.len() && pred(#[trigger] front[i]) implies
            !x.key.precedes(front[i].key) by {
            assert(front[i] == s[i]);
        }
        lemma_last_kept(front, pred, x);
    }
}

pub proof fn lemma_none_kept(s: Seq<ItemView>, pred: spec_fn(ItemView) -> bool)
    requires
        forall|i: int| 0 <= i < s.len() ==> !pred(#[trigger] s[i]),
    ensures
        s.filter(pred).len() == 0,
    decreases s.len(),
{
    reveal(Seq::filter);
    if s.len() > 0 {
        assert(!pred(s[s.len() - 1]));
        assert forall|i: int| 0 <= i < s.drop_last().len() implies !pred(
            #[trigger] s.drop_last()[i],
        ) by {
            assert(s.drop_last()[i] == s[i]);
        }
        lemma_none_kept(s.drop_last(), pred);
    }
}

/// What a query for all items of one type of one object brings.
pub proof fn law_all_of_a_type_are_found(f: FsView, root: u64, r: Query, ino: u64, ty: u8)
    requires
        sound(f, root, r),
        spans(r, span(ino, ty)),
    ensures
        tree_walk(f, root, span(ino, ty)).end is Ok,
        tree_walk(f, root, span(ino, ty)).items == contents(f, root, r).filter(
            |x: ItemView| x.key.objectid == ino && x.key.ty == ty,
        ),
{
    let q = span(ino, ty);
    law_walk_finds_the_range(f, root, r, q);
    let a = |x: ItemView| asked(q, x.key);
    let b = |x: ItemView| x.key.objectid == ino && x.key.ty == ty;
    assert forall|x: ItemView| #[trigger] a(x) == b(x) by {}
    assert(a =~= b);
}

/// A subvolume is the newest root item, of type 132, of its number in the root tree; and it is a
/// snapshot if that item says so.
pub proof fn law_subvolumes_are_found(f: FsView, id: u64, r: Query, newest: u64, d: Seq<u8>)
    requires
        sound(f, f.sb.root, r),
        spans(r, span(id, 132)),
        contents(f, f.sb.root, r).contains(
            ItemView { key: Key { objectid: id, ty: 132, offset: newest }, data: d },
        ),
        forall|i: int|
            0 <= i < contents(f, f.sb.root, r).len() && (#[trigger] contents(
                f,
                f.sb.root,
                r,
            )[i]).key.objectid == id && contents(f, f.sb.root, r)[i].key.ty == 132 ==> contents(
                f,
                f.sb.root,
                r,
            )[i].key.offset <= newest,
    ensures
        match tree_root_of(d) {
            Ok(t) => tree_of(f, id) == Ok::<TreeRoot, StopView>(t),
            Err(e) => tree_of(f, id) == Err::<TreeRoot, StopView>(StopView::Error(e)),
        },
        snapshot_of(f, id) == Ok::<bool, StopView>(snapshot_mark(d)),
{
    law_the_numbers_of_the_format();
    law_all_of_a_type_are_found(f, f.sb.root, r, id, 132);
    law_contents_ascend(f, f.sb.root, r);
    let all = contents(f, f.sb.root, r);
    let x = ItemView { key: Key { objectid: id, ty: 132, offset: newest }, data: d };
    lemma_last_kept(all, |x: ItemView| x.key.objectid == id && x.key.ty == 132, x);
}

/// A number under which the root tree has no root item is no subvolume.
pub proof fn law_missing_subvolumes_are_errors(f: FsView, id: u64, r: Query)
    requires
        sound(f, f.sb.root, r),
        spans(r, span(id, 132)),
        forall|i: int|
            0 <= i < contents(f, f.sb.root, r).len() ==> (#[trigger] contents(
                f,
                f.sb.root,
                r,
            )[i]).key.objectid != id || contents(f, f.sb.root, r)[i].key.ty != 132,
    ensures
        tree_of(f, id) matches Err(StopView::Error(e)) && e.kind == (ErrorKind::NoTree { id }),
        snapshot_of(f, id) == Ok::<bool, StopView>(false),
{
    law_the_numbers_of_the_format();
    law_all_of_a_type_are_found(f, f.sb.root, r, id, 132);
    lemma_none_kept(
        contents(f, f.sb.root, r),
        |x: ItemView| x.key.objectid == id && x.key.ty == 132,
    );
}

/// The top directory is that of subvolume 5.
pub proof fn law_the_top_is_in_tree_five(f: FsView, t: TreeRoot)
    requires
        tree_of(f, 5) == Ok::<TreeRoot, StopView>(t),
    ensures
        root_of(f) == Ok::<Loc, StopView>(Loc { tree: 5, ino: t.root_dirid }),
{
    law_the_numbers_of_the_format();
}

/// An entry leads to the inode it names, in the tree of its directory, under its own name and
/// type.
pub proof fn law_entries_lead_to_inodes(f: FsView, dir: Loc, e: DirEntryView)
    requires
        e.location.ty != 132,
    ensures
        entry_at(f, dir, e) == Ok::<EntryView, StopView>(
            EntryView {
                name: e.name,
                loc: Loc { tree: dir.tree, ino: e.location.objectid },
                ftype: e.ftype,
                subvol: false,
            },
        ),
{
    law_the_numbers_of_the_format();
}

/// An entry that names a subvolume leads to its top directory where the root tree refers from
/// the tree of the directory to it, by an item of type 156; and to a placeholder where it does
/// not, as in a snapshot. It counts as a directory either way.
pub proof fn law_entries_lead_to_subvolumes(
    f: FsView,
    dir: Loc,
    e: DirEntryView,
    t: TreeRoot,
    r: Query,
    d: Seq<u8>,
)
    requires
        e.location.ty == 132,
    ensures
        ({
            let child = e.location.objectid;
            let key = Key { objectid: dir.tree, ty: 156, offset: child };
            &&& files(f, f.sb.root, r, key, d) && tree_of(f, child) == Ok::<TreeRoot, StopView>(t)
                ==> entry_at(f, dir, e) == Ok::<EntryView, StopView>(
                EntryView {
                    name: e.name,
                    loc: Loc { tree: child, ino: t.root_dirid },
                    ftype: 2,
                    subvol: true,
                },
            )
            &&& lacks(f, f.sb.root, r, key) ==> (entry_at(f, dir, e) matches Ok(x) && x.name
                == e.name && x.loc == (Loc { tree: 0, ino: 0 }) && x.ftype == 2 && x.subvol)
        }),
{
    law_the_numbers_of_the_format();
    let key = Key { objectid: dir.tree, ty: 156, offset: e.location.objectid };
    law_items_are_found(f, f.sb.root, r, key, d);
}

proof fn lemma_first_is(s: Seq<DirEntryView>, name: Seq<u8>, k: int)
    requires
        0 <= k < s.len(),
        s[k].name == name,
        forall|i: int| 0 <= i < k ==> (#[trigger] s[i]).name != name,
    ensures
        first_named(s, name) == Some(s[k]),
    decreases s.len(),
{
    if k > 0 {
        assert(s[0].name != name);
        let rest = s.skip(1);
        assert forall|i: int| 0 <= i < k - 1 implies (#[trigger] rest[i]).name != name by {
            assert(rest[i] == s[i + 1]);
        }
        lemma_first_is(rest, name, k - 1);
    }
}

/// A name is looked up by the item of type 84 under its hash, which is the CRC-32C continued from
/// 1 with its bits inverted: the first entry of that very name there is what it leads to; where
/// there is none, or no such item, the directory has no such name.
pub proof fn law_names_are_looked_up(
    f: FsView,
    dir: Loc,
    t: TreeRoot,
    r: Query,
    name: Seq<u8>,
    d: Seq<u8>,
    all: Seq<DirEntryView>,
    k: int,
)
    requires
        dir.tree != 0,
        tree_of(f, dir.tree) == Ok::<TreeRoot, StopView>(t),
    ensures
        ({
            let hash = (u32::MAX - crc32c_value(1, name)) as u64;
            let key = Key { objectid: dir.ino, ty: 84, offset: hash };
            let there = files(f, t.bytenr, r, key, d) && dir_entries_of(d) == Ok::<
                Seq<DirEntryView>,
                ErrorView,
            >(all);
            &&& there && 0 <= k < all.len() && all[k].name == name && (forall|i: int|
                0 <= i < k ==> (#[trigger] all[i]).name != name) ==> lookup_of(f, dir, name)
                == match entry_at(f, dir, all[k]) {
                Ok(x) => Ok::<Option<EntryView>, StopView>(Some(x)),
                Err(s) => Err(s),
            }
            &&& there && (forall|i: int| 0 <= i < all.len() ==> (#[trigger] all[i]).name != name)
                ==> lookup_of(f, dir, name) == Ok::<Option<EntryView>, StopView>(None)
            &&& lacks(f, t.bytenr, r, key) ==> lookup_of(f, dir, name) == Ok::<
                Option<EntryView>,
                StopView,
            >(None)
        }),
{
    law_the_numbers_of_the_format();
    let hash = (u32::MAX - crc32c_value(1, name)) as u64;
    let key = Key { objectid: dir.ino, ty: 84, offset: hash };
    law_items_are_found(f, t.bytenr, r, key, d);
    if 0 <= k < all.len() && all[k].name == name && (forall|i: int|
        0 <= i < k ==> (#[trigger] all[i]).name != name) {
        lemma_first_is(all, name, k);
    }
    crate::dir_laws::lemma_first_named(all, name);
}

proof fn lemma_raw(items: Seq<ItemView>, es: Seq<DirEntryView>)
    requires
        items.len() == es.len(),
        forall|i: int|
            0 <= i < items.len() ==> dir_entries_of((#[trigger] items[i]).data) == Ok::<
                Seq<DirEntryView>,
                ErrorView,
            >(seq![es[i]]),
    ensures
        entries_in(items) == Ok::<Seq<DirEntryView>, ErrorView>(es),
    decreases items.len(),
{
    if items.len() > 0 {
        let n = items.len() - 1;
        let front = items.drop_last();
        assert forall|i: int| 0 <= i < front.len() implies dir_entries_of((#[trigger] front[i]).data)
            == Ok::<Seq<DirEntryView>, ErrorView>(seq![es.drop_last()[i]]) by {
            assert(front[i] == items[i]);
        }
        lemma_raw(front, es.drop_last());
        assert(items[n] == items.last());
        assert(es.drop_last() + seq![es[n]] =~= es);
    } else {
        assert(es =~= seq![]);
    }
}

/// A directory is listed by its items of type 96, in the order of their keys, each with what its
/// entry leads to.
pub proof fn law_directories_are_listed(
    f: FsView,
    dir: Loc,
    t: TreeRoot,
    r: Query,
    items: Seq<ItemView>,
    es: Seq<DirEntryView>,
    out: Seq<EntryView>,
)
    requires
        dir.tree != 0,
        tree_of(f, dir.tree) == Ok::<TreeRoot, StopView>(t),
        sound(f, t.bytenr, r),
        spans(r, span(dir.ino, 96)),
        items == contents(f, t.bytenr, r).filter(
            |x: ItemView| x.key.objectid == dir.ino && x.key.ty == 96,
        ),
        items.len() == es.len(),
        es.len() == out.len(),
        forall|i: int|
            0 <= i < items.len() ==> dir_entries_of((#[trigger] items[i]).data) == Ok::<
                Seq<DirEntryView>,
                ErrorView,
            >(seq![es[i]]),
        forall|i: int|
            0 <= i < es.len() ==> entry_at(f, dir, #[trigger] es[i]) == Ok::<EntryView, StopView>(
                out[i],
            ),
    ensures
        listing_of(f, dir) == Ok::<Seq<EntryView>, StopView>(out),
{
    law_the_numbers_of_the_format();
    law_all_of_a_type_are_found(f, t.bytenr, r, dir.ino, 96);
    lemma_raw(items, es);
    lemma_led(f, dir, es, out);
}

proof fn lemma_led(f: FsView, dir: Loc, es: Seq<DirEntryView>, out: Seq<EntryView>)
    requires
        es.len() == out.len(),
        forall|i: int|
            0 <= i < es.len() ==> entry_at(f, dir, #[trigger] es[i]) == Ok::<EntryView, StopView>(
                out[i],
            ),
    ensures
        entries_at(f, dir, es) == Ok::<Seq<EntryView>, StopView>(out),
    decreases es.len(),
{
    if es.len() > 0 {
        let n = es.len() - 1;
        let (a, b) = (es.drop_last(), out.drop_last());
        assert forall|i: int| 0 <= i < a.len() implies entry_at(f, dir, #[trigger] a[i]) == Ok::<
            EntryView,
            StopView,
        >(b[i]) by {
            assert(a[i] == es[i]);
        }
        lemma_led(f, dir, a, b);
        assert(es[n] == es.last());
        assert(b.push(out[n]) =~= out);
    } else {
        assert(out =~= seq![]);
    }
}

/// The extents of a file are its items of type 108, in the order of their keys, each at the file
/// offset that it is filed under.
pub proof fn law_extents_are_found(
    f: FsView,
    loc: Loc,
    t: TreeRoot,
    r: Query,
    items: Seq<ItemView>,
    es: Seq<ExtentView>,
)
    requires
        tree_of(f, loc.tree) == Ok::<TreeRoot, StopView>(t),
        sound(f, t.bytenr, r),
        spans(r, span(loc.ino, 108)),
        items == contents(f, t.bytenr, r).filter(
            |x: ItemView| x.key.objectid == loc.ino && x.key.ty == 108,
        ),
        items.len() == es.len(),
        forall|i: int|
            0 <= i < items.len() ==> extent_of((#[trigger] items[i]).key.offset, items[i].data)
                == Ok::<ExtentView, ErrorView>(es[i]),
    ensures
        extents_at(f, loc) == Ok::<Seq<ExtentView>, StopView>(es),
{
    law_the_numbers_of_the_format();
    law_all_of_a_type_are_found(f, t.bytenr, r, loc.ino, 108);
    lemma_extents(items, es);
}

proof fn lemma_extents(items: Seq<ItemView>, es: Seq<ExtentView>)
    requires
        items.len() == es.len(),
        forall|i: int|
            0 <= i < items.len() ==> extent_of((#[trigger] items[i]).key.offset, items[i].data)
                == Ok::<ExtentView, ErrorView>(es[i]),
    ensures
        extents_in(items) == Ok::<Seq<ExtentView>, ErrorView>(es),
    decreases items.len(),
{
    if items.len() > 0 {
        let n = items.len() - 1;
        let front = items.drop_last();
        assert forall|i: int| 0 <= i < front.len() implies extent_of(
            (#[trigger] front[i]).key.offset,
            front[i].data,
        ) == Ok::<ExtentView, ErrorView>(es.drop_last()[i]) by {
            assert(front[i] == items[i]);
        }
        lemma_extents(front, es.drop_last());
        assert(items[n] == items.last());
        assert(es.drop_last().push(es[n]) =~= es);
    } else {
        assert(es =~= seq![]);
    }
}

/// The subvolume to mount is the one that the entry `default` of the root tree's directory
/// names; without one it is the top-level one, 5.
pub proof fn law_the_default_subvolume(f: FsView, r: Query, d: Seq<u8>, all: Seq<DirEntryView>)
    ensures
        ({
            let hash = (u32::MAX - crc32c_value(1, encode_utf8("default"@))) as u64;
            let key = Key { objectid: f.sb.root_dir_objectid, ty: 84, offset: hash };
            let there = files(f, f.sb.root, r, key, d) && dir_entries_of(d) == Ok::<
                Seq<DirEntryView>,
                ErrorView,
            >(all);
            &&& there && all.len() > 0 ==> default_of(f) == Ok::<u64, StopView>(
                all[0].location.objectid,
            )
            &&& there && all.len() == 0 ==> default_of(f) == Ok::<u64, StopView>(5)
            &&& lacks(f, f.sb.root, r, key) ==> default_of(f) == Ok::<u64, StopView>(5)
        }),
{
    law_the_numbers_of_the_format();
    let hash = (u32::MAX - crc32c_value(1, encode_utf8("default"@))) as u64;
    let key = Key { objectid: f.sb.root_dir_objectid, ty: 84, offset: hash };
    law_items_are_found(f, f.sb.root, r, key, d);
}

} // verus!
