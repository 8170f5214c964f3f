//! What ties looking a name up to listing a directory.

use vstd::prelude::*;

use crate::checksum::name_hash_of;
use crate::disk::{dir_entries_of, DirEntryView, Key, DIR_INDEX_KEY, DIR_ITEM_KEY};
use crate::error::ErrorView;
use crate::fs::{FsView, StopView};
use crate::lookup::{
    entries_at, entries_in, entry_at, first_named, item_at, listing_of, lookup_of, placeholder,
    span, tree_of, Entry, EntryView, Loc,
};
use crate::sort::{law_sorted_form_keeps_the_values, stably_sorted};
use crate::sound::{
    asked, contents, law_contents_ascend, law_get_finds_the_item, law_walk_finds_the_range, sound,
};
use crate::tree::{tree_walk, ItemView, Query};

verus! {

/// The item is one of type `ty` of directory `ino`.
pub open spec fn is_of(x: ItemView, ino: u64, ty: u8) -> bool {
    x.key.objectid == ino && x.key.ty == ty
}

/// The item holds the entry.
pub open spec fn has_entry(x: ItemView, e: DirEntryView) -> bool {
    dir_entries_of(x.data) matches Ok(all) && all.contains(e)
}

/// One of the items of type `ty` of directory `ino` holds the entry.
pub open spec fn is_filed(s: Seq<ItemView>, ino: u64, ty: u8, e: DirEntryView) -> bool {
    exists|i: int| 0 <= i < s.len() && is_of(s[i], ino, ty) && #[trigger] has_entry(s[i], e)
}

/// The two indexes of directory `ino`, by name and by age, are in order: each item can be
/// parsed, an entry is filed by the hash of its name, the same entries are in both, and no name
/// stands for two of them.
pub open spec fn is_orderly(s: Seq<ItemView>, ino: u64) -> bool {
    &&& forall|i: int|
        0 <= i < s.len() && (is_of(#[trigger] s[i], ino, DIR_ITEM_KEY) || is_of(
            s[i],
            ino,
            DIR_INDEX_KEY,
        )) ==> dir_entries_of(s[i].data) is Ok
    &&& forall|i: int, e: DirEntryView|
        0 <= i < s.len() && is_of(s[i], ino, DIR_ITEM_KEY) && #[trigger] has_entry(s[i], e)
            ==> s[i].key.offset == name_hash_of(e.name)
    &&& forall|e: DirEntryView|
        is_filed(s, ino, DIR_ITEM_KEY, e) <==> #[trigger] is_filed(s, ino, DIR_INDEX_KEY, e)
    &&& forall|d: DirEntryView, e: DirEntryView|
        #[trigger] is_filed(s, ino, DIR_ITEM_KEY, d) && #[trigger] is_filed(
            s,
            ino,
            DIR_ITEM_KEY,
            e,
        ) && d.name == e.name ==> d == e
}

/// The keys of both indexes of directory `ino`.
pub open spec fn dir_range(ino: u64) -> Query {
    Query {
        min: Key { objectid: ino, ty: DIR_ITEM_KEY, offset: 0 },
        max: Key { objectid: ino, ty: DIR_INDEX_KEY, offset: u64::MAX },
        first: false,
    }
}

/// The directory is in order, and so is its tree as far as its entries reach. The empty one
/// that stands for a missing subvolume always is.
pub open spec fn is_orderly_dir(f: FsView, dir: Loc) -> bool {
    let r = dir_range(dir.ino);
    placeholder(dir) || (tree_of(f, dir.tree) matches Ok(t) && sound(f, t.bytenr, r) && is_orderly(
        contents(f, t.bytenr, r),
        dir.ino,
    ))
}

/// The entries of a run of items are those that the items hold.
proof fn lemma_entries_in(items: Seq<ItemView>, e: DirEntryView)
    requires
        entries_in(items) is Ok,
    ensures
        (entries_in(items)->Ok_0).contains(e) <==> exists|i: int|
            0 <= i < items.len() && #[trigger] has_entry(items[i], e),
    decreases items.len(),
{
    if items.len() > 0 {
        let items2 = items.drop_last();
        lemma_entries_in(items2, e);
        let front = entries_in(items2)->Ok_0;
        let more = dir_entries_of(items.last().data)->Ok_0;
        let all = front + more;
        if all.contains(e) {
            let k = all.index_of(e);
            if k < front.len() {
                assert(front[k] == e);
                let i = choose|i: int| 0 <= i < items2.len() && #[trigger] has_entry(items2[i], e);
                assert(has_entry(items[i], e));
            } else {
                assert(more[k - front.len()] == e);
                assert(has_entry(items[items.len() - 1], e));
            }
        }
        if exists|i: int| 0 <= i < items.len() && #[trigger] has_entry(items[i], e) {
            let i = choose|i: int| 0 <= i < items.len() && #[trigger] has_entry(items[i], e);
            if i < items2.len() {
                assert(has_entry(items2[i], e));
                let k = front.index_of(e);
                assert(all[k] == e);
            } else {
                let k = more.index_of(e);
                assert(all[front.len() + k] == e);
            }
        }
    }
}

/// What is listed is what each entry leads to.
proof fn lemma_entries_at(f: FsView, dir: Loc, s: Seq<DirEntryView>)
    requires
        entries_at(f, dir, s) is Ok,
    ensures
        (entries_at(f, dir, s)->Ok_0).len() == s.len(),
        forall|i: int|
            0 <= i < s.len() ==> entry_at(f, dir, s[i]) == Ok::<EntryView, StopView>(
                #[trigger] (entries_at(f, dir, s)->Ok_0)[i],
            ),
    decreases s.len(),
{
    if s.len() > 0 {
        lemma_entries_at(f, dir, s.drop_last());
    }
}

pub proof fn lemma_first_named(s: Seq<DirEntryView>, name: Seq<u8>)
    ensures
        match first_named(s, name) {
            Some(e) => e.name == name && s.contains(e),
            None => forall|i: int| 0 <= i < s.len() ==> (#[trigger] s[i]).name != name,
        },
    decreases s.len(),
{
    if s.len() > 0 && s[0].name != name {
        let rest = s.skip(1);
        lemma_first_named(rest, name);
        match first_named(rest, name) {
            Some(e) => {
                let i = rest.index_of(e);
                assert(s[i + 1] == e);
            },
            None => {
                assert forall|i: int| 0 <= i < s.len() implies (#[trigger] s[i]).name != name by {
                    if i > 0 {
                        assert(rest[i - 1] == s[i]);
                    }
                }
            },
        }
    }
}

/// The entries that a directory in order lists are those filed by name.
proof fn lemma_listed(f: FsView, dir: Loc, root: u64, e: DirEntryView)
    requires
        sound(f, root, dir_range(dir.ino)),
        is_orderly(contents(f, root, dir_range(dir.ino)), dir.ino),
        entries_in(tree_walk(f, root, span(dir.ino, DIR_INDEX_KEY)).items) is Ok,
    ensures
        (entries_in(tree_walk(f, root, span(dir.ino, DIR_INDEX_KEY)).items)->Ok_0).contains(e)
            <==> is_filed(contents(f, root, dir_range(dir.ino)), dir.ino, DIR_ITEM_KEY, e),
{
    let q = span(dir.ino, DIR_INDEX_KEY);
    let all = contents(f, root, dir_range(dir.ino));
    let pred = |x: ItemView| asked(q, x.key);
    let items = tree_walk(f, root, q).items;
    law_walk_finds_the_range(f, root, dir_range(dir.ino), q);
    assert(items == all.filter(pred));
    lemma_entries_in(items, e);
    if exists|i: int| 0 <= i < items.len() && #[trigger] has_entry(items[i], e) {
        let i = choose|i: int| 0 <= i < items.len() && #[trigger] has_entry(items[i], e);
        all.lemma_filter_pred(pred, i);
        all.lemma_filter_contains_rev(pred, items[i]);
        let k = all.index_of(items[i]);
        assert(has_entry(all[k], e) && is_of(all[k], dir.ino, DIR_INDEX_KEY));
        assert(is_filed(all, dir.ino, DIR_INDEX_KEY, e));
    }
    if is_filed(all, dir.ino, DIR_ITEM_KEY, e) {
        assert(is_filed(all, dir.ino, DIR_INDEX_KEY, e));
        let k = choose|k: int|
            0 <= k < all.len() && is_of(all[k], dir.ino, DIR_INDEX_KEY) && #[trigger] has_entry(
                all[k],
                e,
            );
        all.lemma_filter_contains(pred, k);
        let i = items.index_of(all[k]);
        assert(has_entry(items[i], e));
    }
}

/// What is filed under the hash of a name, in a directory in order.
proof fn lemma_filed(f: FsView, dir: Loc, root: u64, name: Seq<u8>)
    requires
        sound(f, root, dir_range(dir.ino)),
        is_orderly(contents(f, root, dir_range(dir.ino)), dir.ino),
    ensures
        ({
            let key = Key {
                objectid: dir.ino,
                ty: DIR_ITEM_KEY,
                offset: name_hash_of(name) as u64,
            };
            match item_at(f, root, key) {
                Err(_) => false,
                Ok(None) => forall|e: DirEntryView|
                    e.name == name ==> !#[trigger] is_filed(
                        contents(f, root, dir_range(dir.ino)),
                        dir.ino,
                        DIR_ITEM_KEY,
                        e,
                    ),
                Ok(Some(d)) => dir_entries_of(d) is Ok && forall|e: DirEntryView|
                    e.name == name ==> (#[trigger] is_filed(
                        contents(f, root, dir_range(dir.ino)),
                        dir.ino,
                        DIR_ITEM_KEY,
                        e,
                    ) <==> (dir_entries_of(d)->Ok_0).contains(e)),
            }
        }),
{
    let key = Key { objectid: dir.ino, ty: DIR_ITEM_KEY, offset: name_hash_of(name) as u64 };
    let all = contents(f, root, dir_range(dir.ino));
    law_get_finds_the_item(f, root, dir_range(dir.ino), key);
    law_contents_ascend(f, root, dir_range(dir.ino));
    match item_at(f, root, key) {
        Err(_) => {},
        Ok(None) => {
            assert forall|e: DirEntryView| e.name == name implies !#[trigger] is_filed(
                all,
                dir.ino,
                DIR_ITEM_KEY,
                e,
            ) by {
                if is_filed(all, dir.ino, DIR_ITEM_KEY, e) {
                    let k = choose|k: int|
                        0 <= k < all.len() && is_of(all[k], dir.ino, DIR_ITEM_KEY)
                            && #[trigger] has_entry(all[k], e);
                    assert(all[k].key == key);
                }
            }
        },
        Ok(Some(d)) => {
            let x = ItemView { key, data: d };
            let n = all.index_of(x);
            assert(is_of(all[n], dir.ino, DIR_ITEM_KEY));
            assert forall|e: DirEntryView| e.name == name implies (#[trigger] is_filed(
                all,
                dir.ino,
                DIR_ITEM_KEY,
                e,
            ) <==> (dir_entries_of(d)->Ok_0).contains(e)) by {
                if is_filed(all, dir.ino, DIR_ITEM_KEY, e) {
                    let k = choose|k: int|
                        0 <= k < all.len() && is_of(all[k], dir.ino, DIR_ITEM_KEY)
                            && #[trigger] has_entry(all[k], e);
                    assert(all[k].key == key);
                    if k < n {
                        assert(all[k].key.precedes(all[n].key));
                    }
                    if n < k {
                        assert(all[n].key.precedes(all[k].key));
                    }
                }
                if (dir_entries_of(d)->Ok_0).contains(e) {
                    assert(has_entry(all[n], e));
                }
            }
        },
    }
}

/// In a directory in order, looking up a name that is listed finds the entry that is listed,
/// and looking up any other name finds nothing.
pub proof fn law_lookup_finds_what_is_listed(f: FsView, dir: Loc, list: Seq<EntryView>)
    requires
        is_orderly_dir(f, dir),
        listing_of(f, dir) matches Ok(all) && stably_sorted::<Entry>(all, list),
    ensures
        forall|i: int|
            0 <= i < list.len() ==> lookup_of(f, dir, (#[trigger] list[i]).name) == Ok::<
                Option<EntryView>,
                StopView,
            >(Some(list[i])),
        forall|name: Seq<u8>|
            (forall|i: int| 0 <= i < list.len() ==> (#[trigger] list[i]).name != name)
                ==> #[trigger] lookup_of(f, dir, name) == Ok::<Option<EntryView>, StopView>(None),
{
    let all = listing_of(f, dir)->Ok_0;
    law_sorted_form_keeps_the_values::<Entry>(all, list);
    if !placeholder(dir) {
        let root = (tree_of(f, dir.tree)->Ok_0).bytenr;
        let raw = entries_in(tree_walk(f, root, span(dir.ino, DIR_INDEX_KEY)).items)->Ok_0;
        lemma_entries_at(f, dir, raw);
        assert forall|i: int| 0 <= i < list.len() implies lookup_of(
            f,
            dir,
            (#[trigger] list[i]).name,
        ) == Ok::<Option<EntryView>, StopView>(Some(list[i])) by {
            let x = list[i];
            assert(list.contains(x));
            let k = all.index_of(x);
            let e = raw[k];
            assert(raw.contains(e));
            assert(entry_at(f, dir, e) == Ok::<EntryView, StopView>(x));
            lemma_listed(f, dir, root, e);
            lemma_found(f, dir, root, e);
        }
        assert forall|name: Seq<u8>|
            (forall|i: int| 0 <= i < list.len() ==> (#[trigger] list[i]).name != name) implies
            #[trigger] lookup_of(f, dir, name) == Ok::<Option<EntryView>, StopView>(None) by {
            lemma_missing(f, dir, root, name, raw, all, list);
        }
    }
}

/// An entry that is filed is found by its name.
proof fn lemma_found(f: FsView, dir: Loc, root: u64, e: DirEntryView)
    requires
        !placeholder(dir),
        tree_of(f, dir.tree) matches Ok(t) && t.bytenr == root,
        sound(f, root, dir_range(dir.ino)),
        is_orderly(contents(f, root, dir_range(dir.ino)), dir.ino),
        is_filed(contents(f, root, dir_range(dir.ino)), dir.ino, DIR_ITEM_KEY, e),
        entry_at(f, dir, e) is Ok,
    ensures
        lookup_of(f, dir, e.name) == Ok::<Option<EntryView>, StopView>(
            Some(entry_at(f, dir, e)->Ok_0),
        ),
{
    lemma_filed(f, dir, root, e.name);
    let key = Key { objectid: dir.ino, ty: DIR_ITEM_KEY, offset: name_hash_of(e.name) as u64 };
    if let Ok(Some(d)) = item_at(f, root, key) {
        let there = dir_entries_of(d)->Ok_0;
        assert(there.contains(e));
        lemma_first_named(there, e.name);
        let k = there.index_of(e);
        assert(there[k].name == e.name);
        let x = first_named(there, e.name)->0;
        assert(is_filed(contents(f, root, dir_range(dir.ino)), dir.ino, DIR_ITEM_KEY, x));
    }
}

/// A name that is not listed is not found.
proof fn lemma_missing(
    f: FsView,
    dir: Loc,
    root: u64,
    name: Seq<u8>,
    raw: Seq<DirEntryView>,
    all: Seq<EntryView>,
    list: Seq<EntryView>,
)
    requires
        !placeholder(dir),
        tree_of(f, dir.tree) matches Ok(t) && t.bytenr == root,
        sound(f, root, dir_range(dir.ino)),
        is_orderly(contents(f, root, dir_range(dir.ino)), dir.ino),
        entries_in(tree_walk(f, root, span(dir.ino, DIR_INDEX_KEY)).items) == Ok::<
            Seq<DirEntryView>,
            ErrorView,
        >(raw),
        entries_at(f, dir, raw) == Ok::<Seq<EntryView>, StopView>(all),
        forall|x: EntryView| #[trigger] list.contains(x) <==> all.contains(x),
        forall|i: int| 0 <= i < list.len() ==> (#[trigger] list[i]).name != name,
    ensures
        lookup_of(f, dir, name) == Ok::<Option<EntryView>, StopView>(None),
{
    lemma_filed(f, dir, root, name);
    lemma_entries_at(f, dir, raw);
    let key = Key { objectid: dir.ino, ty: DIR_ITEM_KEY, offset: name_hash_of(name) as u64 };
    if let Ok(Some(d)) = item_at(f, root, key) {
        let there = dir_entries_of(d)->Ok_0;
        lemma_first_named(there, name);
        if let Some(e) = first_named(there, name) {
            assert(is_filed(contents(f, root, dir_range(dir.ino)), dir.ino, DIR_ITEM_KEY, e));
            lemma_listed(f, dir, root, e);
            let k = raw.index_of(e);
            let x = all[k];
            assert(entry_at(f, dir, e) == Ok::<EntryView, StopView>(x));
            assert(x.name == name);
            assert(all.contains(x));
            assert(list.contains(x));
            let i = list.index_of(x);
            assert(list[i].name == name);
        }
    }
}

} // verus!
