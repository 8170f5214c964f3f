//! Subvolume trees, inodes, directories and paths.

use vstd::prelude::*;
use vstd::slice::*;
use vstd::string::*;
use vstd::utf8::*;

use crate::checksum::{name_hash, name_hash_of};
use crate::disk::{
    dir_entries_of, extent_of, inode_of, parse_dir_entries, u64_at, u64_field, DirEntry,
    DirEntryView, Extent, ExtentView, Inode, Key, DIR_INDEX_KEY, DIR_ITEM_KEY, EXTENT_DATA_KEY,
    FS_TREE_OBJECTID, FT_DIR, INODE_ITEM_KEY, ROOT_ITEM_KEY, ROOT_REF_KEY,
};
use crate::error::{plain, Error, ErrorKind, ErrorView};
use crate::fs::{stop, stopping, Fs, FsView, Stop, StopView};
use crate::model::{lemma_views_push, same, same_option, same_view, same_views, views};
use crate::sort::{sort, stably_sorted, Ranked};
use crate::text::{lossy, utf8_lossy};
use crate::tree::{tree_walk, Item, ItemView, Query};

verus! {

/// An inode is only unique within its subvolume tree.
#[derive(Clone, Copy, Debug, PartialEq, Eq, Hash, Structural)]
pub struct Loc {
    pub tree: u64,
    pub ino: u64,
}

/// A directory entry, with the inode it leads to.
pub struct Entry {
    pub name: Vec<u8>,
    pub loc: Loc,
    pub ftype: u8,
    /// The entry is the root of another subvolume.
    pub subvol: bool,
}

#[verifier::ext_equal]
pub struct EntryView {
    pub name: Seq<u8>,
    pub loc: Loc,
    pub ftype: u8,
    pub subvol: bool,
}

impl View for Entry {
    type V = EntryView;

    open spec fn view(&self) -> EntryView {
        EntryView { name: self.name@, loc: self.loc, ftype: self.ftype, subvol: self.subvol }
    }
}

impl Entry {
    /// The name as text, with what is not UTF-8 replaced.
    pub fn name_lossy(&self) -> (s: String)
        ensures
            s@ == utf8_lossy(self.name@),
    {
        lossy(self.name.as_slice())
    }
}

/// `a` comes before `b` in the order of their bytes; a prefix comes first.
pub open spec fn bytes_below(a: Seq<u8>, b: Seq<u8>) -> bool
    decreases a.len(),
{
    if b.len() == 0 {
        false
    } else if a.len() == 0 {
        true
    } else if a[0] != b[0] {
        a[0] < b[0]
    } else {
        bytes_below(a.skip(1), b.skip(1))
    }
}

fn is_bytes_below(a: &Vec<u8>, b: &Vec<u8>) -> (r: bool)
    ensures
        r == bytes_below(a@, b@),
{
    let mut i: usize = 0;
    assert(a@.skip(0) =~= a@);
    assert(b@.skip(0) =~= b@);
    while i < a.len() && i < b.len()
        invariant
            i <= a@.len(),
            i <= b@.len(),
            bytes_below(a@, b@) == bytes_below(a@.skip(i as int), b@.skip(i as int)),
        decreases a@.len() - i,
    {
        if a[i] != b[i] {
            return a[i] < b[i];
        }
        assert(a@.skip(i as int).skip(1) =~= a@.skip(i + 1));
        assert(b@.skip(i as int).skip(1) =~= b@.skip(i + 1));
        i += 1;
    }
    i < b.len()
}

proof fn lemma_bytes_irreflexive(a: Seq<u8>)
    ensures
        !bytes_below(a, a),
    decreases a.len(),
{
    if a.len() > 0 {
        lemma_bytes_irreflexive(a.skip(1));
    }
}

proof fn lemma_bytes_transitive(a: Seq<u8>, b: Seq<u8>, c: Seq<u8>)
    requires
        bytes_below(a, b),
        bytes_below(b, c),
    ensures
        bytes_below(a, c),
    decreases a.len(),
{
    if a.len() > 0 && b.len() > 0 && c.len() > 0 && a[0] == b[0] && b[0] == c[0] {
        lemma_bytes_transitive(a.skip(1), b.skip(1), c.skip(1));
    }
}

proof fn lemma_bytes_same_rank(a: Seq<u8>, b: Seq<u8>, c: Seq<u8>)
    requires
        !bytes_below(a, b),
        !bytes_below(b, c),
    ensures
        !bytes_below(a, c),
    decreases a.len(),
{
    if a.len() > 0 && b.len() > 0 && c.len() > 0 && a[0] == b[0] && b[0] == c[0] {
        lemma_bytes_same_rank(a.skip(1), b.skip(1), c.skip(1));
    }
}

/// Entries are ranked by name.
impl Ranked for Entry {
    open spec fn below(a: EntryView, b: EntryView) -> bool {
        bytes_below(a.name, b.name)
    }

    fn is_below(&self, other: &Self) -> (r: bool) {
        is_bytes_below(&self.name, &other.name)
    }

    fn copy(&self) -> (c: Self) {
        Entry {
            name: slice_to_vec(self.name.as_slice()),
            loc: self.loc,
            ftype: self.ftype,
            subvol: self.subvol,
        }
    }

    proof fn irreflexive(a: EntryView) {
        lemma_bytes_irreflexive(a.name);
    }

    proof fn transitive(a: EntryView, b: EntryView, c: EntryView) {
        lemma_bytes_transitive(a.name, b.name, c.name);
    }

    proof fn same_rank(a: EntryView, b: EntryView, c: EntryView) {
        lemma_bytes_same_rank(a.name, b.name, c.name);
    }
}

/// Where a subvolume tree starts.
#[derive(Clone, Copy, Debug, PartialEq, Eq, Structural)]
pub struct TreeRoot {
    /// The address of its topmost block.
    pub bytenr: u64,
    /// The inode of its top directory.
    pub root_dirid: u64,
}

/// The items of one object and type.
pub open spec fn span(objectid: u64, ty: u8) -> Query {
    Query {
        min: Key { objectid, ty, offset: 0 },
        max: Key { objectid, ty, offset: u64::MAX },
        first: false,
    }
}

/// The first item with exactly this key.
pub open spec fn exactly(key: Key) -> Query {
    Query { min: key, max: key, first: true }
}

/// The bytes of the item filed under `key`.
pub open spec fn item_at(f: FsView, root: u64, key: Key) -> Result<Option<Seq<u8>>, StopView> {
    let w = tree_walk(f, root, exactly(key));
    match w.end {
        Err(s) => Err(s),
        Ok(_) => Ok(
            if w.items.len() == 0 {
                None
            } else {
                Some(w.items[0].data)
            },
        ),
    }
}

/// A root item gives the address of the tree and its top directory.
pub open spec fn tree_root_of(d: Seq<u8>) -> Result<TreeRoot, ErrorView> {
    match (u64_field(d, 176), u64_field(d, 168)) {
        (Err(e), _) => Err(e),
        (_, Err(e)) => Err(e),
        (Ok(bytenr), Ok(root_dirid)) => Ok(TreeRoot { bytenr, root_dirid }),
    }
}

/// The subvolume tree `id`. A snapshot's root item is keyed by the transaction that made
/// it; the newest counts.
pub open spec fn tree_of(f: FsView, id: u64) -> Result<TreeRoot, StopView> {
    let w = tree_walk(f, f.sb.root, span(id, ROOT_ITEM_KEY));
    match w.end {
        Err(s) => Err(s),
        Ok(_) => if w.items.len() == 0 {
            Err(StopView::Error(plain(ErrorKind::NoTree { id })))
        } else {
            stopping(tree_root_of(w.items.last().data))
        },
    }
}

/// The top directory of the top-level subvolume.
pub open spec fn root_of(f: FsView) -> Result<Loc, StopView> {
    match tree_of(f, FS_TREE_OBJECTID) {
        Err(s) => Err(s),
        Ok(t) => Ok(Loc { tree: FS_TREE_OBJECTID, ino: t.root_dirid }),
    }
}

/// The empty directory that stands for a subvolume which is not there.
pub open spec fn placeholder(loc: Loc) -> bool {
    loc.tree == 0
}

/// What such a directory looks like.
pub open spec fn placeholder_inode() -> Inode {
    Inode { size: 0, nlink: 1, uid: 0, gid: 0, mode: 0x41ed, mtime_sec: 0, mtime_nsec: 0 }
}

/// The inode at `loc`.
pub open spec fn inode_at(f: FsView, loc: Loc) -> Result<Inode, StopView> {
    if placeholder(loc) {
        Ok(placeholder_inode())
    } else {
        match tree_of(f, loc.tree) {
            Err(s) => Err(s),
            Ok(t) => match item_at(
                f,
                t.bytenr,
                Key { objectid: loc.ino, ty: INODE_ITEM_KEY, offset: 0 },
            ) {
                Err(s) => Err(s),
                Ok(None) => Err(
                    StopView::Error(plain(ErrorKind::NoInode { ino: loc.ino, tree: loc.tree })),
                ),
                Ok(Some(d)) => stopping(inode_of(d)),
            },
        }
    }
}

/// What a directory entry of `dir` leads to. Inside a snapshot, a nested subvolume is only
/// a placeholder: an empty directory, unless a root reference ties the child to this very
/// tree.
pub open spec fn entry_at(f: FsView, dir: Loc, e: DirEntryView) -> Result<EntryView, StopView> {
    let child = e.location.objectid;
    if e.location.ty != ROOT_ITEM_KEY {
        Ok(
            EntryView {
                name: e.name,
                loc: Loc { tree: dir.tree, ino: child },
                ftype: e.ftype,
                subvol: false,
            },
        )
    } else {
        match item_at(
            f,
            f.sb.root,
            Key { objectid: dir.tree, ty: ROOT_REF_KEY, offset: child },
        ) {
            Err(s) => Err(s),
            Ok(None) => Ok(
                EntryView {
                    name: e.name,
                    loc: Loc { tree: 0, ino: 0 },
                    ftype: FT_DIR,
                    subvol: true,
                },
            ),
            Ok(Some(_)) => match tree_of(f, child) {
                Err(s) => Err(s),
                Ok(t) => Ok(
                    EntryView {
                        name: e.name,
                        loc: Loc { tree: child, ino: t.root_dirid },
                        ftype: FT_DIR,
                        subvol: true,
                    },
                ),
            },
        }
    }
}

/// A root item that names the subvolume it was made from.
pub open spec fn snapshot_mark(d: Seq<u8>) -> bool {
    d.len() >= 279 && exists|i: int| 263 <= i < 279 && #[trigger] d[i] != 0
}

/// Whether subvolume tree `id` was created as a snapshot of another.
pub open spec fn snapshot_of(f: FsView, id: u64) -> Result<bool, StopView> {
    let w = tree_walk(f, f.sb.root, span(id, ROOT_ITEM_KEY));
    match w.end {
        Err(s) => Err(s),
        Ok(_) => Ok(w.items.len() > 0 && snapshot_mark(w.items.last().data)),
    }
}

/// The first entry of that name.
pub open spec fn first_named(s: Seq<DirEntryView>, name: Seq<u8>) -> Option<DirEntryView>
    decreases s.len(),
{
    if s.len() == 0 {
        None
    } else if s[0].name == name {
        Some(s[0])
    } else {
        first_named(s.skip(1), name)
    }
}

/// The entry that `dir` has under `name`. A directory files an entry under the hash of its
/// name, together with those whose names have the same hash.
pub open spec fn lookup_of(f: FsView, dir: Loc, name: Seq<u8>) -> Result<
    Option<EntryView>,
    StopView,
> {
    if placeholder(dir) {
        Ok(None)
    } else {
        match tree_of(f, dir.tree) {
            Err(s) => Err(s),
            Ok(t) => match item_at(
                f,
                t.bytenr,
                Key { objectid: dir.ino, ty: DIR_ITEM_KEY, offset: name_hash_of(name) as u64 },
            ) {
                Err(s) => Err(s),
                Ok(None) => Ok(None),
                Ok(Some(d)) => match dir_entries_of(d) {
                    Err(e) => Err(StopView::Error(e)),
                    Ok(all) => match first_named(all, name) {
                        None => Ok(None),
                        Some(e) => match entry_at(f, dir, e) {
                            Err(s) => Err(s),
                            Ok(x) => Ok(Some(x)),
                        },
                    },
                },
            },
        }
    }
}

/// The entries in a run of directory items.
pub open spec fn entries_in(items: Seq<ItemView>) -> Result<Seq<DirEntryView>, ErrorView>
    decreases items.len(),
{
    if items.len() == 0 {
        Ok(seq![])
    } else {
        match entries_in(items.drop_last()) {
            Err(e) => Err(e),
            Ok(front) => match dir_entries_of(items.last().data) {
                Err(e) => Err(e),
                Ok(more) => Ok(front + more),
            },
        }
    }
}

/// What each of the entries of `dir` leads to.
pub open spec fn entries_at(f: FsView, dir: Loc, s: Seq<DirEntryView>) -> Result<
    Seq<EntryView>,
    StopView,
>
    decreases s.len(),
{
    if s.len() == 0 {
        Ok(seq![])
    } else {
        match entries_at(f, dir, s.drop_last()) {
            Err(e) => Err(e),
            Ok(front) => match entry_at(f, dir, s.last()) {
                Err(e) => Err(e),
                Ok(x) => Ok(front.push(x)),
            },
        }
    }
}

/// The entries of `dir` in the order in which they were created.
pub open spec fn listing_of(f: FsView, dir: Loc) -> Result<Seq<EntryView>, StopView> {
    if placeholder(dir) {
        Ok(seq![])
    } else {
        match tree_of(f, dir.tree) {
            Err(s) => Err(s),
            Ok(t) => {
                let w = tree_walk(f, t.bytenr, span(dir.ino, DIR_INDEX_KEY));
                match (entries_in(w.items), w.end) {
                    (Err(e), _) => Err(StopView::Error(e)),
                    (_, Err(s)) => Err(s),
                    (Ok(raw), Ok(_)) => entries_at(f, dir, raw),
                }
            },
        }
    }
}

/// The extents in a run of extent items, each at the file offset of its key.
pub open spec fn extents_in(items: Seq<ItemView>) -> Result<Seq<ExtentView>, ErrorView>
    decreases items.len(),
{
    if items.len() == 0 {
        Ok(seq![])
    } else {
        match extents_in(items.drop_last()) {
            Err(e) => Err(e),
            Ok(front) => match extent_of(items.last().key.offset, items.last().data) {
                Err(e) => Err(e),
                Ok(x) => Ok(front.push(x)),
            },
        }
    }
}

/// The extents of the file at `loc`.
pub open spec fn extents_at(f: FsView, loc: Loc) -> Result<Seq<ExtentView>, StopView> {
    match tree_of(f, loc.tree) {
        Err(s) => Err(s),
        Ok(t) => {
            let w = tree_walk(f, t.bytenr, span(loc.ino, EXTENT_DATA_KEY));
            match (extents_in(w.items), w.end) {
                (Err(e), _) => Err(StopView::Error(e)),
                (_, Err(s)) => Err(s),
                (Ok(all), Ok(_)) => Ok(all),
            }
        },
    }
}

/// The subvolume that is mounted where none is named: the one that the entry `default` in
/// the root tree's directory leads to, or the top-level one.
pub open spec fn default_of(f: FsView) -> Result<u64, StopView> {
    let key = Key {
        objectid: f.sb.root_dir_objectid,
        ty: DIR_ITEM_KEY,
        offset: name_hash_of(encode_utf8("default"@)) as u64,
    };
    match item_at(f, f.sb.root, key) {
        Err(s) => Err(s),
        Ok(None) => Ok(FS_TREE_OBJECTID),
        Ok(Some(d)) => match dir_entries_of(d) {
            Err(e) => Err(StopView::Error(e)),
            Ok(all) => Ok(
                if all.len() == 0 {
                    FS_TREE_OBJECTID
                } else {
                    all[0].location.objectid
                },
            ),
        },
    }
}

fn span_query(objectid: u64, ty: u8) -> (q: Query)
    ensures
        q == span(objectid, ty),
{
    Query {
        min: Key::new(objectid, ty, 0),
        max: Key::new(objectid, ty, u64::MAX),
        first: false,
    }
}

pub(crate) fn is_snapshot_mark(d: &[u8]) -> (r: bool)
    ensures
        r == snapshot_mark(d@),
{
    if d.len() < 279 {
        return false;
    }
    let mut i: usize = 263;
    while i < 279
        invariant
            263 <= i <= 279 <= d@.len(),
            forall|k: int| 263 <= k < i ==> d@[k] == 0,
        decreases 279 - i,
    {
        if d[i] != 0 {
            return true;
        }
        i += 1;
    }
    false
}

pub(crate) fn same_bytes(a: &[u8], b: &[u8]) -> (r: bool)
    ensures
        r == (a@ == b@),
{
    if a.len() != b.len() {
        return false;
    }
    let mut i: usize = 0;
    while i < a.len()
        invariant
            a@.len() == b@.len(),
            i <= a@.len(),
            forall|k: int| 0 <= k < i ==> a@[k] == b@[k],
        decreases a@.len() - i,
    {
        if a[i] != b[i] {
            return false;
        }
        i += 1;
    }
    assert(a@ =~= b@);
    true
}

/// The position of the first entry of that name.
fn find_named(s: &Vec<DirEntry>, name: &[u8]) -> (r: Option<usize>)
    ensures
        match r {
            Some(i) => i < s@.len() && first_named(views(s@), name@) == Some(s@[i as int]@),
            None => first_named(views(s@), name@) is None,
        },
{
    let ghost all = views(s@);
    let mut i: usize = 0;
    assert(all.skip(0) =~= all);
    while i < s.len()
        invariant
            i <= s@.len(),
            all == views(s@),
            first_named(all, name@) == first_named(all.skip(i as int), name@),
        decreases s@.len() - i,
    {
        assert(all.skip(i as int)[0] == s@[i as int]@);
        if same_bytes(s[i].name.as_slice(), name) {
            return Some(i);
        }
        assert(all.skip(i as int).skip(1) =~= all.skip(i + 1));
        i += 1;
    }
    None
}

proof fn lemma_entries_fail(items: Seq<ItemView>, k: int)
    requires
        0 <= k <= items.len(),
        entries_in(items.take(k)) is Err,
    ensures
        entries_in(items) == entries_in(items.take(k)),
    decreases items.len(),
{
    if k == items.len() {
        assert(items.take(k) =~= items);
    } else {
        assert(items.drop_last().take(k) =~= items.take(k));
        lemma_entries_fail(items.drop_last(), k);
    }
}

fn parse_entries(items: &Vec<Item>) -> (r: Result<Vec<DirEntry>, Error>)
    ensures
        same_views(r, entries_in(views(items@))),
{
    let ghost all = views(items@);
    let mut out: Vec<DirEntry> = Vec::new();
    let mut i: usize = 0;
    assert(all.take(0) =~= seq![]);
    assert(views(out@) =~= seq![]);
    while i < items.len()
        invariant
            i <= items@.len(),
            all == views(items@),
            entries_in(all.take(i as int)) == Ok::<Seq<DirEntryView>, ErrorView>(views(out@)),
        decreases items@.len() - i,
    {
        let item = &items[i];
        let ghost part = all.take(i + 1);
        assert(part.drop_last() =~= all.take(i as int));
        assert(part.last() == item@);
        let mut more = match parse_dir_entries(item.data.as_slice()) {
            Ok(v) => v,
            Err(e) => {
                proof {
                    lemma_entries_fail(all, i + 1);
                }
                return Err(e);
            },
        };
        let ghost front = views(out@);
        let ghost tail = views(more@);
        out.append(&mut more);
        assert(views(out@) =~= front + tail);
        i += 1;
    }
    assert(all.take(i as int) =~= all);
    Ok(out)
}

proof fn lemma_extents_fail(items: Seq<ItemView>, k: int)
    requires
        0 <= k <= items.len(),
        extents_in(items.take(k)) is Err,
    ensures
        extents_in(items) == extents_in(items.take(k)),
    decreases items.len(),
{
    if k == items.len() {
        assert(items.take(k) =~= items);
    } else {
        assert(items.drop_last().take(k) =~= items.take(k));
        lemma_extents_fail(items.drop_last(), k);
    }
}

fn parse_extents(items: &Vec<Item>) -> (r: Result<Vec<Extent>, Error>)
    ensures
        same_views(r, extents_in(views(items@))),
{
    let ghost all = views(items@);
    let mut out: Vec<Extent> = Vec::new();
    let mut i: usize = 0;
    assert(all.take(0) =~= seq![]);
    assert(views(out@) =~= seq![]);
    while i < items.len()
        invariant
            i <= items@.len(),
            all == views(items@),
            extents_in(all.take(i as int)) == Ok::<Seq<ExtentView>, ErrorView>(views(out@)),
        decreases items@.len() - i,
    {
        let item = &items[i];
        let ghost part = all.take(i + 1);
        assert(part.drop_last() =~= all.take(i as int));
        assert(part.last() == item@);
        match Extent::parse(item.key.offset, item.data.as_slice()) {
            Ok(x) => {
                proof {
                    lemma_views_push(out@, x);
                }
                out.push(x);
            },
            Err(e) => {
                proof {
                    lemma_extents_fail(all, i + 1);
                }
                return Err(e);
            },
        }
        i += 1;
    }
    assert(all.take(i as int) =~= all);
    Ok(out)
}

proof fn lemma_entries_at_fail(f: FsView, dir: Loc, s: Seq<DirEntryView>, k: int)
    requires
        0 <= k <= s.len(),
        entries_at(f, dir, s.take(k)) is Err,
    ensures
        entries_at(f, dir, s) == entries_at(f, dir, s.take(k)),
    decreases s.len(),
{
    if k == s.len() {
        assert(s.take(k) =~= s);
    } else {
        assert(s.drop_last().take(k) =~= s.take(k));
        lemma_entries_at_fail(f, dir, s.drop_last(), k);
    }
}

impl Fs {
    /// The bytes of the item filed under `key`, where there is one.
    pub fn get(&self, root: u64, key: Key) -> (r: Result<Option<Vec<u8>>, Stop>)
        requires
            self@.wf(),
        ensures
            same_option(r, item_at(self@, root, key)),
    {
        let w = self.walk(root, Query { min: key, max: key, first: true });
        w.end?;
        let mut items = w.items;
        if items.len() == 0 {
            return Ok(None);
        }
        let item = items.swap_remove(0);
        Ok(Some(item.data))
    }

    /// Where the subvolume tree `id` starts.
    pub fn tree(&self, id: u64) -> (r: Result<TreeRoot, Stop>)
        requires
            self@.wf(),
        ensures
            same(r, tree_of(self@, id)),
    {
        let w = self.walk(self.sb().root, span_query(id, ROOT_ITEM_KEY));
        w.end?;
        let n: usize = w.items.len();
        if n == 0 {
            return Err(Stop::Error(Error::plain(ErrorKind::NoTree { id })));
        }
        let d = w.items[n - 1].data.as_slice();
        let bytenr = stop(u64_at(d, 176))?;
        let root_dirid = stop(u64_at(d, 168))?;
        Ok(TreeRoot { bytenr, root_dirid })
    }

    /// The top directory of the top-level subvolume.
    pub fn root(&self) -> (r: Result<Loc, Stop>)
        requires
            self@.wf(),
        ensures
            same(r, root_of(self@)),
    {
        let t = self.tree(FS_TREE_OBJECTID)?;
        Ok(Loc { tree: FS_TREE_OBJECTID, ino: t.root_dirid })
    }

    /// Whether `loc` is the stand-in for a subvolume that is not there.
    pub fn is_placeholder(loc: Loc) -> (r: bool)
        ensures
            r == placeholder(loc),
    {
        loc.tree == 0
    }

    pub fn inode(&self, loc: Loc) -> (r: Result<Inode, Stop>)
        requires
            self@.wf(),
        ensures
            same(r, inode_at(self@, loc)),
    {
        if Self::is_placeholder(loc) {
            return Ok(
                Inode {
                    size: 0,
                    nlink: 1,
                    uid: 0,
                    gid: 0,
                    mode: 0x41ed,
                    mtime_sec: 0,
                    mtime_nsec: 0,
                },
            );
        }
        let t = self.tree(loc.tree)?;
        match self.get(t.bytenr, Key::new(loc.ino, INODE_ITEM_KEY, 0))? {
            Some(d) => stop(Inode::parse(d.as_slice())),
            None => Err(
                Stop::Error(Error::plain(ErrorKind::NoInode { ino: loc.ino, tree: loc.tree })),
            ),
        }
    }

    /// What the directory entry `e` of `dir` leads to.
    pub fn entry(&self, dir: Loc, e: &DirEntry) -> (r: Result<Entry, Stop>)
        requires
            self@.wf(),
        ensures
            same_view(r, entry_at(self@, dir, e@)),
    {
        let name = slice_to_vec(e.name.as_slice());
        assert(name@ =~= e.name@);
        let child: u64 = e.location.objectid;
        if e.location.ty != ROOT_ITEM_KEY {
            return Ok(
                Entry {
                    name,
                    loc: Loc { tree: dir.tree, ino: child },
                    ftype: e.ftype,
                    subvol: false,
                },
            );
        }
        let linked = self.get(self.sb().root, Key::new(dir.tree, ROOT_REF_KEY, child))?.is_some();
        let loc = if linked {
            let t = self.tree(child)?;
            Loc { tree: child, ino: t.root_dirid }
        } else {
            Loc { tree: 0, ino: 0 }
        };
        Ok(Entry { name, loc, ftype: FT_DIR, subvol: true })
    }

    /// Whether subvolume tree `id` was created as a snapshot of another.
    pub fn is_snapshot(&self, id: u64) -> (r: Result<bool, Stop>)
        requires
            self@.wf(),
        ensures
            same(r, snapshot_of(self@, id)),
    {
        let w = self.walk(self.sb().root, span_query(id, ROOT_ITEM_KEY));
        w.end?;
        let n: usize = w.items.len();
        Ok(n > 0 && is_snapshot_mark(w.items[n - 1].data.as_slice()))
    }

    /// The entry that `dir` has under `name`.
    pub fn lookup(&self, dir: Loc, name: &[u8]) -> (r: Result<Option<Entry>, Stop>)
        requires
            self@.wf(),
        ensures
            same_option(r, lookup_of(self@, dir, name@)),
    {
        if Self::is_placeholder(dir) {
            return Ok(None);
        }
        let t = self.tree(dir.tree)?;
        let d = match self.get(t.bytenr, Key::new(dir.ino, DIR_ITEM_KEY, name_hash(name)))? {
            Some(d) => d,
            None => {
                return Ok(None);
            },
        };
        let all = stop(parse_dir_entries(d.as_slice()))?;
        match find_named(&all, name) {
            Some(i) => Ok(Some(self.entry(dir, &all[i])?)),
            None => Ok(None),
        }
    }

    fn entries(&self, dir: Loc, raw: &Vec<DirEntry>) -> (r: Result<Vec<Entry>, Stop>)
        requires
            self@.wf(),
        ensures
            same_views(r, entries_at(self@, dir, views(raw@))),
    {
        let ghost all = views(raw@);
        let mut out: Vec<Entry> = Vec::new();
        let mut i: usize = 0;
        assert(all.take(0) =~= seq![]);
        assert(views(out@) =~= seq![]);
        while i < raw.len()
            invariant
                self@.wf(),
                i <= raw@.len(),
                all == views(raw@),
                entries_at(self@, dir, all.take(i as int)) == Ok::<Seq<EntryView>, StopView>(
                    views(out@),
                ),
            decreases raw@.len() - i,
        {
            let ghost part = all.take(i + 1);
            assert(part.drop_last() =~= all.take(i as int));
            assert(part.last() == raw@[i as int]@);
            match self.entry(dir, &raw[i]) {
                Ok(x) => {
                    proof {
                        lemma_views_push(out@, x);
                    }
                    out.push(x);
                },
                Err(s) => {
                    proof {
                        lemma_entries_at_fail(self@, dir, all, i + 1);
                    }
                    return Err(s);
                },
            }
            i += 1;
        }
        assert(all.take(i as int) =~= all);
        Ok(out)
    }

    /// The entries of `dir`, sorted by name.
    pub fn readdir(&self, dir: Loc) -> (r: Result<Vec<Entry>, Stop>)
        requires
            self@.wf(),
        ensures
            match r {
                Ok(v) => listing_of(self@, dir) matches Ok(all) && stably_sorted::<Entry>(
                    all,
                    views(v@),
                ),
                Err(s) => listing_of(self@, dir) == Err::<Seq<EntryView>, StopView>(s@),
            },
    {
        let mut out: Vec<Entry> = Vec::new();
        if !Self::is_placeholder(dir) {
            let t = self.tree(dir.tree)?;
            let w = self.walk(t.bytenr, span_query(dir.ino, DIR_INDEX_KEY));
            let raw = stop(parse_entries(&w.items))?;
            w.end?;
            out = self.entries(dir, &raw)?;
        }
        assert(listing_of(self@, dir)->Ok_0 =~= views(out@));
        Ok(sort(&out))
    }

    /// The extents of the file at `loc`, in the order of its tree.
    pub fn extents(&self, loc: Loc) -> (r: Result<Vec<Extent>, Stop>)
        requires
            self@.wf(),
        ensures
            same_views(r, extents_at(self@, loc)),
    {
        let t = self.tree(loc.tree)?;
        let w = self.walk(t.bytenr, span_query(loc.ino, EXTENT_DATA_KEY));
        let all = stop(parse_extents(&w.items))?;
        w.end?;
        Ok(all)
    }

    /// The id of the subvolume that is mounted where none is named.
    pub fn default_subvol(&self) -> (r: Result<u64, Stop>)
        requires
            self@.wf(),
        ensures
            same(r, default_of(self@)),
    {
        let key = Key::new(
            self.sb().root_dir_objectid,
            DIR_ITEM_KEY,
            name_hash("default".as_bytes()),
        );
        match self.get(self.sb().root, key)? {
            None => Ok(FS_TREE_OBJECTID),
            Some(d) => {
                let all = stop(parse_dir_entries(d.as_slice()))?;
                if all.len() == 0 {
                    Ok(FS_TREE_OBJECTID)
                } else {
                    assert(views(all@)[0] == all@[0]@);
                    Ok(all[0].location.objectid)
                }
            },
        }
    }
}

} // verus!
