//! Subvolumes and their paths.

use std::collections::HashMap;
use vstd::prelude::*;
use vstd::std_specs::hash::*;
use vstd::string::*;

use crate::disk::{
    bytes, field, le, lemma_le_fits, u16_at, u16_field, u64_at, u64_field, Key,
    FIRST_FREE_OBJECTID, FS_TREE_OBJECTID, INODE_REF_KEY, LAST_FREE_OBJECTID, ROOT_BACKREF_KEY,
    ROOT_ITEM_KEY,
};
use crate::error::{plain, Error, ErrorKind, ErrorView};
use crate::fs::{stop, Fs, FsView, Stop, StopView};
use crate::lookup::{is_snapshot_mark, snapshot_mark, tree_of, TreeRoot};
use crate::model::{lemma_views_push, views};
use crate::sort::{sort, stably_sorted, Ranked};
use crate::text::{lossy, utf8_lossy, Text};
use crate::tree::{tree_walk, Item, ItemView, Query};

verus! {

broadcast use group_hash_axioms;

/// A chain of parents longer than this never reaches the top.
pub const MAX_PARENTS: usize = 4096;

pub struct Subvol {
    pub id: u64,
    pub parent: u64,
    pub path: String,
    pub readonly: bool,
    pub snapshot: bool,
    pub generation: u64,
}

#[verifier::ext_equal]
pub struct SubvolView {
    pub id: u64,
    pub parent: u64,
    pub path: Seq<char>,
    pub readonly: bool,
    pub snapshot: bool,
    pub generation: u64,
}

impl View for Subvol {
    type V = SubvolView;

    open spec fn view(&self) -> SubvolView {
        SubvolView {
            id: self.id,
            parent: self.parent,
            path: self.path@,
            readonly: self.readonly,
            snapshot: self.snapshot,
            generation: self.generation,
        }
    }
}

/// Subvolumes are ranked by id.
impl Ranked for Subvol {
    open spec fn below(a: SubvolView, b: SubvolView) -> bool {
        a.id < b.id
    }

    fn is_below(&self, other: &Self) -> (r: bool) {
        self.id < other.id
    }

    fn copy(&self) -> (c: Self) {
        Subvol {
            id: self.id,
            parent: self.parent,
            path: self.path.clone(),
            readonly: self.readonly,
            snapshot: self.snapshot,
            generation: self.generation,
        }
    }

    proof fn irreflexive(a: SubvolView) {
    }

    proof fn transitive(a: SubvolView, b: SubvolView, c: SubvolView) {
    }

    proof fn same_rank(a: SubvolView, b: SubvolView, c: SubvolView) {
    }
}

/// What a root item says of a subvolume.
#[derive(Clone, Copy, Debug, PartialEq, Eq, Structural)]
pub struct RootInfo {
    pub id: u64,
    pub generation: u64,
    pub readonly: bool,
    pub snapshot: bool,
}

/// Where a subvolume hangs: in which tree, in which directory, under which name.
struct Backref {
    parent: u64,
    dirid: u64,
    name: String,
}

#[verifier::ext_equal]
pub struct BackrefView {
    pub parent: u64,
    pub dirid: u64,
    pub name: Seq<char>,
}

impl View for Backref {
    type V = BackrefView;

    closed spec fn view(&self) -> BackrefView {
        BackrefView { parent: self.parent, dirid: self.dirid, name: self.name@ }
    }
}

/// The root item `d` of the subvolume `id`.
pub open spec fn root_info_of(id: u64, d: Seq<u8>) -> Result<RootInfo, ErrorView> {
    match (u64_field(d, 160), u64_field(d, 208)) {
        (Err(e), _) => Err(e),
        (_, Err(e)) => Err(e),
        (Ok(generation), Ok(flags)) => Ok(
            RootInfo { id, generation, readonly: flags & 1 != 0, snapshot: snapshot_mark(d) },
        ),
    }
}

/// The back reference `d` to the tree `parent`.
pub open spec fn backref_of(parent: u64, d: Seq<u8>) -> Result<BackrefView, ErrorView> {
    match (u16_field(d, 16), field(d, 18, le(d, 16, 2) as int), u64_field(d, 0)) {
        (Err(e), _, _) => Err(e),
        (_, Err(e), _) => Err(e),
        (_, _, Err(e)) => Err(e),
        (Ok(_), Ok(name), Ok(dirid)) => Ok(
            BackrefView { parent, dirid, name: utf8_lossy(name) },
        ),
    }
}

/// What the root tree holds of subvolumes.
#[verifier::ext_equal]
pub struct RootsView {
    pub roots: Seq<RootInfo>,
    pub refs: Map<u64, BackrefView>,
}

/// The root items and back references among the items of the root tree.
pub open spec fn roots_in(items: Seq<ItemView>) -> Result<RootsView, ErrorView>
    decreases items.len(),
{
    if items.len() == 0 {
        Ok(RootsView { roots: seq![], refs: Map::empty() })
    } else {
        let x = items.last();
        match roots_in(items.drop_last()) {
            Err(e) => Err(e),
            Ok(front) => if x.key.ty == ROOT_ITEM_KEY {
                match root_info_of(x.key.objectid, x.data) {
                    Err(e) => Err(e),
                    Ok(info) => Ok(RootsView { roots: front.roots.push(info), ..front }),
                }
            } else if x.key.ty == ROOT_BACKREF_KEY {
                match backref_of(x.key.offset, x.data) {
                    Err(e) => Err(e),
                    Ok(b) => Ok(
                        RootsView { refs: front.refs.insert(x.key.objectid, b), ..front },
                    ),
                }
            } else {
                Ok(front)
            },
        }
    }
}

/// Of neighbours with the same id, only the last. They are the root items of one subvolume, by
/// ascending transaction, and the newest counts.
pub open spec fn deduped(s: Seq<RootInfo>) -> Seq<RootInfo>
    decreases s.len(),
{
    if s.len() == 0 {
        s
    } else {
        let front = deduped(s.drop_last());
        if front.len() > 0 && front.last().id == s.last().id {
            front.update(front.len() - 1, s.last())
        } else {
            front.push(s.last())
        }
    }
}

/// The name in an inode reference.
pub open spec fn ref_name(d: Seq<u8>) -> Result<Seq<char>, ErrorView> {
    match (u16_field(d, 8), field(d, 10, le(d, 8, 2) as int)) {
        (Err(e), _) => Err(e),
        (_, Err(e)) => Err(e),
        (Ok(_), Ok(name)) => Ok(utf8_lossy(name)),
    }
}

/// The first of the references of an inode.
pub open spec fn first_ref(ino: u64) -> Query {
    Query {
        min: Key { objectid: ino, ty: INODE_REF_KEY, offset: 0 },
        max: Key { objectid: ino, ty: INODE_REF_KEY, offset: u64::MAX },
        first: true,
    }
}

/// The directory that inode `ino` is in, and the name it has there.
pub open spec fn parent_of(f: FsView, root: TreeRoot, tree: u64, ino: u64) -> Result<
    (u64, Seq<char>),
    StopView,
> {
    let w = tree_walk(f, root.bytenr, first_ref(ino));
    if w.items.len() > 0 && ref_name(w.items[0].data) is Err {
        Err(StopView::Error(ref_name(w.items[0].data)->Err_0))
    } else {
        match w.end {
            Err(s) => Err(s),
            Ok(_) => if w.items.len() == 0 {
                Err(StopView::Error(plain(ErrorKind::NoParent { ino, tree })))
            } else {
                Ok((w.items[0].key.offset, ref_name(w.items[0].data)->Ok_0))
            },
        }
    }
}

/// The names that lead from the top of a tree to inode `ino`, of which `known` are known.
pub open spec fn names_to(f: FsView, root: TreeRoot, tree: u64, ino: u64, known: int) -> Result<
    Seq<Seq<char>>,
    StopView,
>
    decreases MAX_PARENTS - known,
{
    if ino == root.root_dirid {
        Ok(seq![])
    } else if known >= MAX_PARENTS {
        Err(StopView::Error(plain(ErrorKind::ParentChain { ino, tree })))
    } else {
        match parent_of(f, root, tree, ino) {
            Err(s) => Err(s),
            Ok((parent, name)) => match names_to(f, root, tree, parent, known + 1) {
                Err(s) => Err(s),
                Ok(names) => Ok(names.push(name)),
            },
        }
    }
}

/// Texts joined by slashes.
pub open spec fn slashed(parts: Seq<Seq<char>>) -> Seq<char>
    decreases parts.len(),
{
    if parts.len() == 0 {
        seq![]
    } else if parts.len() == 1 {
        parts[0]
    } else {
        slashed(parts.drop_last()) + seq!['/'] + parts.last()
    }
}

/// The path of inode `ino` inside its own tree.
pub open spec fn path_in(f: FsView, tree: u64, ino: u64) -> Result<Seq<char>, StopView> {
    match tree_of(f, tree) {
        Err(s) => Err(s),
        Ok(root) => match names_to(f, root, tree, ino, 0) {
            Err(s) => Err(s),
            Ok(names) => Ok(slashed(names)),
        },
    }
}

/// A path made of three parts, of which those that are empty are left out.
pub open spec fn chained(a: Seq<char>, b: Seq<char>, c: Seq<char>) -> Seq<char> {
    slashed(seq![a, b, c].filter(|s: Seq<char>| s.len() > 0))
}

/// How far the subvolumes have been placed.
#[verifier::ext_equal]
pub struct PlacedView {
    /// The path of each tree that has one, without the leading slash.
    pub paths: Map<u64, Seq<char>>,
    pub out: Seq<SubvolView>,
    /// Those whose parent has no path yet.
    pub next: Seq<RootInfo>,
}

/// One subvolume joins the others: one without a back reference is dropped, one whose
/// parent has no path yet is put off.
pub open spec fn place_one(
    f: FsView,
    p: PlacedView,
    it: RootInfo,
    refs: Map<u64, BackrefView>,
) -> Result<PlacedView, StopView> {
    let b = refs[it.id];
    if !refs.contains_key(it.id) {
        Ok(p)
    } else if !p.paths.contains_key(b.parent) {
        Ok(PlacedView { next: p.next.push(it), ..p })
    } else {
        match path_in(f, b.parent, b.dirid) {
            Err(s) => Err(s),
            Ok(dir) => {
                let path = chained(p.paths[b.parent], dir, b.name);
                Ok(
                    PlacedView {
                        paths: p.paths.insert(it.id, path),
                        out: p.out.push(
                            SubvolView {
                                id: it.id,
                                parent: b.parent,
                                path: seq!['/'] + path,
                                readonly: it.readonly,
                                snapshot: it.snapshot,
                                generation: it.generation,
                            },
                        ),
                        ..p
                    },
                )
            },
        }
    }
}

/// The subvolumes `pending`, one after another.
pub open spec fn place_all(
    f: FsView,
    p: PlacedView,
    pending: Seq<RootInfo>,
    refs: Map<u64, BackrefView>,
) -> Result<PlacedView, StopView>
    decreases pending.len(),
{
    if pending.len() == 0 {
        Ok(p)
    } else {
        match place_all(f, p, pending.drop_last(), refs) {
            Err(s) => Err(s),
            Ok(q) => place_one(f, q, pending.last(), refs),
        }
    }
}

/// Rounds over those put off, until nothing new is placed: a subvolume that was moved may
/// have an id below that of its parent.
pub open spec fn place_rounds(
    f: FsView,
    p: PlacedView,
    pending: Seq<RootInfo>,
    refs: Map<u64, BackrefView>,
) -> Result<PlacedView, StopView>
    decreases pending.len(),
{
    if pending.len() == 0 {
        Ok(p)
    } else {
        match place_all(f, PlacedView { next: seq![], ..p }, pending, refs) {
            Err(s) => Err(s),
            Ok(q) => if q.next.len() >= pending.len() {
                Ok(PlacedView { next: seq![], ..q })
            } else {
                place_rounds(f, PlacedView { next: seq![], ..q }, q.next, refs)
            },
        }
    }
}

/// The subvolumes other than the top-level one that hang from it, in the order in which
/// they were placed.
pub open spec fn subvols_of(f: FsView) -> Result<Seq<SubvolView>, StopView> {
    let w = tree_walk(f, f.sb.root, all_roots());
    match (roots_in(w.items), w.end) {
        (Err(e), _) => Err(StopView::Error(e)),
        (_, Err(s)) => Err(s),
        (Ok(r), Ok(_)) => match place_rounds(f, nothing_placed(), deduped(r.roots), r.refs) {
            Err(s) => Err(s),
            Ok(p) => Ok(p.out),
        },
    }
}

/// At first only the top-level subvolume has a path, the empty one.
pub open spec fn nothing_placed() -> PlacedView {
    PlacedView { paths: map![FS_TREE_OBJECTID => seq![]], out: seq![], next: seq![] }
}

/// The items of the root tree that are about subvolumes.
pub open spec fn all_roots() -> Query {
    Query {
        min: Key { objectid: FIRST_FREE_OBJECTID, ty: 0, offset: 0 },
        max: Key { objectid: LAST_FREE_OBJECTID, ty: 255, offset: u64::MAX },
        first: false,
    }
}

fn parse_root(id: u64, d: &[u8]) -> (r: Result<RootInfo, Error>)
    ensures
        match r {
            Ok(x) => root_info_of(id, d@) == Ok::<RootInfo, ErrorView>(x),
            Err(e) => root_info_of(id, d@) == Err::<RootInfo, ErrorView>(e@),
        },
{
    let snapshot = is_snapshot_mark(d);
    let generation = u64_at(d, 160)?;
    let flags = u64_at(d, 208)?;
    Ok(RootInfo { id, generation, readonly: flags & 1 != 0, snapshot })
}

fn parse_backref(parent: u64, d: &[u8]) -> (r: Result<Backref, Error>)
    ensures
        match r {
            Ok(x) => backref_of(parent, d@) == Ok::<BackrefView, ErrorView>(x@),
            Err(e) => backref_of(parent, d@) == Err::<BackrefView, ErrorView>(e@),
        },
{
    proof {
        lemma_le_fits(d@, 16);
    }
    let len: usize = u16_at(d, 16)? as usize;
    let name = lossy(bytes(d, 18, len)?);
    let dirid = u64_at(d, 0)?;
    Ok(Backref { parent, dirid, name })
}

fn parse_ref_name(d: &[u8]) -> (r: Result<String, Error>)
    ensures
        match r {
            Ok(x) => ref_name(d@) == Ok::<Seq<char>, ErrorView>(x@),
            Err(e) => ref_name(d@) == Err::<Seq<char>, ErrorView>(e@),
        },
{
    proof {
        lemma_le_fits(d@, 8);
    }
    let len: usize = u16_at(d, 8)? as usize;
    Ok(lossy(bytes(d, 10, len)?))
}

struct Roots {
    roots: Vec<RootInfo>,
    refs: HashMap<u64, Backref>,
}

impl View for Roots {
    type V = RootsView;

    closed spec fn view(&self) -> RootsView {
        RootsView { roots: self.roots@, refs: self.refs@.map_values(|b: Backref| b@) }
    }
}

proof fn lemma_roots_fail(items: Seq<ItemView>, k: int)
    requires
        0 <= k <= items.len(),
        roots_in(items.take(k)) is Err,
    ensures
        roots_in(items) == roots_in(items.take(k)),
    decreases items.len(),
{
    if k == items.len() {
        assert(items.take(k) =~= items);
    } else {
        assert(items.drop_last().take(k) =~= items.take(k));
        lemma_roots_fail(items.drop_last(), k);
    }
}

fn parse_roots(items: &Vec<Item>) -> (r: Result<Roots, Error>)
    ensures
        match r {
            Ok(x) => roots_in(views(items@)) == Ok::<RootsView, ErrorView>(x@),
            Err(e) => roots_in(views(items@)) == Err::<RootsView, ErrorView>(e@),
        },
{
    let ghost all = views(items@);
    let mut out = Roots { roots: Vec::new(), refs: HashMap::new() };
    let mut i: usize = 0;
    assert(all.take(0) =~= seq![]);
    assert(out@.refs =~= Map::empty());
    while i < items.len()
        invariant
            i <= items@.len(),
            all == views(items@),
            roots_in(all.take(i as int)) == Ok::<RootsView, ErrorView>(out@),
        decreases items@.len() - i,
    {
        let item = &items[i];
        let ghost part = all.take(i + 1);
        let ghost before = out@;
        assert(part.drop_last() =~= all.take(i as int));
        assert(part.last() == item@);
        if item.key.ty == ROOT_ITEM_KEY {
            match parse_root(item.key.objectid, item.data.as_slice()) {
                Ok(info) => {
                    out.roots.push(info);
                    assert(out@ =~= (RootsView { roots: before.roots.push(info), ..before }));
                },
                Err(e) => {
                    proof {
                        lemma_roots_fail(all, i + 1);
                    }
                    return Err(e);
                },
            }
        } else if item.key.ty == ROOT_BACKREF_KEY {
            match parse_backref(item.key.offset, item.data.as_slice()) {
                Ok(b) => {
                    let ghost v = b@;
                    out.refs.insert(item.key.objectid, b);
                    assert(out@.refs =~= before.refs.insert(item.key.objectid, v));
                },
                Err(e) => {
                    proof {
                        lemma_roots_fail(all, i + 1);
                    }
                    return Err(e);
                },
            }
        }
        i += 1;
    }
    assert(all.take(i as int) =~= all);
    Ok(out)
}

fn dedup(s: &Vec<RootInfo>) -> (r: Vec<RootInfo>)
    ensures
        r@ == deduped(s@),
{
    let mut out: Vec<RootInfo> = Vec::new();
    let mut i: usize = 0;
    assert(s@.take(0) =~= seq![]);
    while i < s.len()
        invariant
            i <= s@.len(),
            out@ == deduped(s@.take(i as int)),
        decreases s@.len() - i,
    {
        let ghost part = s@.take(i + 1);
        assert(part.drop_last() =~= s@.take(i as int));
        let n: usize = out.len();
        if n == 0 || out[n - 1].id != s[i].id {
            out.push(s[i]);
        } else {
            out.set(n - 1, s[i]);
        }
        i += 1;
    }
    assert(s@.take(i as int) =~= s@);
    out
}

/// Joins texts by slashes.
pub(crate) fn slash(parts: &Vec<String>) -> (r: String)
    ensures
        r@ == slashed(views(parts@)),
{
    let ghost all = views(parts@);
    let mut out = String::new();
    let mut i: usize = 0;
    assert(all.take(0) =~= seq![]);
    assert(out@ =~= seq![]);
    while i < parts.len()
        invariant
            i <= parts@.len(),
            all == views(parts@),
            out@ == slashed(all.take(i as int)),
        decreases parts@.len() - i,
    {
        let ghost part = all.take(i + 1);
        let ghost before = out@;
        assert(part.drop_last() =~= all.take(i as int));
        assert(part.last() == parts@[i as int]@);
        if i > 0 {
            out.push('/');
        }
        out.append(parts[i].as_str());
        proof {
            if i > 0 {
                assert(out@ =~= before + seq!['/'] + part.last());
            } else {
                assert(out@ =~= part[0]);
            }
        }
        i += 1;
    }
    assert(all.take(i as int) =~= all);
    out
}

/// Joins three texts by slashes, leaving out those that are empty.
fn chain(a: &str, b: &str, c: &str) -> (r: String)
    ensures
        r@ == chained(a@, b@, c@),
{
    let ghost pred = |s: Seq<char>| s.len() > 0;
    let mut parts: Vec<String> = Vec::new();
    proof {
        reveal_with_fuel(Seq::filter, 4);
        let abc = seq![a@, b@, c@];
        let ab = seq![a@, b@];
        let one = seq![a@];
        let none = Seq::<Seq<char>>::empty();
        assert(abc.drop_last() =~= ab);
        assert(ab.drop_last() =~= one);
        assert(one.drop_last() =~= none);
    }
    if !a.is_empty() {
        parts.push(a.to_owned());
    }
    if !b.is_empty() {
        parts.push(b.to_owned());
    }
    if !c.is_empty() {
        parts.push(c.to_owned());
    }
    assert(views(parts@) =~= seq![a@, b@, c@].filter(pred));
    slash(&parts)
}

struct Placed {
    paths: HashMap<u64, String>,
    out: Vec<Subvol>,
    next: Vec<RootInfo>,
}

impl View for Placed {
    type V = PlacedView;

    closed spec fn view(&self) -> PlacedView {
        PlacedView {
            paths: self.paths@.map_values(|s: String| s@),
            out: views(self.out@),
            next: self.next@,
        }
    }
}

proof fn lemma_place_fails(
    f: FsView,
    p: PlacedView,
    pending: Seq<RootInfo>,
    refs: Map<u64, BackrefView>,
    k: int,
)
    requires
        0 <= k <= pending.len(),
        place_all(f, p, pending.take(k), refs) is Err,
    ensures
        place_all(f, p, pending, refs) == place_all(f, p, pending.take(k), refs),
    decreases pending.len(),
{
    if k == pending.len() {
        assert(pending.take(k) =~= pending);
    } else {
        assert(pending.drop_last().take(k) =~= pending.take(k));
        lemma_place_fails(f, p, pending.drop_last(), refs, k);
    }
}

impl Fs {
    /// The directory that inode `ino` is in, and the name it has there.
    fn parent(&self, root: TreeRoot, tree: u64, ino: u64) -> (r: Result<(u64, String), Stop>)
        requires
            self@.wf(),
        ensures
            match r {
                Ok((p, name)) => parent_of(self@, root, tree, ino) == Ok::<
                    (u64, Seq<char>),
                    StopView,
                >((p, name@)),
                Err(s) => parent_of(self@, root, tree, ino) == Err::<(u64, Seq<char>), StopView>(
                    s@,
                ),
            },
    {
        let w = self.walk(
            root.bytenr,
            Query {
                min: Key::new(ino, INODE_REF_KEY, 0),
                max: Key::new(ino, INODE_REF_KEY, u64::MAX),
                first: true,
            },
        );
        let mut found: Option<(u64, String)> = None;
        if w.items.len() > 0 {
            let item = &w.items[0];
            assert(w@.items[0] == item@);
            let name = stop(parse_ref_name(item.data.as_slice()))?;
            found = Some((item.key.offset, name));
        }
        w.end?;
        match found {
            Some(x) => Ok(x),
            None => Err(Stop::Error(Error::plain(ErrorKind::NoParent { ino, tree }))),
        }
    }

    /// The path of inode `ino` inside its own tree, built by climbing the references.
    pub fn path_in_tree(&self, tree: u64, ino: u64) -> (r: Result<String, Stop>)
        requires
            self@.wf(),
        ensures
            match r {
                Ok(s) => path_in(self@, tree, ino) == Ok::<Seq<char>, StopView>(s@),
                Err(s) => path_in(self@, tree, ino) == Err::<Seq<char>, StopView>(s@),
            },
    {
        let root = self.tree(tree)?;
        let mut at: u64 = ino;
        let mut names: Vec<String> = Vec::new();
        proof {
            if let Ok(p) = names_to(self@, root, tree, ino, 0) {
                assert(p + views(names@).reverse() =~= p);
            }
        }
        while at != root.root_dirid
            invariant
                self@.wf(),
                names@.len() <= MAX_PARENTS,
                match names_to(self@, root, tree, at, names@.len() as int) {
                    Ok(p) => names_to(self@, root, tree, ino, 0) == Ok::<
                        Seq<Seq<char>>,
                        StopView,
                    >(p + views(names@).reverse()),
                    Err(s) => names_to(self@, root, tree, ino, 0) == Err::<
                        Seq<Seq<char>>,
                        StopView,
                    >(s),
                },
                tree_of(self@, tree) == Ok::<TreeRoot, StopView>(root),
            decreases MAX_PARENTS - names@.len(),
        {
            if names.len() >= MAX_PARENTS {
                return Err(Stop::Error(Error::plain(ErrorKind::ParentChain { ino: at, tree })));
            }
            let (up, name) = self.parent(root, tree, at)?;
            let ghost sofar = views(names@);
            let ghost v = name@;
            proof {
                lemma_views_push(names@, name);
            }
            names.push(name);
            at = up;
            proof {
                if let Ok(p) = names_to(self@, root, tree, at, names@.len() as int) {
                    assert(p.push(v) + sofar.reverse() =~= p + views(names@).reverse());
                }
            }
        }
        let mut ordered: Vec<String> = Vec::new();
        let mut i: usize = names.len();
        while i > 0
            invariant
                i <= names@.len(),
                views(ordered@) == views(names@).reverse().take(names@.len() - i),
            decreases i,
        {
            i -= 1;
            let ghost before = views(ordered@);
            let name = names[i].clone();
            proof {
                lemma_views_push(ordered@, name);
            }
            ordered.push(name);
            assert(views(ordered@) =~= views(names@).reverse().take(names@.len() - i));
        }
        assert(views(ordered@) =~= seq![] + views(names@).reverse());
        Ok(slash(&ordered))
    }

    fn place_one(&self, p: &mut Placed, it: RootInfo, roots: &Roots) -> (r: Result<(), Stop>)
        requires
            self@.wf(),
        ensures
            match r {
                Ok(_) => place_one(self@, old(p)@, it, roots@.refs) == Ok::<PlacedView, StopView>(
                    final(p)@,
                ),
                Err(s) => place_one(self@, old(p)@, it, roots@.refs) == Err::<
                    PlacedView,
                    StopView,
                >(s@),
            },
    {
        let ghost before = p@;
        let b = match roots.refs.get(&it.id) {
            Some(b) => b,
            None => {
                return Ok(());
            },
        };
        assert(roots@.refs[it.id] == b@);
        let path = match p.paths.get(&b.parent) {
            Some(up) => {
                assert(before.paths[b.parent] == up@);
                let dir = self.path_in_tree(b.parent, b.dirid)?;
                chain(up.as_str(), dir.as_str(), b.name.as_str())
            },
            None => {
                p.next.push(it);
                assert(p@ =~= (PlacedView { next: before.next.push(it), ..before }));
                return Ok(());
            },
        };
        let s = Subvol {
            id: it.id,
            parent: b.parent,
            path: Text::of("/").lit(path.as_str()).done(),
            readonly: it.readonly,
            snapshot: it.snapshot,
            generation: it.generation,
        };
        let ghost v = s@;
        let ghost text = path@;
        proof {
            reveal_strlit("/");
            assert("/"@ =~= seq!['/']);
            lemma_views_push(p.out@, s);
        }
        p.paths.insert(it.id, path);
        p.out.push(s);
        assert(p@.paths =~= before.paths.insert(it.id, text));
        Ok(())
    }

    /// The subvolumes and snapshots with their paths, by ascending id.
    pub fn subvols(&self) -> (r: Result<Vec<Subvol>, Stop>)
        requires
            self@.wf(),
        ensures
            match r {
                Ok(v) => subvols_of(self@) matches Ok(all) && stably_sorted::<Subvol>(
                    all,
                    views(v@),
                ),
                Err(s) => subvols_of(self@) == Err::<Seq<SubvolView>, StopView>(s@),
            },
    {
        let w = self.walk(
            self.sb().root,
            Query {
                min: Key::new(FIRST_FREE_OBJECTID, 0, 0),
                max: Key::new(LAST_FREE_OBJECTID, 255, u64::MAX),
                first: false,
            },
        );
        let roots = stop(parse_roots(&w.items))?;
        w.end?;
        let mut p = Placed { paths: HashMap::new(), out: Vec::new(), next: Vec::new() };
        p.paths.insert(FS_TREE_OBJECTID, String::new());
        proof {
            assert(p@.paths =~= nothing_placed().paths) by {
                assert(p.paths@[FS_TREE_OBJECTID]@ =~= seq![]);
            }
            assert(p@ =~= nothing_placed());
        }
        let mut pending = dedup(&roots.roots);
        let ghost all = place_rounds(self@, p@, pending@, roots@.refs);
        while pending.len() > 0
            invariant
                self@.wf(),
                all == place_rounds(self@, p@, pending@, roots@.refs),
                match all {
                    Ok(q) => subvols_of(self@) == Ok::<Seq<SubvolView>, StopView>(q.out),
                    Err(s) => subvols_of(self@) == Err::<Seq<SubvolView>, StopView>(s),
                },
            decreases pending@.len(),
        {
            p.next = Vec::new();
            let ghost start = p@;
            let mut i: usize = 0;
            assert(pending@.take(0) =~= seq![]);
            while i < pending.len()
                invariant
                    self@.wf(),
                    i <= pending@.len(),
                    p@.next.len() <= i,
                    place_all(self@, start, pending@.take(i as int), roots@.refs) == Ok::<
                        PlacedView,
                        StopView,
                    >(p@),
                    place_all(self@, start, pending@, roots@.refs) matches Err(s)
                        ==> subvols_of(self@) == Err::<Seq<SubvolView>, StopView>(s),
                decreases pending@.len() - i,
            {
                let ghost part = pending@.take(i + 1);
                assert(part.drop_last() =~= pending@.take(i as int));
                match self.place_one(&mut p, pending[i], &roots) {
                    Ok(_) => {},
                    Err(s) => {
                        proof {
                            lemma_place_fails(self@, start, pending@, roots@.refs, i + 1);
                        }
                        return Err(s);
                    },
                }
                i += 1;
            }
            assert(pending@.take(i as int) =~= pending@);
            let ghost q = p@;
            let mut next: Vec<RootInfo> = Vec::new();
            core::mem::swap(&mut next, &mut p.next);
            assert(p@ =~= (PlacedView { next: seq![], ..q }));
            if next.len() >= pending.len() {
                pending = Vec::new();
            } else {
                pending = next;
            }
        }
        Ok(sort(&p.out))
    }
}

} // verus!
