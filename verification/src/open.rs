//! Opening: from the superblocks of the devices to a filesystem whose chunk map is known.

use vstd::prelude::*;
use vstd::slice::*;
use vstd::string::*;

use crate::chunks::{add_chunk, ascending, with_chunk, with_chunks};
use crate::disk::{
    chunk_of, key_field, superblock_of, Chunk, ChunkView, Key, Superblock, SuperblockView,
    CHUNK_ITEM_KEY, INCOMPAT_REFUSED, KEY_SIZE,
};
use crate::error::{about, because, plain, within, Error, ErrorKind, ErrorView};
use crate::fs::{Fs, FsView, Stop, StopView};
use crate::model::{lemma_views_push, views};
use crate::text::Text;
use crate::tree::{tree_walk, Item, ItemView, Query};

verus! {

/// What became of the attempt to read a device's superblock.
pub enum Outcome {
    /// The device could not be opened.
    NotOpened(Error),
    /// It was opened, and the read failed; what the host said.
    NotRead(String),
    /// The bytes of the superblock.
    Super(Vec<u8>),
}

/// A device that was named, and what its superblock was.
pub struct Probe {
    pub path: String,
    pub outcome: Outcome,
}

#[verifier::ext_equal]
pub enum OutcomeView {
    NotOpened(ErrorView),
    NotRead(Seq<char>),
    Super(Seq<u8>),
}

#[verifier::ext_equal]
pub struct ProbeView {
    pub path: Seq<char>,
    pub outcome: OutcomeView,
}

impl View for Probe {
    type V = ProbeView;

    open spec fn view(&self) -> ProbeView {
        ProbeView {
            path: self.path@,
            outcome: match self.outcome {
                Outcome::NotOpened(e) => OutcomeView::NotOpened(e@),
                Outcome::NotRead(m) => OutcomeView::NotRead(m@),
                Outcome::Super(b) => OutcomeView::Super(b@),
            },
        }
    }
}

/// The devices gathered so far, by ascending id, and the superblock to go by.
#[verifier::ext_equal]
pub struct GatheredView {
    pub devs: Seq<u64>,
    pub paths: Seq<Seq<char>>,
    pub best: Option<SuperblockView>,
}

/// How many ids at the front are below `id`.
pub open spec fn rank(devs: Seq<u64>, id: u64) -> int
    decreases devs.len(),
{
    if devs.len() == 0 || devs.last() < id {
        devs.len() as int
    } else {
        rank(devs.drop_last(), id)
    }
}

/// A device joins the others; one with the same id gives way to it.
pub open spec fn with_device(g: GatheredView, id: u64, path: Seq<char>) -> GatheredView {
    let i = rank(g.devs, id);
    if i < g.devs.len() && g.devs[i] == id {
        GatheredView { paths: g.paths.update(i, path), ..g }
    } else {
        GatheredView { devs: g.devs.insert(i, id), paths: g.paths.insert(i, path), ..g }
    }
}

/// The superblock to go by: the one of the higher generation, the earlier on a tie.
pub open spec fn better(best: Option<SuperblockView>, sb: SuperblockView) -> Option<SuperblockView> {
    match best {
        Some(b) if sb.generation <= b.generation => best,
        _ => Some(sb),
    }
}

/// The superblock on a device, and the error where there is none.
pub open spec fn super_of(p: ProbeView) -> Result<SuperblockView, ErrorView> {
    match p.outcome {
        OutcomeView::NotOpened(e) => Err(e),
        OutcomeView::NotRead(m) => Err(
            within(because(ErrorKind::Host, m), p.path + ": reading superblock"@),
        ),
        OutcomeView::Super(b) => match superblock_of(b) {
            Err(e) => Err(within(e, p.path + ": not a btrfs filesystem"@)),
            Ok(sb) => Ok(sb),
        },
    }
}

/// The devices taken one after another; the first that does not fit ends it.
pub open spec fn gathered(probes: Seq<ProbeView>) -> Result<GatheredView, ErrorView>
    decreases probes.len(),
{
    if probes.len() == 0 {
        Ok(GatheredView { devs: seq![], paths: seq![], best: None })
    } else {
        match gathered(probes.drop_last()) {
            Err(e) => Err(e),
            Ok(g) => match super_of(probes.last()) {
                Err(e) => Err(e),
                Ok(sb) => if g.best is Some && (g.best->0).fsid != sb.fsid {
                    Err(about(ErrorKind::OtherFilesystem, probes.last().path))
                } else {
                    Ok(
                        GatheredView {
                            best: better(g.best, sb),
                            ..with_device(g, sb.devid, probes.last().path)
                        },
                    )
                },
            },
        }
    }
}

/// The SYSTEM chunks that the superblock carries from `off` on, joining `sofar`.
pub open spec fn system_chunks(arr: Seq<u8>, off: int, sofar: Seq<ChunkView>) -> Result<
    Seq<ChunkView>,
    ErrorView,
>
    decreases
            if off < arr.len() {
                arr.len() - off
            } else {
                0
            },
{
    if off >= arr.len() {
        Ok(sofar)
    } else {
        match key_field(arr, off) {
            Err(e) => Err(e),
            Ok(key) => if key.ty != CHUNK_ITEM_KEY {
                Err(plain(ErrorKind::SysArrayKey { ty: key.ty as u64 }))
            } else {
                match chunk_of(key.offset, arr.skip(off + 17)) {
                    Err(e) => Err(e),
                    Ok((c, used)) => system_chunks(arr, off + 17 + used, with_chunk(sofar, c)),
                }
            },
        }
    }
}

/// The filesystem that the devices make, its chunk map holding the SYSTEM chunks only.
pub open spec fn opened(probes: Seq<ProbeView>) -> Result<FsView, ErrorView> {
    if probes.len() == 0 {
        Err(plain(ErrorKind::NoDevice))
    } else {
        match gathered(probes) {
            Err(e) => Err(e),
            Ok(g) => {
                let sb = g.best->0;
                if sb.incompat_flags & INCOMPAT_REFUSED != 0 {
                    Err(plain(ErrorKind::RefusedFeature))
                } else {
                    match system_chunks(sb.sys_chunk_array, 0, seq![]) {
                        Err(e) => Err(e),
                        Ok(chunks) => Ok(
                            FsView {
                                sb,
                                devs: g.devs,
                                paths: g.paths,
                                chunks,
                                nodes: Map::empty(),
                                attempt: None,
                            },
                        ),
                    }
                }
            },
        }
    }
}

/// The chunks among the items of the chunk tree.
pub open spec fn chunks_in(items: Seq<ItemView>) -> Result<Seq<ChunkView>, ErrorView>
    decreases items.len(),
{
    if items.len() == 0 {
        Ok(seq![])
    } else {
        match chunks_in(items.drop_last()) {
            Err(e) => Err(e),
            Ok(front) => if items.last().key.ty != CHUNK_ITEM_KEY {
                Ok(front)
            } else {
                match chunk_of(items.last().key.offset, items.last().data) {
                    Err(e) => Err(e),
                    Ok((c, _)) => Ok(front.push(c)),
                }
            },
        }
    }
}

/// Every item there is.
pub open spec fn everything() -> Query {
    Query {
        min: Key { objectid: 0, ty: 0, offset: 0 },
        max: Key { objectid: u64::MAX, ty: 255, offset: u64::MAX },
        first: false,
    }
}

/// The chunks that the chunk tree holds.
pub open spec fn chunk_tree(f: FsView) -> Result<Seq<ChunkView>, StopView> {
    let w = tree_walk(f, f.sb.chunk_root, everything());
    match (chunks_in(w.items), w.end) {
        (Err(e), _) => Err(StopView::Error(within(e, "reading chunk tree"@))),
        (_, Err(StopView::Error(e))) => Err(StopView::Error(within(e, "reading chunk tree"@))),
        (_, Err(StopView::Read(r))) => Err(StopView::Read(r)),
        (Ok(cs), Ok(_)) => Ok(cs),
    }
}

struct Gathered {
    devs: Vec<u64>,
    paths: Vec<String>,
    best: Option<Superblock>,
}

impl Gathered {
    spec fn model(self) -> GatheredView {
        GatheredView {
            devs: self.devs@,
            paths: views(self.paths@),
            best: match self.best {
                Some(sb) => Some(sb@),
                None => None,
            },
        }
    }

    spec fn wf(self) -> bool {
        &&& self.devs@.len() == self.paths@.len()
        &&& forall|i: int, j: int| 0 <= i < j < self.devs@.len() ==> self.devs@[i] < self.devs@[j]
        &&& self.best matches Some(sb) ==> 4096 <= sb.nodesize <= 65536 && 512 <= sb.sectorsize
            <= 65536
    }

    fn add_device(&mut self, id: u64, path: String)
        requires
            old(self).wf(),
        ensures
            final(self).wf(),
            final(self).model() == with_device(old(self).model(), id, path@),
            final(self).best == old(self).best,
    {
        let ghost before = self.model();
        let ghost p = path@;
        let mut i: usize = self.devs.len();
        while i > 0 && self.devs[i - 1] >= id
            invariant
                i <= self.devs@.len(),
                self.wf(),
                self.model() == before,
                self.best == old(self).best,
                i < self.devs@.len() ==> self.devs@[i as int] >= id,
            decreases i,
        {
            i -= 1;
        }
        proof {
            lemma_rank(self.devs@, id, i as int);
        }
        if i < self.devs.len() && self.devs[i] == id {
            self.paths.set(i, path);
            assert(self.model() =~= with_device(before, id, p)) by {
                assert(views(self.paths@) =~= before.paths.update(i as int, p));
            }
        } else {
            self.devs.insert(i, id);
            self.paths.insert(i, path);
            assert(self.model() =~= with_device(before, id, p)) by {
                assert(views(self.paths@) =~= before.paths.insert(i as int, p));
            }
        }
    }
}

proof fn lemma_rank(devs: Seq<u64>, id: u64, i: int)
    requires
        forall|i: int, j: int| 0 <= i < j < devs.len() ==> devs[i] < devs[j],
        0 <= i <= devs.len(),
        i > 0 ==> devs[i - 1] < id,
        i < devs.len() ==> devs[i] >= id,
    ensures
        rank(devs, id) == i,
    decreases devs.len(),
{
    if devs.len() > 0 && i < devs.len() {
        assert(devs.last() >= devs[i]);
        lemma_rank(devs.drop_last(), id, i);
    }
}

fn probe_super(p: &Probe) -> (r: Result<Superblock, Error>)
    ensures
        match r {
            Ok(sb) => {
                &&& super_of(p@) == Ok::<SuperblockView, ErrorView>(sb@)
                &&& 4096 <= sb.nodesize <= 65536
                &&& 512 <= sb.sectorsize <= 65536
            },
            Err(e) => super_of(p@) == Err::<SuperblockView, ErrorView>(e@),
        },
{
    match &p.outcome {
        Outcome::NotOpened(e) => Err(e.copied()),
        Outcome::NotRead(m) => Err(
            Error::because(ErrorKind::Host, m.clone()).within(
                Text::of(p.path.as_str()).lit(": reading superblock").done(),
            ),
        ),
        Outcome::Super(b) => match Superblock::parse(b.as_slice()) {
            Ok(sb) => Ok(sb),
            Err(e) => Err(e.within(Text::of(p.path.as_str()).lit(": not a btrfs filesystem").done())),
        },
    }
}

fn same_fsid(a: &[u8; 16], b: &[u8; 16]) -> (r: bool)
    ensures
        r == (a@ == b@),
{
    let mut i: usize = 0;
    while i < 16
        invariant
            i <= 16,
            forall|k: int| 0 <= k < i ==> a@[k] == b@[k],
        decreases 16 - i,
    {
        if a[i] != b[i] {
            return false;
        }
        i += 1;
    }
    assert(a@ =~= b@);
    true
}

/// An error among the first devices is the error of all.
proof fn lemma_gathered_fails(probes: Seq<ProbeView>, k: int)
    requires
        0 <= k <= probes.len(),
        gathered(probes.take(k)) is Err,
    ensures
        gathered(probes) == gathered(probes.take(k)),
    decreases probes.len(),
{
    if k == probes.len() {
        assert(probes.take(k) =~= probes);
    } else {
        assert(probes.drop_last().take(k) =~= probes.take(k));
        lemma_gathered_fails(probes.drop_last(), k);
    }
}

fn gather(probes: Vec<Probe>) -> (r: Result<Gathered, Error>)
    ensures
        match r {
            Ok(g) => {
                &&& g.wf()
                &&& gathered(views(probes@)) == Ok::<GatheredView, ErrorView>(g.model())
                &&& probes@.len() > 0 ==> g.best is Some
            },
            Err(e) => gathered(views(probes@)) == Err::<GatheredView, ErrorView>(e@),
        },
{
    let mut g = Gathered { devs: Vec::new(), paths: Vec::new(), best: None };
    let ghost all = views(probes@);
    assert(all.take(0) =~= seq![]);
    assert(g.model().paths =~= seq![]);
    let mut i: usize = 0;
    while i < probes.len()
        invariant
            i <= probes@.len(),
            all == views(probes@),
            g.wf(),
            gathered(all.take(i as int)) == Ok::<GatheredView, ErrorView>(g.model()),
            i > 0 ==> g.best is Some,
        decreases probes@.len() - i,
    {
        let p = &probes[i];
        let ghost part = all.take(i + 1);
        assert(part.drop_last() =~= all.take(i as int));
        assert(part.last() == p@);
        let sb = match probe_super(p) {
            Ok(sb) => sb,
            Err(e) => {
                proof {
                    lemma_gathered_fails(all, i + 1);
                }
                return Err(e);
            },
        };
        let mut take = true;
        match &g.best {
            Some(b) => {
                if !same_fsid(&b.fsid, &sb.fsid) {
                    proof {
                        lemma_gathered_fails(all, i + 1);
                    }
                    return Err(Error::about(ErrorKind::OtherFilesystem, p.path.clone()));
                }
                take = sb.generation > b.generation;
            },
            None => {},
        }
        let ghost old_best = g.model().best;
        g.add_device(sb.devid, p.path.clone());
        if take {
            g.best = Some(sb);
        }
        i += 1;
    }
    assert(all.take(i as int) =~= all);
    Ok(g)
}

/// The chunks in the superblock's own array, enough to read the chunk tree.
fn bootstrap(arr: &[u8]) -> (r: Result<Vec<Chunk>, Error>)
    ensures
        match r {
            Ok(v) => {
                &&& ascending(views(v@))
                &&& system_chunks(arr@, 0, seq![]) == Ok::<Seq<ChunkView>, ErrorView>(views(v@))
            },
            Err(e) => system_chunks(arr@, 0, seq![]) == Err::<Seq<ChunkView>, ErrorView>(e@),
        },
{
    let mut out: Vec<Chunk> = Vec::new();
    let n: usize = arr.len();
    let mut off: usize = 0;
    assert(views(out@) =~= seq![]);
    while off < n
        invariant
            n == arr@.len(),
            ascending(views(out@)),
            system_chunks(arr@, 0, seq![]) == system_chunks(arr@, off as int, views(out@)),
        decreases n - off,
    {
        let key = Key::parse(arr, off)?;
        if key.ty != CHUNK_ITEM_KEY {
            return Err(Error::plain(ErrorKind::SysArrayKey { ty: key.ty as u64 }));
        }
        let rest = slice_subrange(arr, off + KEY_SIZE, n);
        assert(rest@ =~= arr@.skip(off + 17));
        let (chunk, used) = Chunk::parse(key.offset, rest)?;
        let ghost sofar = views(out@);
        let ghost c = chunk@;
        add_chunk(&mut out, chunk);
        let ghost next = off + 17 + used;
        if used < n - off - KEY_SIZE {
            off = off + KEY_SIZE + used;
        } else {
            off = n;
            assert(system_chunks(arr@, next, views(out@)) == system_chunks(
                arr@,
                n as int,
                views(out@),
            ));
        }
    }
    Ok(out)
}

/// An item that is no good among the first is the error of all.
proof fn lemma_chunks_fail(items: Seq<ItemView>, k: int)
    requires
        0 <= k <= items.len(),
        chunks_in(items.take(k)) is Err,
    ensures
        chunks_in(items) == chunks_in(items.take(k)),
    decreases items.len(),
{
    if k == items.len() {
        assert(items.take(k) =~= items);
    } else {
        assert(items.drop_last().take(k) =~= items.take(k));
        lemma_chunks_fail(items.drop_last(), k);
    }
}

fn parse_chunks(items: &Vec<Item>) -> (r: Result<Vec<Chunk>, Error>)
    ensures
        match r {
            Ok(v) => chunks_in(views(items@)) == Ok::<Seq<ChunkView>, ErrorView>(views(v@)),
            Err(e) => chunks_in(views(items@)) == Err::<Seq<ChunkView>, ErrorView>(e@),
        },
{
    let ghost all = views(items@);
    let mut out: Vec<Chunk> = Vec::new();
    let mut i: usize = 0;
    assert(all.take(0) =~= seq![]);
    assert(views(out@) =~= seq![]);
    while i < items.len()
        invariant
            i <= items@.len(),
            all == views(items@),
            chunks_in(all.take(i as int)) == Ok::<Seq<ChunkView>, ErrorView>(views(out@)),
        decreases items@.len() - i,
    {
        let item = &items[i];
        let ghost part = all.take(i + 1);
        assert(part.drop_last() =~= all.take(i as int));
        assert(part.last() == item@);
        if item.key.ty == CHUNK_ITEM_KEY {
            match Chunk::parse(item.key.offset, item.data.as_slice()) {
                Ok((chunk, _)) => {
                    proof {
                        lemma_views_push(out@, chunk);
                    }
                    out.push(chunk);
                },
                Err(e) => {
                    proof {
                        lemma_chunks_fail(all, i + 1);
                    }
                    return Err(e);
                },
            }
        }
        i += 1;
    }
    assert(all.take(i as int) =~= all);
    Ok(out)
}

impl Fs {
    /// The filesystem on the devices given. Its chunk map holds what the superblock
    /// carries; [`Fs::load_chunks`] reads the rest.
    pub fn open(probes: Vec<Probe>) -> (r: Result<Fs, Error>)
        ensures
            match r {
                Ok(fs) => fs@.wf() && opened(views(probes@)) == Ok::<FsView, ErrorView>(fs@),
                Err(e) => opened(views(probes@)) == Err::<FsView, ErrorView>(e@),
            },
    {
        if probes.len() == 0 {
            return Err(Error::plain(ErrorKind::NoDevice));
        }
        let g = gather(probes)?;
        let Gathered { devs, paths, best } = g;
        let sb = match best {
            Some(sb) => sb,
            None => {
                return Err(Error::plain(ErrorKind::NoDevice));
            },
        };
        if sb.incompat_flags & INCOMPAT_REFUSED != 0 {
            return Err(Error::plain(ErrorKind::RefusedFeature));
        }
        let chunks = bootstrap(sb.sys_chunk_array.as_slice())?;
        Ok(Fs::with(sb, devs, paths, chunks))
    }

    /// Reads the chunk tree into the chunk map.
    pub fn load_chunks(&mut self) -> (r: Result<(), Stop>)
        requires
            old(self)@.wf(),
        ensures
            final(self)@.wf(),
            match r {
                Ok(_) => chunk_tree(old(self)@) matches Ok(cs) && final(self)@ == (FsView {
                    chunks: with_chunks(old(self)@.chunks, cs),
                    ..old(self)@
                }),
                Err(s) => chunk_tree(old(self)@) == Err::<Seq<ChunkView>, StopView>(s@)
                    && final(self)@ == old(self)@,
            },
    {
        let q = Query {
            min: Key::new(0, 0, 0),
            max: Key::new(u64::MAX, 255, u64::MAX),
            first: false,
        };
        let w = self.walk(self.sb().chunk_root, q);
        let found = match parse_chunks(&w.items) {
            Ok(v) => v,
            Err(e) => {
                return Err(Stop::Error(e.within("reading chunk tree".to_owned())));
            },
        };
        match w.end {
            Err(Stop::Error(e)) => {
                return Err(Stop::Error(e.within("reading chunk tree".to_owned())));
            },
            Err(Stop::Read(r)) => {
                return Err(Stop::Read(r));
            },
            Ok(_) => {},
        }
        self.add_chunks(found);
        Ok(())
    }
}

/// A filesystem with a feature that cannot be read correctly is not opened.
pub proof fn law_refused_features_are_not_opened(probes: Seq<ProbeView>)
    ensures
        opened(probes) matches Ok(f) ==> f.sb.incompat_flags & INCOMPAT_REFUSED == 0,
{
}

/// All devices belong to one filesystem, and the superblock to go by is that of one of
/// them, of a generation that none of the others exceeds.
pub proof fn law_newest_superblock_counts(probes: Seq<ProbeView>)
    requires
        probes.len() > 0,
        gathered(probes) is Ok,
    ensures
        ({
            let g = gathered(probes)->Ok_0;
            &&& g.best is Some
            &&& exists|i: int|
                0 <= i < probes.len() && super_of(#[trigger] probes[i]) == Ok::<
                    SuperblockView,
                    ErrorView,
                >(g.best->0)
            &&& forall|i: int|
                0 <= i < probes.len() ==> {
                    &&& super_of(#[trigger] probes[i]) is Ok
                    &&& (super_of(probes[i])->Ok_0).fsid == (g.best->0).fsid
                    &&& (super_of(probes[i])->Ok_0).generation <= (g.best->0).generation
                }
        }),
    decreases probes.len(),
{
    let front = probes.drop_last();
    let g = gathered(probes)->Ok_0;
    let n = probes.len() - 1;
    if front.len() > 0 {
        law_newest_superblock_counts(front);
        let h = gathered(front)->Ok_0;
        let k = choose|i: int|
            0 <= i < front.len() && super_of(#[trigger] front[i]) == Ok::<
                SuperblockView,
                ErrorView,
            >(h.best->0);
        assert(probes[k] == front[k]);
        assert forall|i: int| 0 <= i < probes.len() implies {
            &&& super_of(#[trigger] probes[i]) is Ok
            &&& (super_of(probes[i])->Ok_0).fsid == (g.best->0).fsid
            &&& (super_of(probes[i])->Ok_0).generation <= (g.best->0).generation
        } by {
            if i < n {
                assert(front[i] == probes[i]);
            }
        }
    }
    assert(super_of(probes[n]) is Ok);
}

} // verus!
