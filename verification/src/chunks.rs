//! The chunk map: from logical addresses to places on devices.

use vstd::prelude::*;

use crate::disk::{
    profile_label, Chunk, ChunkView, BLOCK_GROUP_RAID0, BLOCK_GROUP_RAID10, BLOCK_GROUP_RAID5,
    BLOCK_GROUP_RAID6,
};
use crate::error::{because, plain, Error, ErrorKind, ErrorView};
use crate::model::views;

verus! {

/// The chunks stand in the order of their addresses, no address twice.
pub open spec fn ascending(s: Seq<ChunkView>) -> bool {
    forall|i: int, j: int| 0 <= i < j < s.len() ==> #[trigger] s[i].start < #[trigger] s[j].start
}

/// How many chunks at the front start below `x`.
pub open spec fn below(s: Seq<ChunkView>, x: int) -> int
    decreases s.len(),
{
    if s.len() == 0 || s.last().start < x {
        s.len() as int
    } else {
        below(s.drop_last(), x)
    }
}

/// The map with `c` in it, in the place of a chunk with the same start.
pub open spec fn with_chunk(s: Seq<ChunkView>, c: ChunkView) -> Seq<ChunkView> {
    let i = below(s, c.start as int);
    if i < s.len() && s[i].start == c.start {
        s.update(i, c)
    } else {
        s.insert(i, c)
    }
}

/// The map with each of `cs` in it, the later ones taking the place of earlier ones.
pub open spec fn with_chunks(s: Seq<ChunkView>, cs: Seq<ChunkView>) -> Seq<ChunkView>
    decreases cs.len(),
{
    if cs.len() == 0 {
        s
    } else {
        with_chunk(with_chunks(s, cs.drop_last()), cs.last())
    }
}

/// The last chunk that starts at or below `logical`.
pub open spec fn chunk_for(s: Seq<ChunkView>, logical: u64) -> Option<ChunkView> {
    let i = below(s, logical + 1);
    if i == 0 {
        None
    } else {
        Some(s[i - 1])
    }
}

/// Profiles that spread one range of addresses over several devices.
pub open spec fn is_striped(ty: u64) -> bool {
    ty & BLOCK_GROUP_RAID0 != 0 || ty & BLOCK_GROUP_RAID10 != 0 || ty & BLOCK_GROUP_RAID5 != 0 || ty
        & BLOCK_GROUP_RAID6 != 0
}

/// Where the byte `delta` into a chunk is, on those of its stripes whose device is known. A
/// stripe whose place does not fit 64 bits is on no device.
pub open spec fn placed(stripes: Seq<(u64, u64)>, devs: Seq<u64>, delta: int) -> Seq<(u64, u64)>
    decreases stripes.len(),
{
    if stripes.len() == 0 {
        seq![]
    } else {
        let front = placed(stripes.drop_last(), devs, delta);
        let (devid, phys) = stripes.last();
        if !devs.contains(devid) || phys + delta > u64::MAX {
            front
        } else {
            front.push((devid, (phys + delta) as u64))
        }
    }
}

/// A stripe is on a device that is known.
pub open spec fn is_known(stripes: Seq<(u64, u64)>, devs: Seq<u64>) -> bool {
    exists|i: int| 0 <= i < stripes.len() && devs.contains((#[trigger] stripes[i]).0)
}

/// The places that hold the `len` bytes at `logical`: device and offset, one per mirror.
pub open spec fn mirrors_of(
    chunks: Seq<ChunkView>,
    devs: Seq<u64>,
    num_devices: u64,
    logical: u64,
    len: u64,
) -> Result<Seq<(u64, u64)>, ErrorView> {
    match chunk_for(chunks, logical) {
        None => Err(plain(ErrorKind::Unmapped { logical, len })),
        Some(c) => if logical + len > c.start + c.length {
            Err(plain(ErrorKind::Unmapped { logical, len }))
        } else if is_striped(c.ty) && c.stripes.len() > 1 {
            Err(because(ErrorKind::Striped, profile_label(c.ty)))
        } else {
            let out = placed(c.stripes, devs, logical - c.start);
            if out.len() > 0 {
                Ok(out)
            } else if is_known(c.stripes, devs) {
                Err(plain(ErrorKind::PhysicalOverflow { logical }))
            } else {
                Err(plain(ErrorKind::MissingDevice { logical, num_devices }))
            }
        },
    }
}

/// In an ascending map, everything below the mark starts below `x` and nothing after it
/// does.
proof fn lemma_below(s: Seq<ChunkView>, x: int)
    requires
        ascending(s),
    ensures
        0 <= below(s, x) <= s.len(),
        forall|i: int| 0 <= i < below(s, x) ==> (#[trigger] s[i]).start < x,
        forall|i: int| below(s, x) <= i < s.len() ==> (#[trigger] s[i]).start >= x,
    decreases s.len(),
{
    if s.len() != 0 && s.last().start >= x {
        lemma_below(s.drop_last(), x);
        assert forall|i: int| 0 <= i < below(s, x) implies (#[trigger] s[i]).start < x by {
            assert(s.drop_last()[i] == s[i]);
        }
        assert forall|i: int| below(s, x) <= i < s.len() implies (#[trigger] s[i]).start >= x by {
            if i < s.len() - 1 {
                assert(s.drop_last()[i] == s[i]);
            }
        }
    }
}

/// The mark is where an ascending map splits.
proof fn lemma_below_is(s: Seq<ChunkView>, x: int, i: int)
    requires
        ascending(s),
        0 <= i <= s.len(),
        i > 0 ==> s[i - 1].start < x,
        i < s.len() ==> s[i].start >= x,
    ensures
        below(s, x) == i,
{
    lemma_below(s, x);
    let k = below(s, x);
    if k < i {
        assert(s[k].start <= s[i - 1].start);
    }
    if k > i {
        assert(s[i].start < x);
    }
}

/// Adding a chunk keeps the map in order, puts the chunk in, and leaves every chunk with
/// another start where it was.
pub proof fn law_with_chunk(s: Seq<ChunkView>, c: ChunkView)
    requires
        ascending(s),
    ensures
        ascending(with_chunk(s, c)),
        with_chunk(s, c).contains(c),
        forall|d: ChunkView|
            d.start != c.start ==> (#[trigger] with_chunk(s, c).contains(d) <==> s.contains(d)),
{
    lemma_below(s, c.start as int);
    let i = below(s, c.start as int);
    let t = with_chunk(s, c);
    assert(t[i] == c);
    if i < s.len() && s[i].start == c.start {
        assert forall|d: ChunkView| d.start != c.start implies (t.contains(d) <==> s.contains(d)) by {
            if s.contains(d) {
                let k = s.index_of(d);
                assert(t[k] == d);
            }
            if t.contains(d) {
                let k = t.index_of(d);
                assert(s[k] == d);
            }
        }
    } else {
        assert forall|d: ChunkView| d.start != c.start implies (t.contains(d) <==> s.contains(d)) by {
            if s.contains(d) {
                let k = s.index_of(d);
                assert(t[if k < i {
                    k
                } else {
                    k + 1
                }] == d);
            }
            if t.contains(d) {
                let k = t.index_of(d);
                assert(s[if k < i {
                    k
                } else {
                    k - 1
                }] == d);
            }
        }
    }
}

/// The chunk found for an address is in the map and starts no higher than the address, and
/// no chunk of the map starts between them; where none is found, every chunk starts above
/// the address.
pub proof fn law_chunk_for(s: Seq<ChunkView>, logical: u64)
    requires
        ascending(s),
    ensures
        match chunk_for(s, logical) {
            Some(c) => {
                &&& s.contains(c)
                &&& c.start <= logical
                &&& forall|d: ChunkView| #[trigger]
                    s.contains(d) && d.start <= logical ==> d.start <= c.start
            },
            None => forall|d: ChunkView| #[trigger] s.contains(d) ==> d.start > logical,
        },
{
    lemma_below(s, logical + 1);
    let i = below(s, logical + 1);
    assert forall|d: ChunkView| #[trigger] s.contains(d) && d.start <= logical implies i > 0
        && d.start <= s[i - 1].start by {
        let k = s.index_of(d);
        assert(s[k] == d);
    }
}

/// Puts `c` into the map.
pub(crate) fn add_chunk(s: &mut Vec<Chunk>, c: Chunk)
    requires
        ascending(views(old(s)@)),
    ensures
        views(final(s)@) == with_chunk(views(old(s)@), c@),
        ascending(views(final(s)@)),
{
    let ghost before = views(s@);
    let mut i: usize = s.len();
    while i > 0 && s[i - 1].start >= c.start
        invariant
            i <= s.len(),
            s@ == old(s)@,
            before == views(s@),
            ascending(before),
            i < s.len() ==> before[i as int].start >= c.start,
        decreases i,
    {
        i -= 1;
        assert(before[i as int] == s@[i as int]@);
    }
    proof {
        if i > 0 {
            assert(before[i - 1] == s@[i - 1]@);
        }
        lemma_below_is(before, c.start as int, i as int);
        law_with_chunk(before, c@);
    }
    if i < s.len() && s[i].start == c.start {
        assert(before[i as int] == s@[i as int]@);
        let ghost v = c@;
        s.set(i, c);
        assert(views(s@) =~= before.update(i as int, v));
    } else {
        proof {
            if i < s.len() {
                assert(before[i as int] == s@[i as int]@);
            }
        }
        let ghost v = c@;
        s.insert(i, c);
        assert(views(s@) =~= before.insert(i as int, v));
    }
}

fn known(devs: &Vec<u64>, id: u64) -> (r: bool)
    ensures
        r == devs@.contains(id),
{
    let mut i: usize = 0;
    while i < devs.len()
        invariant
            i <= devs.len(),
            forall|k: int| 0 <= k < i ==> devs@[k] != id,
        decreases devs.len() - i,
    {
        if devs[i] == id {
            assert(devs@[i as int] == id);
            return true;
        }
        i += 1;
    }
    false
}

/// Whether bytes under this type of chunk are spread over several devices.
fn striped(ty: u64) -> (r: bool)
    ensures
        r == is_striped(ty),
{
    ty & BLOCK_GROUP_RAID0 != 0 || ty & BLOCK_GROUP_RAID10 != 0 || ty & BLOCK_GROUP_RAID5 != 0 || ty
        & BLOCK_GROUP_RAID6 != 0
}

/// The places that hold the `len` bytes at `logical`, in the order they are to be tried.
pub fn mirrors(
    chunks: &Vec<Chunk>,
    devs: &Vec<u64>,
    num_devices: u64,
    logical: u64,
    len: u64,
) -> (r: Result<Vec<(u64, u64)>, Error>)
    requires
        ascending(views(chunks@)),
    ensures
        match r {
            Ok(v) => mirrors_of(views(chunks@), devs@, num_devices, logical, len) == Ok::<
                Seq<(u64, u64)>,
                ErrorView,
            >(v@),
            Err(e) => mirrors_of(views(chunks@), devs@, num_devices, logical, len) == Err::<
                Seq<(u64, u64)>,
                ErrorView,
            >(e@),
        },
{
    let ghost all = views(chunks@);
    let mut i: usize = chunks.len();
    while i > 0 && chunks[i - 1].start > logical
        invariant
            i <= chunks.len(),
            all == views(chunks@),
            i < chunks.len() ==> all[i as int].start > logical,
        decreases i,
    {
        i -= 1;
        assert(all[i as int] == chunks@[i as int]@);
    }
    proof {
        if i > 0 {
            assert(all[i - 1] == chunks@[i - 1]@);
        }
        lemma_below_is(all, logical + 1, i as int);
    }
    if i == 0 {
        return Err(Error::plain(ErrorKind::Unmapped { logical, len }));
    }
    let chunk = &chunks[i - 1];
    assert(all[i - 1] == chunk@);
    let delta: u64 = logical - chunk.start;
    if delta > chunk.length || len > chunk.length - delta {
        return Err(Error::plain(ErrorKind::Unmapped { logical, len }));
    }
    if striped(chunk.ty) && chunk.stripes.len() > 1 {
        return Err(Error::because(ErrorKind::Striped, chunk.profile().to_owned()));
    }
    let mut out: Vec<(u64, u64)> = Vec::new();
    let mut any = false;
    let mut k: usize = 0;
    assert(chunk.stripes@.take(0) =~= seq![]);
    while k < chunk.stripes.len()
        invariant
            k <= chunk.stripes.len(),
            out@ == placed(chunk.stripes@.take(k as int), devs@, delta as int),
            any ==> is_known(chunk.stripes@, devs@),
            !any ==> forall|i: int|
                0 <= i < k ==> !devs@.contains((#[trigger] chunk.stripes@[i]).0),
        decreases chunk.stripes.len() - k,
    {
        let (devid, phys) = chunk.stripes[k];
        let ghost part = chunk.stripes@.take(k + 1);
        assert(part.drop_last() =~= chunk.stripes@.take(k as int));
        assert(part.last() == (devid, phys));
        if known(devs, devid) {
            assert(chunk.stripes@[k as int].0 == devid);
            any = true;
            if let Some(at) = phys.checked_add(delta) {
                out.push((devid, at));
            }
        }
        k += 1;
    }
    assert(chunk.stripes@.take(k as int) =~= chunk.stripes@);
    if out.len() > 0 {
        Ok(out)
    } else if any {
        Err(Error::plain(ErrorKind::PhysicalOverflow { logical }))
    } else {
        Err(Error::plain(ErrorKind::MissingDevice { logical, num_devices }))
    }
}

/// Each mirror is on a device that was given, and its offset is as far into the stripe as
/// the address is into the chunk; and every stripe on such a device is among the mirrors, but
/// for one whose place does not fit 64 bits.
pub proof fn law_placed(stripes: Seq<(u64, u64)>, devs: Seq<u64>, delta: int)
    requires
        delta >= 0,
    ensures
        ({
            let out = placed(stripes, devs, delta);
            &&& out.len() <= stripes.len()
            &&& forall|i: int|
                0 <= i < out.len() ==> devs.contains((#[trigger] out[i]).0) && stripes.contains(
                    (out[i].0, (out[i].1 - delta) as u64),
                )
            &&& forall|i: int|
                0 <= i < stripes.len() && devs.contains((#[trigger] stripes[i]).0) && stripes[i].1
                    + delta <= u64::MAX ==> out.contains(
                    (stripes[i].0, (stripes[i].1 + delta) as u64),
                )
        }),
    decreases stripes.len(),
{
    if stripes.len() > 0 {
        let head = stripes.drop_last();
        law_placed(head, devs, delta);
        let front = placed(head, devs, delta);
        let out = placed(stripes, devs, delta);
        let n = stripes.len() - 1;
        assert forall|i: int| 0 <= i < out.len() implies devs.contains((#[trigger] out[i]).0)
            && stripes.contains((out[i].0, (out[i].1 - delta) as u64)) by {
            if i < front.len() {
                assert(out[i] == front[i]);
                let x = (out[i].0, (out[i].1 - delta) as u64);
                let k = head.index_of(x);
                assert(stripes[k] == x);
            } else {
                assert(stripes[n] == (out[i].0, (out[i].1 - delta) as u64));
            }
        }
        assert forall|i: int|
            0 <= i < stripes.len() && devs.contains((#[trigger] stripes[i]).0) && stripes[i].1
                + delta <= u64::MAX implies out.contains(
            (stripes[i].0, (stripes[i].1 + delta) as u64),
        ) by {
            let x = (stripes[i].0, (stripes[i].1 + delta) as u64);
            if i < n {
                assert(head[i] == stripes[i]);
                let k = front.index_of(x);
                assert(out[k] == x);
            } else {
                assert(out[out.len() - 1] == x);
            }
        }
    }
}

/// An address in a chunk that is striped across devices is refused, never read wrongly.
pub proof fn law_striped_chunks_are_refused(
    chunks: Seq<ChunkView>,
    devs: Seq<u64>,
    num_devices: u64,
    logical: u64,
    len: u64,
)
    requires
        chunk_for(chunks, logical) matches Some(c) && is_striped(c.ty) && c.stripes.len() > 1,
    ensures
        mirrors_of(chunks, devs, num_devices, logical, len) is Err,
{
}

} // verus!
