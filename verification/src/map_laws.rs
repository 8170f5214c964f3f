//! Where an address is: from the chunks as they were written to the places on the devices, and
//! what is taken from there for a tree block.

use vstd::prelude::*;

use crate::checksum::crc32c_value;
use crate::chunks::{
    ascending, chunk_for, is_striped, law_chunk_for, law_placed, law_with_chunk, mirrors_of,
    placed, with_chunk, with_chunks,
};
use crate::disk::{chunk_of, ChunkView, Key, SuperblockView};
use crate::error::{ErrorKind, ErrorView};
use crate::format_laws::{
    holds, holds_chunk, holds_key, law_chunks_read_as_written, law_keys_read_as_written,
    law_numbers_are_what_stands_there, law_numbers_read_as_written, law_the_numbers_of_the_format,
};
use crate::fs::{FsView, Request, StopView};
use crate::open::{
    chunk_tree, chunks_in, everything, gathered, opened, super_of, system_chunks, with_device,
    GatheredView, ProbeView,
};
use crate::sound::{asked, contents, law_walk_finds_the_range, sound, spans};
use crate::tree::ItemView;

verus! {

/// A chunk of one of the kinds that spread an address range over several devices, going by the
/// bits of its type: RAID0, RAID10, RAID5 and RAID6.
pub open spec fn is_spread(ty: u64) -> bool {
    (ty / 8) % 2 == 1 || (ty / 64) % 2 == 1 || (ty / 128) % 2 == 1 || (ty / 256) % 2 == 1
}

proof fn lemma_spread(ty: u64)
    ensures
        is_striped(ty) == is_spread(ty),
{
    law_the_numbers_of_the_format();
    assert((ty & 0x8 != 0) == ((ty / 8) % 2 == 1)) by (bit_vector);
    assert((ty & 0x40 != 0) == ((ty / 64) % 2 == 1)) by (bit_vector);
    assert((ty & 0x80 != 0) == ((ty / 128) % 2 == 1)) by (bit_vector);
    assert((ty & 0x100 != 0) == ((ty / 256) % 2 == 1)) by (bit_vector);
}

/// The chunk `c` of the map has the address: it starts at or below it, no other does so later.
pub open spec fn has_address(chunks: Seq<ChunkView>, c: ChunkView, logical: u64) -> bool {
    &&& chunks.contains(c)
    &&& c.start <= logical
    &&& forall|d: ChunkView|
        #[trigger] chunks.contains(d) && d.start <= logical ==> d.start <= c.start
}

proof fn lemma_has_address(chunks: Seq<ChunkView>, c: ChunkView, logical: u64)
    requires
        ascending(chunks),
        has_address(chunks, c, logical),
    ensures
        chunk_for(chunks, logical) == Some(c),
{
    law_chunk_for(chunks, logical);
    let d = chunk_for(chunks, logical)->0;
    let i = chunks.index_of(c);
    let j = chunks.index_of(d);
    assert(chunks[i].start == c.start && chunks[j].start == d.start);
}

/// The bytes at an address are on every stripe of its chunk whose device is there, as far into
/// the stripe as the address is into the chunk, and nowhere else. They are found wherever the
/// chunk has them all and is not spread over several stripes; where it is, they are refused.
pub proof fn law_addresses_are_mapped(
    chunks: Seq<ChunkView>,
    devs: Seq<u64>,
    num_devices: u64,
    c: ChunkView,
    logical: u64,
    len: u64,
)
    requires
        ascending(chunks),
        has_address(chunks, c, logical),
    ensures
        ({
            let r = mirrors_of(chunks, devs, num_devices, logical, len);
            let delta = logical - c.start;
            let inside = delta + len <= c.length;
            let spread = is_spread(c.ty) && c.stripes.len() > 1;
            &&& r is Ok <==> inside && !spread && exists|i: int|
                0 <= i < c.stripes.len() && devs.contains((#[trigger] c.stripes[i]).0)
                    && c.stripes[i].1 + delta <= u64::MAX
            &&& r matches Ok(out) ==> {
                &&& forall|i: int|
                    0 <= i < c.stripes.len() && devs.contains((#[trigger] c.stripes[i]).0)
                        && c.stripes[i].1 + delta <= u64::MAX ==> out.contains(
                        (c.stripes[i].0, (c.stripes[i].1 + delta) as u64),
                    )
                &&& forall|i: int|
                    0 <= i < out.len() ==> {
                        &&& devs.contains((#[trigger] out[i]).0)
                        &&& out[i].1 >= delta
                        &&& c.stripes.contains((out[i].0, (out[i].1 - delta) as u64))
                    }
            }
            &&& !inside ==> (r matches Err(e) && e.kind == (ErrorKind::Unmapped { logical, len }))
            &&& inside && spread ==> (r matches Err(e) && e.kind == ErrorKind::Striped)
            &&& inside && !spread && (forall|i: int|
                0 <= i < c.stripes.len() ==> !devs.contains((#[trigger] c.stripes[i]).0)) ==> (
            r matches Err(e) && e.kind == (ErrorKind::MissingDevice { logical, num_devices }))
        }),
{
    lemma_has_address(chunks, c, logical);
    lemma_spread(c.ty);
    let delta = logical - c.start;
    law_placed(c.stripes, devs, delta);
    let out = placed(c.stripes, devs, delta);
    lemma_offsets(c.stripes, devs, delta);
    if out.len() > 0 {
        let x = (out[0].0, (out[0].1 - delta) as u64);
        let i = c.stripes.index_of(x);
        assert(c.stripes[i] == x && devs.contains(out[0].0));
    }
}

proof fn lemma_offsets(stripes: Seq<(u64, u64)>, devs: Seq<u64>, delta: int)
    requires
        delta >= 0,
    ensures
        forall|i: int|
            0 <= i < placed(stripes, devs, delta).len() ==> (#[trigger] placed(
                stripes,
                devs,
                delta,
            )[i]).1 >= delta,
    decreases stripes.len(),
{
    if stripes.len() > 0 {
        let front = placed(stripes.drop_last(), devs, delta);
        lemma_offsets(stripes.drop_last(), devs, delta);
        assert forall|i: int| 0 <= i < placed(stripes, devs, delta).len() implies (
        #[trigger] placed(stripes, devs, delta)[i]).1 >= delta by {
            if i < front.len() {
                assert(placed(stripes, devs, delta)[i] == front[i]);
            }
        }
    }
}

/// The first stripes are tried first: with every device there, the mirrors are the stripes in
/// their order.
pub proof fn law_mirrors_keep_their_order(stripes: Seq<(u64, u64)>, devs: Seq<u64>, delta: int)
    requires
        delta >= 0,
        forall|i: int|
            0 <= i < stripes.len() ==> devs.contains((#[trigger] stripes[i]).0) && stripes[i].1
                + delta <= u64::MAX,
    ensures
        placed(stripes, devs, delta).len() == stripes.len(),
        forall|i: int|
            0 <= i < stripes.len() ==> #[trigger] placed(stripes, devs, delta)[i] == (
                stripes[i].0,
                (stripes[i].1 + delta) as u64,
            ),
    decreases stripes.len(),
{
    if stripes.len() > 0 {
        let front = stripes.drop_last();
        assert forall|i: int| 0 <= i < front.len() implies devs.contains((#[trigger] front[i]).0)
            && front[i].1 + delta <= u64::MAX by {
            assert(front[i] == stripes[i]);
        }
        assert(devs.contains(stripes[stripes.len() - 1].0));
        law_mirrors_keep_their_order(front, devs, delta);
    }
}

/// An address below every chunk is not mapped.
pub proof fn law_addresses_below_the_chunks(
    chunks: Seq<ChunkView>,
    devs: Seq<u64>,
    num_devices: u64,
    logical: u64,
    len: u64,
)
    requires
        ascending(chunks),
        forall|d: ChunkView| #[trigger] chunks.contains(d) ==> d.start > logical,
    ensures
        mirrors_of(chunks, devs, num_devices, logical, len) matches Err(e) && e.kind
            == (ErrorKind::Unmapped { logical, len }),
{
    law_chunk_for(chunks, logical);
}

proof fn lemma_all_mapped(s: Seq<ChunkView>, cs: Seq<ChunkView>, k: int)
    requires
        ascending(s),
        0 <= k < cs.len(),
        forall|j: int| k < j < cs.len() ==> (#[trigger] cs[j]).start != cs[k].start,
    ensures
        with_chunks(s, cs).contains(cs[k]),
    decreases cs.len(),
{
    let front = cs.drop_last();
    lemma_map_ascends(s, front);
    let t = with_chunks(s, front);
    law_with_chunk(t, cs.last());
    if k < front.len() {
        assert(front[k] == cs[k]);
        assert forall|j: int| k < j < front.len() implies (#[trigger] front[j]).start
            != front[k].start by {
            assert(front[j] == cs[j]);
        }
        lemma_all_mapped(s, front, k);
        assert(cs[cs.len() - 1].start != cs[k].start);
        assert(t.contains(cs[k]));
        assert(with_chunk(t, cs.last()).contains(cs[k]));
    }
}

proof fn lemma_map_ascends(s: Seq<ChunkView>, cs: Seq<ChunkView>)
    requires
        ascending(s),
    ensures
        ascending(with_chunks(s, cs)),
    decreases cs.len(),
{
    if cs.len() > 0 {
        lemma_map_ascends(s, cs.drop_last());
        law_with_chunk(with_chunks(s, cs.drop_last()), cs.last());
    }
}

/// A chunk that was mapped before stays, where none of those added starts at the same address.
proof fn lemma_others_stay(s: Seq<ChunkView>, cs: Seq<ChunkView>, d: ChunkView)
    requires
        ascending(s),
        forall|j: int| 0 <= j < cs.len() ==> (#[trigger] cs[j]).start != d.start,
    ensures
        with_chunks(s, cs).contains(d) <==> s.contains(d),
    decreases cs.len(),
{
    if cs.len() > 0 {
        let front = cs.drop_last();
        assert forall|j: int| 0 <= j < front.len() implies (#[trigger] front[j]).start != d.start by {
            assert(front[j] == cs[j]);
        }
        lemma_others_stay(s, front, d);
        lemma_map_ascends(s, front);
        law_with_chunk(with_chunks(s, front), cs.last());
        assert(cs[cs.len() - 1].start != d.start);
        assert(with_chunk(with_chunks(s, front), cs.last()).contains(d) <==> with_chunks(
            s,
            front,
        ).contains(d));
    }
}

proof fn lemma_chunks_in(items: Seq<ItemView>, k: int, c: ChunkView) -> (j: int)
    requires
        chunks_in(items) is Ok,
        0 <= k < items.len(),
        items[k].key.ty == 228,
        items[k].key.offset == c.start,
        holds_chunk(items[k].data, c),
        0 < c.stripes.len() <= u16::MAX,
        forall|i: int|
            k < i < items.len() && (#[trigger] items[i]).key.ty == 228 ==> items[i].key.offset
                != c.start,
    ensures
        0 <= j < (chunks_in(items)->Ok_0).len(),
        (chunks_in(items)->Ok_0)[j] == c,
        forall|i: int|
            j < i < (chunks_in(items)->Ok_0).len() ==> (#[trigger] (chunks_in(items)->Ok_0)[i]).start
                != c.start,
    decreases items.len(),
{
    law_the_numbers_of_the_format();
    let front = items.drop_last();
    let cs = chunks_in(items)->Ok_0;
    let last = items.last();
    if k == items.len() - 1 {
        law_chunks_read_as_written(last.data, c);
        cs.len() - 1
    } else {
        assert(front[k] == items[k]);
        assert forall|i: int|
            k < i < front.len() && (#[trigger] front[i]).key.ty == 228 implies front[i].key.offset
            != c.start by {
            assert(front[i] == items[i]);
        }
        let j = lemma_chunks_in(front, k, c);
        assert(items[items.len() - 1] == last);
        if last.key.ty == 228 {
            assert((chunk_of(last.key.offset, last.data)->Ok_0).0.start == last.key.offset);
        }
        j
    }
}

/// A chunk item filed under an address is mapped at that address, with the length, the type and
/// the stripes that were written, whatever address it is.
pub proof fn law_chunk_items_are_mapped(
    s: Seq<ChunkView>,
    items: Seq<ItemView>,
    k: int,
    c: ChunkView,
)
    requires
        ascending(s),
        chunks_in(items) is Ok,
        0 <= k < items.len(),
        items[k].key.ty == 228,
        items[k].key.offset == c.start,
        holds_chunk(items[k].data, c),
        0 < c.stripes.len() <= u16::MAX,
        forall|i: int|
            k < i < items.len() && (#[trigger] items[i]).key.ty == 228 ==> items[i].key.offset
                != c.start,
    ensures
        ascending(with_chunks(s, chunks_in(items)->Ok_0)),
        with_chunks(s, chunks_in(items)->Ok_0).contains(c),
{
    let j = lemma_chunks_in(items, k, c);
    lemma_map_ascends(s, chunks_in(items)->Ok_0);
    lemma_all_mapped(s, chunks_in(items)->Ok_0, j);
}

proof fn lemma_starts(items: Seq<ItemView>, d: ChunkView)
    requires
        chunks_in(items) is Ok,
        forall|i: int|
            0 <= i < items.len() && (#[trigger] items[i]).key.ty == 228 ==> items[i].key.offset
                != d.start,
    ensures
        forall|j: int|
            0 <= j < (chunks_in(items)->Ok_0).len() ==> (#[trigger] (chunks_in(
                items,
            )->Ok_0)[j]).start != d.start,
    decreases items.len(),
{
    law_the_numbers_of_the_format();
    if items.len() > 0 {
        let front = items.drop_last();
        assert forall|i: int| 0 <= i < front.len() && (#[trigger] front[i]).key.ty == 228 implies
            front[i].key.offset != d.start by {
            assert(front[i] == items[i]);
        }
        lemma_starts(front, d);
        assert(items[items.len() - 1] == items.last());
        if items.last().key.ty == 228 {
            assert((chunk_of(items.last().key.offset, items.last().data)->Ok_0).0.start
                == items.last().key.offset);
        }
    }
}

/// What is not a chunk item maps nothing: at an address under which no chunk item is filed, the
/// map stays as it was.
pub proof fn law_only_chunk_items_are_mapped(s: Seq<ChunkView>, items: Seq<ItemView>, d: ChunkView)
    requires
        ascending(s),
        chunks_in(items) is Ok,
        forall|i: int|
            0 <= i < items.len() && (#[trigger] items[i]).key.ty == 228 ==> items[i].key.offset
                != d.start,
    ensures
        with_chunks(s, chunks_in(items)->Ok_0).contains(d) <==> s.contains(d),
{
    lemma_starts(items, d);
    lemma_others_stay(s, chunks_in(items)->Ok_0, d);
}

/// The chunk tree is read whole: where it is sound, its chunks are those of all its items.
pub proof fn law_the_whole_chunk_tree_is_read(f: FsView)
    requires
        sound(f, f.sb.chunk_root, everything()),
        chunks_in(contents(f, f.sb.chunk_root, everything())) is Ok,
    ensures
        chunk_tree(f) == Ok::<Seq<ChunkView>, StopView>(
            chunks_in(contents(f, f.sb.chunk_root, everything()))->Ok_0,
        ),
        forall|k: Key| #[trigger] asked(everything(), k),
{
    let q = everything();
    let all = contents(f, f.sb.chunk_root, q);
    assert(spans(q, q));
    law_walk_finds_the_range(f, f.sb.chunk_root, q, q);
    assert forall|k: Key| #[trigger] asked(q, k) by {}
    lemma_keeps_all(all, |x: ItemView| asked(q, x.key));
}

proof fn lemma_keeps_all(s: Seq<ItemView>, pred: spec_fn(ItemView) -> bool)
    requires
        forall|x: ItemView| #[trigger] pred(x),
    ensures
        s.filter(pred) == s,
    decreases s.len(),
{
    reveal(Seq::filter);
    if s.len() > 0 {
        lemma_keeps_all(s.drop_last(), pred);
        assert(s.drop_last().push(s.last()) =~= s);
    } else {
        assert(s.filter(pred) =~= s);
    }
}

/// The bytes of a superblock's chunk array: each chunk after the key that it is filed under.
pub open spec fn is_array_of(arr: Seq<u8>, at: int, cs: Seq<ChunkView>) -> bool
    decreases cs.len(),
{
    if cs.len() == 0 {
        at == arr.len()
    } else {
        let c = cs[0];
        &&& 0 <= at < arr.len()
        &&& holds_key(arr, at, Key { objectid: 256, ty: 228, offset: c.start })
        &&& holds_chunk(arr.skip(at + 17), c)
        &&& 0 < c.stripes.len() <= u16::MAX
        &&& is_array_of(arr, at + 65 + 32 * c.stripes.len(), cs.skip(1))
    }
}

proof fn lemma_first_added(s: Seq<ChunkView>, cs: Seq<ChunkView>)
    requires
        cs.len() > 0,
    ensures
        with_chunks(with_chunk(s, cs[0]), cs.skip(1)) == with_chunks(s, cs),
    decreases cs.len(),
{
    reveal_with_fuel(with_chunks, 2);
    if cs.len() == 1 {
        assert(cs.skip(1) =~= seq![]);
        assert(cs.drop_last() =~= seq![]);
    } else {
        let front = cs.drop_last();
        lemma_first_added(s, front);
        assert(front[0] == cs[0]);
        assert(cs.skip(1).drop_last() =~= front.skip(1));
        assert(cs.skip(1).last() == cs.last());
    }
}

/// The chunks in the superblock's array are mapped, each at the address it is filed under.
pub proof fn law_system_chunks_are_mapped(
    arr: Seq<u8>,
    at: int,
    cs: Seq<ChunkView>,
    sofar: Seq<ChunkView>,
)
    requires
        is_array_of(arr, at, cs),
    ensures
        system_chunks(arr, at, sofar) == Ok::<Seq<ChunkView>, ErrorView>(with_chunks(sofar, cs)),
    decreases cs.len(),
{
    law_the_numbers_of_the_format();
    if cs.len() > 0 {
        let c = cs[0];
        let key = Key { objectid: 256, ty: 228, offset: c.start };
        law_keys_read_as_written(arr, at, key);
        law_chunks_read_as_written(arr.skip(at + 17), c);
        let next = at + 65 + 32 * c.stripes.len();
        law_system_chunks_are_mapped(arr, next, cs.skip(1), with_chunk(sofar, c));
        lemma_first_added(sofar, cs);
    }
}

/// What is filed there under another type than that of a chunk is an error.
pub proof fn law_other_system_items_are_errors(
    arr: Seq<u8>,
    at: int,
    key: Key,
    sofar: Seq<ChunkView>,
)
    requires
        holds_key(arr, at, key),
        key.ty != 228,
    ensures
        system_chunks(arr, at, sofar) matches Err(e) && e.kind == (ErrorKind::SysArrayKey {
            ty: key.ty as u64,
        }),
{
    law_the_numbers_of_the_format();
    law_keys_read_as_written(arr, at, key);
}

/// The bytes are a sound copy of the block at the address: of its size, naming the address at
/// byte 48, with the CRC-32C of what follows the first 32 bytes at the front where that is the
/// checksum in use, and no more items than have room.
pub open spec fn is_copy_of(sb: SuperblockView, logical: u64, b: Seq<u8>, items: int) -> bool {
    &&& b.len() == sb.nodesize
    &&& holds(b, 48, 8, logical as int)
    &&& sb.csum_type == 0 ==> holds(
        b,
        0,
        4,
        crc32c_value(0, b.subrange(32, sb.nodesize as int)) as int,
    )
    &&& 0 <= items <= u32::MAX
    &&& holds(b, 96, 4, items)
    &&& 101 + 25 * items <= sb.nodesize
}

proof fn lemma_reads(b: Seq<u8>, at: int, n: nat, v: int)
    requires
        0 <= at,
        at + n <= b.len(),
        n == 4 || n == 8,
        0 <= v,
        v < if n == 4 {
            0x1_0000_0000int
        } else {
            0x1_0000_0000_0000_0000int
        },
    ensures
        holds(b, at, n, v) <==> crate::disk::le(b, at, n) == v,
{
    reveal_with_fuel(crate::format_laws::beyond, 9);
    law_numbers_are_what_stands_there(b, at, n);
    if holds(b, at, n, v) {
        law_numbers_read_as_written(b, at, n, v as nat);
    }
}

/// A sound copy of the block that was asked for is taken as it is. One that is not is never
/// taken: unless it only has too many items, the next mirror is asked while there is one.
pub proof fn law_only_sound_copies_are_taken(f: FsView, req: Request, b: Seq<u8>, items: int)
    requires
        f.wf(),
        f.node(req.logical) == Err::<Seq<u8>, StopView>(StopView::Read(req)),
        b.len() == f.sb.nodesize ==> holds(b, 96, 4, items) && 0 <= items <= u32::MAX,
    ensures
        ({
            let after = f.supplied(req, Ok(b)).node(req.logical);
            let tried = f.tried(req.logical) + 1;
            let places = f.mirrors(req.logical, req.len)->Ok_0;
            let crowded = is_copy_of(f.sb, req.logical, b, 0) || (b.len() == f.sb.nodesize && holds(
                b,
                48,
                8,
                req.logical as int,
            ) && (f.sb.csum_type == 0 ==> holds(
                b,
                0,
                4,
                crc32c_value(0, b.subrange(32, b.len() as int)) as int,
            )));
            &&& req.len == f.sb.nodesize
            &&& is_copy_of(f.sb, req.logical, b, items) <==> after == Ok::<Seq<u8>, StopView>(b)
            &&& !is_copy_of(f.sb, req.logical, b, items) ==> after is Err
            &&& crowded && !is_copy_of(f.sb, req.logical, b, items) ==> (after matches Err(
                StopView::Error(e),
            ) && e.kind == (ErrorKind::TooManyItems {
                logical: req.logical,
                items: items as u64,
            }))
            &&& !crowded && tried < places.len() ==> after == Err::<Seq<u8>, StopView>(
                StopView::Read(
                    Request {
                        logical: req.logical,
                        devid: places[tried].0,
                        phys: places[tried].1,
                        len: req.len,
                    },
                ),
            )
        }),
{
    if b.len() == f.sb.nodesize {
        lemma_reads(b, 48, 8, req.logical as int);
        lemma_reads(b, 0, 4, crc32c_value(0, b.skip(32)) as int);
        lemma_reads(b, 96, 4, items);
        assert(b.skip(32) =~= b.subrange(32, b.len() as int));
    }
}

/// A mirror that the host could not read is passed over for the next.
pub proof fn law_unreadable_copies_are_passed_over(f: FsView, req: Request, why: Seq<char>)
    requires
        f.node(req.logical) == Err::<Seq<u8>, StopView>(StopView::Read(req)),
    ensures
        ({
            let after = f.supplied(req, Err(why)).node(req.logical);
            let tried = f.tried(req.logical) + 1;
            let places = f.mirrors(req.logical, req.len)->Ok_0;
            &&& after is Err
            &&& tried < places.len() ==> after == Err::<Seq<u8>, StopView>(
                StopView::Read(
                    Request {
                        logical: req.logical,
                        devid: places[tried].0,
                        phys: places[tried].1,
                        len: req.len,
                    },
                ),
            )
        }),
{
}

/// The filesystem after `k` mirrors of a block could not be read.
pub open spec fn failing(f: FsView, logical: u64, k: nat) -> FsView
    decreases k,
{
    if k == 0 {
        f
    } else {
        let g = failing(f, logical, (k - 1) as nat);
        match g.node(logical) {
            Err(StopView::Read(req)) => g.supplied(req, Err(seq![])),
            _ => g,
        }
    }
}

/// Every mirror of a block is tried, one after another and each once, before the block fails.
pub proof fn law_every_mirror_is_tried(f: FsView, logical: u64, places: Seq<(u64, u64)>, k: nat)
    requires
        !f.nodes.contains_key(logical),
        f.attempt is None,
        f.mirrors(logical, f.sb.nodesize as u64) == Ok::<Seq<(u64, u64)>, ErrorView>(places),
        places.len() > 0,
        k <= places.len(),
    ensures
        k < places.len() ==> failing(f, logical, k).node(logical) == Err::<Seq<u8>, StopView>(
            StopView::Read(
                Request {
                    logical,
                    devid: places[k as int].0,
                    phys: places[k as int].1,
                    len: f.sb.nodesize as u64,
                },
            ),
        ),
        k == places.len() ==> (failing(f, logical, k).node(logical) matches Err(
            StopView::Error(_),
        )),
{
    lemma_failing(f, logical, places, k);
}

proof fn lemma_failing(f: FsView, logical: u64, places: Seq<(u64, u64)>, k: nat)
    requires
        !f.nodes.contains_key(logical),
        f.attempt is None,
        f.mirrors(logical, f.sb.nodesize as u64) == Ok::<Seq<(u64, u64)>, ErrorView>(places),
        k <= places.len(),
    ensures
        failing(f, logical, k) == (FsView { attempt: failing(f, logical, k).attempt, ..f }),
        k > 0 ==> (failing(f, logical, k).attempt matches Some(a) && a.logical == logical
            && a.tried == k && !a.fatal),
    decreases k,
{
    if k > 0 {
        let m = (k - 1) as nat;
        lemma_failing(f, logical, places, m);
        let g = failing(f, logical, m);
        assert(g.mirrors(logical, f.sb.nodesize as u64) == Ok::<Seq<(u64, u64)>, ErrorView>(places));
        assert(g.node(logical) matches Err(StopView::Read(_)));
    }
}

/// The first copy asked for is the first mirror, of the size of a block.
pub proof fn law_the_first_mirror_is_asked_first(f: FsView, logical: u64)
    requires
        !f.nodes.contains_key(logical),
        f.attempt is None,
        f.mirrors(logical, f.sb.nodesize as u64) is Ok,
    ensures
        ({
            let places = f.mirrors(logical, f.sb.nodesize as u64)->Ok_0;
            f.node(logical) == Err::<Seq<u8>, StopView>(
                StopView::Read(
                    Request {
                        logical,
                        devid: places[0].0,
                        phys: places[0].1,
                        len: f.sb.nodesize as u64,
                    },
                ),
            )
        }),
{
}

proof fn lemma_goes_with(devs: Seq<u64>, paths: Seq<Seq<char>>, k: int)
    requires
        0 <= k < devs.len(),
    ensures
        goes_with(devs, paths, devs[k], paths[k]),
{
}

proof fn lemma_device_replaced(g: GatheredView, id: u64, path: Seq<char>, i: int)
    requires
        is_sorted(g.devs),
        g.devs.len() == g.paths.len(),
        0 <= i < g.devs.len(),
        g.devs[i] == id,
    ensures
        are_joined(g.devs, g.paths, g.devs, g.paths.update(i, path), id, path),
{
    let paths = g.paths.update(i, path);
    lemma_goes_with(g.devs, paths, i);
    assert forall|k: int| 0 <= k < g.devs.len() && #[trigger] g.devs[k] != id implies goes_with(
        g.devs,
        paths,
        g.devs[k],
        g.paths[k],
    ) by {
        lemma_goes_with(g.devs, paths, k);
    }
    assert forall|l: int| 0 <= l < g.devs.len() && #[trigger] g.devs[l] != id implies
        g.devs.contains(g.devs[l]) by {}
}

proof fn lemma_device_added(g: GatheredView, id: u64, path: Seq<char>, i: int)
    requires
        is_sorted(g.devs),
        g.devs.len() == g.paths.len(),
        0 <= i <= g.devs.len(),
        forall|k: int| 0 <= k < i ==> #[trigger] g.devs[k] < id,
        forall|k: int| i <= k < g.devs.len() ==> #[trigger] g.devs[k] > id,
    ensures
        are_joined(
            g.devs,
            g.paths,
            g.devs.insert(i, id),
            g.paths.insert(i, path),
            id,
            path,
        ),
{
    let devs = g.devs.insert(i, id);
    let paths = g.paths.insert(i, path);
    lemma_goes_with(devs, paths, i);
    assert forall|k: int| 0 <= k < g.devs.len() && #[trigger] g.devs[k] != id implies goes_with(
        devs,
        paths,
        g.devs[k],
        g.paths[k],
    ) by {
        lemma_goes_with(
            devs,
            paths,
            if k < i {
                k
            } else {
                k + 1
            },
        );
    }
    assert forall|l: int| 0 <= l < devs.len() && #[trigger] devs[l] != id implies g.devs.contains(
        devs[l],
    ) by {
        let k = if l < i {
            l
        } else {
            l - 1
        };
        assert(g.devs[k] == devs[l]);
    }
}

/// The ids ascend.
pub open spec fn is_sorted(devs: Seq<u64>) -> bool {
    forall|i: int, j: int| 0 <= i < j < devs.len() ==> devs[i] < devs[j]
}

/// The second devices are the first with one more, or with another path for it.
spec fn are_joined(
    d: Seq<u64>,
    p: Seq<Seq<char>>,
    devs: Seq<u64>,
    paths: Seq<Seq<char>>,
    id: u64,
    path: Seq<char>,
) -> bool {
    &&& devs.len() == paths.len()
    &&& is_sorted(devs)
    &&& goes_with(devs, paths, id, path)
    &&& forall|k: int|
        0 <= k < d.len() && #[trigger] d[k] != id ==> goes_with(devs, paths, d[k], p[k])
    &&& forall|l: int| 0 <= l < devs.len() && #[trigger] devs[l] != id ==> d.contains(devs[l])
}

proof fn lemma_devices(g: GatheredView, id: u64, path: Seq<char>)
    requires
        is_sorted(g.devs),
        g.devs.len() == g.paths.len(),
    ensures
        ({
            let h = with_device(g, id, path);
            are_joined(g.devs, g.paths, h.devs, h.paths, id, path)
        }),
{
    let i = crate::open::rank(g.devs, id);
    lemma_rank_splits(g.devs, id);
    if i < g.devs.len() && g.devs[i] == id {
        lemma_device_replaced(g, id, path, i);
    } else {
        assert forall|k: int| i <= k < g.devs.len() implies #[trigger] g.devs[k] > id by {
            if k > i {
                assert(g.devs[i] < g.devs[k]);
            }
        }
        lemma_device_added(g, id, path, i);
    }
}

proof fn lemma_rank_splits(devs: Seq<u64>, id: u64)
    requires
        is_sorted(devs),
    ensures
        0 <= crate::open::rank(devs, id) <= devs.len(),
        forall|i: int| 0 <= i < crate::open::rank(devs, id) ==> #[trigger] devs[i] < id,
        forall|i: int| crate::open::rank(devs, id) <= i < devs.len() ==> #[trigger] devs[i] >= id,
    decreases devs.len(),
{
    if devs.len() > 0 && devs.last() >= id {
        let front = devs.drop_last();
        lemma_rank_splits(front, id);
        assert forall|i: int| 0 <= i < crate::open::rank(devs, id) implies #[trigger] devs[i] < id by {
            assert(front[i] == devs[i]);
        }
        assert forall|i: int| crate::open::rank(devs, id) <= i < devs.len() implies #[trigger] devs[i]
            >= id by {
            if i < front.len() {
                assert(front[i] == devs[i]);
            }
        }
    }
}

/// The devices are those of the ids `ids`, each once and in ascending order, and each goes with
/// the path that stands beside the last mention of its id.
pub open spec fn lists(
    devs: Seq<u64>,
    paths: Seq<Seq<char>>,
    ids: Seq<u64>,
    names: Seq<Seq<char>>,
) -> bool {
    &&& devs.len() == paths.len()
    &&& is_sorted(devs)
    &&& forall|i: int|
        0 <= i < ids.len() && is_last_of(ids, i) ==> goes_with(
            devs,
            paths,
            #[trigger] ids[i],
            names[i],
        )
    &&& forall|k: int| 0 <= k < devs.len() ==> ids.contains(#[trigger] devs[k])
}

/// The id is not mentioned again.
pub open spec fn is_last_of(ids: Seq<u64>, i: int) -> bool {
    forall|j: int| i < j < ids.len() ==> #[trigger] ids[j] != ids[i]
}

/// The device of that id has that path.
pub open spec fn goes_with(
    devs: Seq<u64>,
    paths: Seq<Seq<char>>,
    id: u64,
    path: Seq<char>,
) -> bool {
    exists|k: int| 0 <= k < devs.len() && #[trigger] devs[k] == id && paths[k] == path
}

proof fn lemma_lists(
    g: GatheredView,
    ids: Seq<u64>,
    names: Seq<Seq<char>>,
    id: u64,
    path: Seq<char>,
)
    requires
        lists(g.devs, g.paths, ids, names),
        ids.len() == names.len(),
    ensures
        ({
            let h = with_device(g, id, path);
            lists(h.devs, h.paths, ids.push(id), names.push(path))
        }),
{
    lemma_devices(g, id, path);
    let h = with_device(g, id, path);
    let ids2 = ids.push(id);
    let names2 = names.push(path);
    assert forall|i: int| 0 <= i < ids2.len() && is_last_of(ids2, i) implies goes_with(
        h.devs,
        h.paths,
        #[trigger] ids2[i],
        names2[i],
    ) by {
        if i < ids.len() {
            assert(ids2[ids.len() as int] != ids2[i]);
            assert forall|j: int| i < j < ids.len() implies #[trigger] ids[j] != ids[i] by {
                assert(ids2[j] != ids2[i]);
            }
            assert(is_last_of(ids, i));
            assert(goes_with(g.devs, g.paths, ids[i], names[i]));
            let k = choose|k: int|
                0 <= k < g.devs.len() && #[trigger] g.devs[k] == ids[i] && g.paths[k] == names[i];
            assert(g.devs[k] != id);
            assert(goes_with(h.devs, h.paths, g.devs[k], g.paths[k]));
        }
    }
    assert forall|k: int| 0 <= k < h.devs.len() implies ids2.contains(#[trigger] h.devs[k]) by {
        if h.devs[k] == id {
            assert(ids2[ids.len() as int] == id);
        } else {
            let j = g.devs.index_of(h.devs[k]);
            assert(ids.contains(g.devs[j]));
            let i = ids.index_of(g.devs[j]);
            assert(ids2[i] == h.devs[k]);
        }
    }
}

/// The device id in the superblock of a device.
pub open spec fn device_of(p: ProbeView) -> u64 {
    (super_of(p)->Ok_0).devid
}

/// The device ids are those in the superblocks, each once and in ascending order, and each goes
/// with the path of the last device that was named with it.
pub proof fn law_every_device_is_gathered(probes: Seq<ProbeView>)
    requires
        gathered(probes) is Ok,
    ensures
        lists(
            (gathered(probes)->Ok_0).devs,
            (gathered(probes)->Ok_0).paths,
            Seq::new(probes.len(), |i: int| device_of(probes[i])),
            Seq::new(probes.len(), |i: int| probes[i].path),
        ),
    decreases probes.len(),
{
    let ids = Seq::new(probes.len(), |i: int| device_of(probes[i]));
    let names = Seq::new(probes.len(), |i: int| probes[i].path);
    if probes.len() > 0 {
        let front = probes.drop_last();
        let n = probes.len() - 1;
        law_every_device_is_gathered(front);
        let h = gathered(front)->Ok_0;
        let ids1 = Seq::new(front.len(), |i: int| device_of(front[i]));
        let names1 = Seq::new(front.len(), |i: int| front[i].path);
        lemma_lists(h, ids1, names1, device_of(probes[n]), probes[n].path);
        assert(ids1.push(device_of(probes[n])) =~= ids);
        assert(names1.push(probes[n].path) =~= names);
    }
}

/// What is opened goes by the superblock of one of the devices, has the devices that were
/// gathered, and has read no block yet.
pub proof fn law_what_is_opened(probes: Seq<ProbeView>)
    requires
        opened(probes) is Ok,
    ensures
        ({
            let f = opened(probes)->Ok_0;
            let g = gathered(probes)->Ok_0;
            &&& gathered(probes) is Ok
            &&& exists|i: int|
                0 <= i < probes.len() && super_of(#[trigger] probes[i]) == Ok::<
                    SuperblockView,
                    ErrorView,
                >(f.sb)
            &&& forall|i: int|
                0 <= i < probes.len() ==> super_of(#[trigger] probes[i]) is Ok && (super_of(
                    probes[i],
                )->Ok_0).fsid == f.sb.fsid && (super_of(probes[i])->Ok_0).generation
                    <= f.sb.generation
            &&& f.devs == g.devs
            &&& f.paths == g.paths
            &&& f.nodes == Map::<u64, Seq<u8>>::empty()
            &&& f.attempt is None
        }),
{
    crate::open::law_newest_superblock_counts(probes);
}

/// Of devices whose superblocks are of the same generation the first counts: every one before it
/// is older.
pub proof fn law_the_first_of_the_newest_counts(probes: Seq<ProbeView>) -> (i: int)
    requires
        probes.len() > 0,
        gathered(probes) is Ok,
    ensures
        0 <= i < probes.len(),
        super_of(probes[i]) is Ok,
        (gathered(probes)->Ok_0).best == Some(super_of(probes[i])->Ok_0),
        forall|j: int|
            0 <= j < i ==> (super_of(#[trigger] probes[j])->Ok_0).generation < (super_of(
                probes[i],
            )->Ok_0).generation,
    decreases probes.len(),
{
    let front = probes.drop_last();
    let n = probes.len() - 1;
    if front.len() == 0 {
        0
    } else {
        crate::open::law_newest_superblock_counts(front);
        let k = law_the_first_of_the_newest_counts(front);
        let old = super_of(probes[k])->Ok_0;
        let new = super_of(probes[n])->Ok_0;
        assert(front[k] == probes[k]);
        if new.generation <= old.generation {
            assert forall|j: int| 0 <= j < k implies (super_of(#[trigger] probes[j])->Ok_0).generation
                < old.generation by {
                assert(front[j] == probes[j]);
            }
            k
        } else {
            assert forall|j: int| 0 <= j < n implies (super_of(#[trigger] probes[j])->Ok_0).generation
                < new.generation by {
                assert(front[j] == probes[j]);
            }
            n
        }
    }
}

/// Devices of one filesystem, whose superblocks can be read and whose features and system chunks
/// can be used, are opened, with those chunks mapped. The features that cannot be used are those
/// of bits 13 and 14.
pub proof fn law_good_devices_are_opened(probes: Seq<ProbeView>, fsid: Seq<u8>, cs: Seq<ChunkView>)
    requires
        probes.len() > 0,
        forall|i: int|
            0 <= i < probes.len() ==> super_of(#[trigger] probes[i]) is Ok && (super_of(
                probes[i],
            )->Ok_0).fsid == fsid,
        ({
            let sb = (gathered(probes)->Ok_0).best->0;
            &&& (sb.incompat_flags / 8192) % 4 == 0
            &&& is_array_of(sb.sys_chunk_array, 0, cs)
        }),
    ensures
        opened(probes) matches Ok(f) && f.chunks == with_chunks(seq![], cs),
{
    law_the_numbers_of_the_format();
    law_good_devices_are_gathered(probes, fsid);
    let sb = (gathered(probes)->Ok_0).best->0;
    let flags = sb.incompat_flags;
    assert((flags & 0x6000 == 0) == ((flags / 8192) % 4 == 0)) by (bit_vector);
    law_system_chunks_are_mapped(sb.sys_chunk_array, 0, cs, seq![]);
}

/// Devices with a feature of bit 13 or 14 are not.
pub proof fn law_unusable_features_are_refused(probes: Seq<ProbeView>)
    requires
        probes.len() > 0,
        gathered(probes) is Ok,
        ((gathered(probes)->Ok_0).best->0.incompat_flags / 8192) % 4 != 0,
    ensures
        opened(probes) matches Err(e) && e.kind == ErrorKind::RefusedFeature,
{
    law_the_numbers_of_the_format();
    let flags = (gathered(probes)->Ok_0).best->0.incompat_flags;
    assert((flags & 0x6000 == 0) == ((flags / 8192) % 4 == 0)) by (bit_vector);
}

/// Devices of different filesystems are not put together: the first that belongs to another is
/// refused.
pub proof fn law_other_filesystems_are_refused(probes: Seq<ProbeView>, sb: SuperblockView)
    requires
        probes.len() > 1,
        gathered(probes.drop_last()) is Ok,
        super_of(probes.last()) == Ok::<SuperblockView, ErrorView>(sb),
        super_of(probes[0]) is Ok,
        (super_of(probes[0])->Ok_0).fsid != sb.fsid,
    ensures
        gathered(probes) matches Err(e) && e.kind == ErrorKind::OtherFilesystem && e.subject
            == probes.last().path,
{
    let front = probes.drop_last();
    crate::open::law_newest_superblock_counts(front);
    assert(front[0] == probes[0]);
}

/// Superblocks of devices of one filesystem, where all can be read, are put together.
pub proof fn law_good_devices_are_gathered(probes: Seq<ProbeView>, fsid: Seq<u8>)
    requires
        forall|i: int|
            0 <= i < probes.len() ==> super_of(#[trigger] probes[i]) is Ok && (super_of(
                probes[i],
            )->Ok_0).fsid == fsid,
    ensures
        gathered(probes) is Ok,
        (gathered(probes)->Ok_0).best is Some <==> probes.len() > 0,
        (gathered(probes)->Ok_0).best matches Some(b) ==> b.fsid == fsid,
    decreases probes.len(),
{
    if probes.len() > 0 {
        let front = probes.drop_last();
        assert forall|i: int| 0 <= i < front.len() implies super_of(#[trigger] front[i]) is Ok && (
        super_of(front[i])->Ok_0).fsid == fsid by {
            assert(front[i] == probes[i]);
        }
        law_good_devices_are_gathered(front, fsid);
        assert(super_of(probes[probes.len() - 1]) is Ok);
    }
}

} // verus!
