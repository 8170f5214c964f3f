//! Reading gives back what was written: each on-disk structure, from the bytes that the format
//! puts where.

use vstd::arithmetic::power2::*;
use vstd::prelude::*;

use crate::checksum::crc32c_value;
use crate::disk::{
    chunk_of, dir_entries_from, dir_entries_of, dir_entry_at, dir_entry_size, extent_of, inode_of,
    is_power_of_two, key_field, le, superblock_of, u16_field, u32_field, u64_field, u8_field,
    ChunkView, DirEntryView, ExtentKindView, ExtentView, Inode, Key, SuperblockView,
};
use crate::error::ErrorView;
use crate::fs::nritems_of;
use crate::lookup::{snapshot_mark, tree_root_of, TreeRoot};
use crate::subvol::{backref_of, ref_name, root_info_of, BackrefView};
use crate::text::utf8_lossy;
use crate::tree::{item_of, level_of, ptr_of, ItemView};

verus! {

/// The number in `n` bytes, the lowest first.
pub open spec fn little(v: nat, n: nat) -> Seq<u8>
    decreases n,
{
    if n == 0 {
        seq![]
    } else {
        seq![(v % 256) as u8] + little(v / 256, (n - 1) as nat)
    }
}

/// One more than the highest number that fits `n` bytes.
pub open spec fn beyond(n: nat) -> nat
    decreases n,
{
    if n == 0 {
        1
    } else {
        256 * beyond((n - 1) as nat)
    }
}

/// At `at` stands the number `v`, in `n` bytes.
pub open spec fn holds(b: Seq<u8>, at: int, n: nat, v: int) -> bool {
    0 <= at && 0 <= v && at + n <= b.len() && b.subrange(at, at + n) == little(v as nat, n)
}

/// At `at` stand the bytes `s`.
pub open spec fn holds_bytes(b: Seq<u8>, at: int, s: Seq<u8>) -> bool {
    0 <= at && at + s.len() <= b.len() && b.subrange(at, at + s.len()) == s
}

proof fn lemma_little_len(v: nat, n: nat)
    ensures
        little(v, n).len() == n,
    decreases n,
{
    if n > 0 {
        lemma_little_len(v / 256, (n - 1) as nat);
    }
}

/// A number written is the number read.
pub proof fn law_numbers_read_as_written(b: Seq<u8>, at: int, n: nat, v: nat)
    requires
        holds(b, at, n, v as int),
        v < beyond(n),
    ensures
        le(b, at, n) == v,
    decreases n,
{
    if n > 0 {
        let m = (n - 1) as nat;
        let s = little(v, n);
        lemma_little_len(v / 256, m);
        assert(b[at] == b.subrange(at, at + n)[0]);
        assert(b.subrange(at + 1, at + 1 + m) =~= b.subrange(at, at + n).skip(1));
        assert(s.skip(1) =~= little(v / 256, m));
        law_numbers_read_as_written(b, at + 1, m, v / 256);
        assert(v == 256 * (v / 256) + v % 256) by {
            vstd::arithmetic::div_mod::lemma_fundamental_div_mod(v as int, 256);
        }
    }
}

/// The number read is the one that stands there, and no other.
pub proof fn law_numbers_are_what_stands_there(b: Seq<u8>, at: int, n: nat)
    requires
        0 <= at,
        at + n <= b.len(),
    ensures
        holds(b, at, n, le(b, at, n) as int),
        le(b, at, n) < beyond(n),
    decreases n,
{
    if n == 0 {
        assert(b.subrange(at, at + n) =~= little(le(b, at, n), n));
    } else {
        let m = (n - 1) as nat;
        law_numbers_are_what_stands_there(b, at + 1, m);
        let rest = le(b, at + 1, m);
        let v = le(b, at, n);
        assert(v % 256 == b[at] && v / 256 == rest) by {
            vstd::arithmetic::div_mod::lemma_fundamental_div_mod_converse(
                v as int,
                256,
                rest as int,
                b[at] as int,
            );
        }
        assert(b.subrange(at, at + n) =~= seq![b[at]] + b.subrange(at + 1, at + 1 + m));
    }
}

proof fn lemma_widths()
    ensures
        beyond(1) == 0x100,
        beyond(2) == 0x1_0000,
        beyond(4) == 0x1_0000_0000,
        beyond(8) == 0x1_0000_0000_0000_0000,
{
    reveal_with_fuel(beyond, 9);
}

/// A number that fits its bytes is read as it stands.
proof fn lemma_held(b: Seq<u8>, at: int, n: nat, v: int)
    requires
        holds(b, at, n, v),
        n == 1 || n == 2 || n == 4 || n == 8,
        n == 1 ==> v <= u8::MAX,
        n == 2 ==> v <= u16::MAX,
        n == 4 ==> v <= u32::MAX,
        n == 8 ==> v <= u64::MAX,
    ensures
        le(b, at, n) == v,
        n == 1 ==> b[at] == v,
{
    lemma_widths();
    law_numbers_read_as_written(b, at, n, v as nat);
    if n == 1 {
        reveal_with_fuel(le, 2);
    }
}

/// Each width of number is read from that many bytes, and is an error where they are not all
/// there.
pub proof fn law_fields_read_as_written(b: Seq<u8>, at: int, v: int)
    requires
        0 <= at,
    ensures
        holds(b, at, 1, v) && v <= u8::MAX ==> u8_field(b, at) == Ok::<u8, ErrorView>(v as u8),
        holds(b, at, 2, v) && v <= u16::MAX ==> u16_field(b, at) == Ok::<u16, ErrorView>(v as u16),
        holds(b, at, 4, v) && v <= u32::MAX ==> u32_field(b, at) == Ok::<u32, ErrorView>(v as u32),
        holds(b, at, 8, v) && v <= u64::MAX ==> u64_field(b, at) == Ok::<u64, ErrorView>(v as u64),
        u8_field(b, at) is Ok <==> at + 1 <= b.len(),
        u16_field(b, at) is Ok <==> at + 2 <= b.len(),
        u32_field(b, at) is Ok <==> at + 4 <= b.len(),
        u64_field(b, at) is Ok <==> at + 8 <= b.len(),
{
    if holds(b, at, 1, v) && v <= u8::MAX {
        lemma_held(b, at, 1, v);
    }
    if holds(b, at, 2, v) && v <= u16::MAX {
        lemma_held(b, at, 2, v);
    }
    if holds(b, at, 4, v) && v <= u32::MAX {
        lemma_held(b, at, 4, v);
    }
    if holds(b, at, 8, v) && v <= u64::MAX {
        lemma_held(b, at, 8, v);
    }
}

/// A key as it stands: the object in eight bytes, the type in one, the offset in eight.
pub open spec fn holds_key(b: Seq<u8>, at: int, k: Key) -> bool {
    &&& holds(b, at, 8, k.objectid as int)
    &&& holds(b, at + 8, 1, k.ty as int)
    &&& holds(b, at + 9, 8, k.offset as int)
}

/// A key written is the key read, whatever its object, type and offset; and what is read as a
/// key is what stands there.
pub proof fn law_keys_read_as_written(b: Seq<u8>, at: int, k: Key)
    requires
        0 <= at,
    ensures
        holds_key(b, at, k) <==> key_field(b, at) == Ok::<Key, ErrorView>(k),
        key_field(b, at) is Ok <==> at + 17 <= b.len(),
{
    if holds_key(b, at, k) {
        lemma_held(b, at, 8, k.objectid as int);
        lemma_held(b, at + 8, 1, k.ty as int);
        lemma_held(b, at + 9, 8, k.offset as int);
    }
    if at + 17 <= b.len() {
        lemma_widths();
        law_numbers_are_what_stands_there(b, at, 8);
        law_numbers_are_what_stands_there(b, at + 8, 1);
        law_numbers_are_what_stands_there(b, at + 9, 8);
        reveal_with_fuel(le, 2);
        assert(le(b, at + 8, 1) == b[at + 8]);
    }
}

/// Different bytes are different keys.
pub proof fn law_keys_tell_bytes_apart(a: Seq<u8>, b: Seq<u8>)
    requires
        a.len() == 17,
        b.len() == 17,
        key_field(a, 0) == key_field(b, 0),
    ensures
        a == b,
{
    let k = key_field(a, 0)->Ok_0;
    law_keys_read_as_written(a, 0, k);
    law_keys_read_as_written(b, 0, k);
    assert(a =~= a.subrange(0, 8) + a.subrange(8, 9) + a.subrange(9, 17));
    assert(b =~= b.subrange(0, 8) + b.subrange(8, 9) + b.subrange(9, 17));
}

/// The place of a key among all keys, as one number: the object counts most, the offset least.
pub open spec fn key_number(k: Key) -> int {
    (k.objectid * 0x100 + k.ty) * 0x1_0000_0000_0000_0000 + k.offset
}

/// A key comes before another if and only if its number is lower.
pub proof fn law_keys_are_ordered_as_numbers(a: Key, b: Key)
    ensures
        a.precedes(b) <==> key_number(a) < key_number(b),
        a.at_most(b) <==> key_number(a) <= key_number(b),
{
}

/// A signed number in eight bytes is its remainder by two to the sixty-fourth.
pub open spec fn holds_signed(b: Seq<u8>, at: int, v: i64) -> bool {
    holds(
        b,
        at,
        8,
        if v < 0 {
            v + 0x1_0000_0000_0000_0000
        } else {
            v as int
        },
    )
}

/// An inode item of 160 bytes or more is read as it was written: each number from its place,
/// whatever stands elsewhere.
pub proof fn law_inodes_read_as_written(b: Seq<u8>, i: Inode)
    requires
        b.len() >= 160,
        holds(b, 16, 8, i.size as int),
        holds(b, 40, 4, i.nlink as int),
        holds(b, 44, 4, i.uid as int),
        holds(b, 48, 4, i.gid as int),
        holds(b, 52, 4, i.mode as int),
        holds_signed(b, 136, i.mtime_sec),
        holds(b, 144, 4, i.mtime_nsec as int),
    ensures
        inode_of(b) == Ok::<Inode, ErrorView>(i),
{
    lemma_held(b, 16, 8, i.size as int);
    lemma_held(b, 40, 4, i.nlink as int);
    lemma_held(b, 44, 4, i.uid as int);
    lemma_held(b, 48, 4, i.gid as int);
    lemma_held(b, 52, 4, i.mode as int);
    lemma_held(
        b,
        136,
        8,
        if i.mtime_sec < 0 {
            i.mtime_sec + 0x1_0000_0000_0000_0000
        } else {
            i.mtime_sec as int
        },
    );
    lemma_held(b, 144, 4, i.mtime_nsec as int);
}

/// A shorter one is an error.
pub proof fn law_short_inodes_are_errors(b: Seq<u8>)
    ensures
        inode_of(b) is Ok <==> b.len() >= 160,
{
}

/// The head of an extent item: how large its data is, how it is compressed, that it is not
/// encrypted, and what kind it is of.
pub open spec fn holds_extent(b: Seq<u8>, ram_bytes: u64, compression: u8, kind: int) -> bool {
    &&& holds(b, 8, 8, ram_bytes as int)
    &&& holds(b, 16, 1, compression as int)
    &&& holds(b, 17, 1, 0)
    &&& holds(b, 20, 1, kind)
}

proof fn lemma_extent_head(b: Seq<u8>, ram_bytes: u64, compression: u8, kind: int)
    requires
        holds_extent(b, ram_bytes, compression, kind),
        kind <= u8::MAX,
    ensures
        le(b, 8, 8) == ram_bytes,
        b[16] == compression,
        b[17] == 0,
        b[20] == kind,
{
    lemma_held(b, 8, 8, ram_bytes as int);
    lemma_held(b, 16, 1, compression as int);
    lemma_held(b, 17, 1, 0);
    lemma_held(b, 20, 1, kind);
}

/// An inline extent holds its data itself, after the head: all that is left of the item.
pub proof fn law_inline_extents_read_as_written(
    b: Seq<u8>,
    file_off: u64,
    ram_bytes: u64,
    compression: u8,
    data: Seq<u8>,
)
    requires
        holds_extent(b, ram_bytes, compression, 0),
        b.len() == 21 + data.len(),
        holds_bytes(b, 21, data),
    ensures
        extent_of(file_off, b) == Ok::<ExtentView, ErrorView>(
            ExtentView {
                file_off,
                len: ram_bytes,
                ram_bytes,
                compression,
                kind: ExtentKindView::Inline(data),
            },
        ),
{
    lemma_extent_head(b, ram_bytes, compression, 0);
    assert(b.skip(21) =~= data);
}

/// A regular extent says where its data is on disk and how much, where in that data the file's
/// bytes begin, and how many they are. One that is preallocated has the same form.
pub proof fn law_other_extents_read_as_written(
    b: Seq<u8>,
    file_off: u64,
    len: u64,
    ram_bytes: u64,
    compression: u8,
    kind: int,
    disk_bytenr: u64,
    disk_num_bytes: u64,
    offset: u64,
)
    requires
        holds_extent(b, ram_bytes, compression, kind),
        kind == 1 || kind == 2,
        holds(b, 21, 8, disk_bytenr as int),
        holds(b, 29, 8, disk_num_bytes as int),
        holds(b, 37, 8, offset as int),
        holds(b, 45, 8, len as int),
    ensures
        extent_of(file_off, b) == Ok::<ExtentView, ErrorView>(
            ExtentView {
                file_off,
                len,
                ram_bytes,
                compression,
                kind: if kind == 2 {
                    ExtentKindView::Prealloc
                } else {
                    ExtentKindView::Regular { disk_bytenr, disk_num_bytes, offset }
                },
            },
        ),
{
    lemma_extent_head(b, ram_bytes, compression, kind);
    lemma_held(b, 21, 8, disk_bytenr as int);
    lemma_held(b, 29, 8, disk_num_bytes as int);
    lemma_held(b, 37, 8, offset as int);
    lemma_held(b, 45, 8, len as int);
}

/// An extent that is encrypted, of an unknown kind or not all there is an error; no other is.
pub proof fn law_bad_extents_are_errors(b: Seq<u8>, file_off: u64)
    ensures
        extent_of(file_off, b) is Ok <==> b.len() >= 21 && b[17] == 0 && (b[20] == 0 || (b[20] == 1
            || b[20] == 2) && b.len() >= 53),
{
}

/// A directory entry as it stands: where it leads, the transaction that made it, the lengths of
/// its data and its name, its type, its name, its data.
pub open spec fn entry_bytes(e: DirEntryView, transid: u64, data: Seq<u8>) -> Seq<u8> {
    little(e.location.objectid as nat, 8) + seq![e.location.ty] + little(
        e.location.offset as nat,
        8,
    ) + little(transid as nat, 8) + little(data.len(), 2) + little(e.name.len(), 2) + seq![e.ftype]
        + e.name + data
}

/// An entry written at `at` is the entry read there, and the next one comes right after it.
proof fn lemma_entry_reads(b: Seq<u8>, at: int, e: DirEntryView, transid: u64, data: Seq<u8>)
    requires
        holds_bytes(b, at, entry_bytes(e, transid, data)),
        e.name.len() <= u16::MAX,
        data.len() <= u16::MAX,
    ensures
        dir_entry_at(b, at) == Ok::<DirEntryView, ErrorView>(e),
        dir_entry_size(b, at) == entry_bytes(e, transid, data).len(),
        entry_bytes(e, transid, data).len() == 30 + e.name.len() + data.len(),
{
    let s = entry_bytes(e, transid, data);
    let x = little(e.location.objectid as nat, 8);
    let y = little(e.location.offset as nat, 8);
    let t = little(transid as nat, 8);
    let d = little(data.len(), 2);
    let n = little(e.name.len(), 2);
    lemma_little_len(e.location.objectid as nat, 8);
    lemma_little_len(e.location.offset as nat, 8);
    lemma_little_len(transid as nat, 8);
    lemma_little_len(data.len(), 2);
    lemma_little_len(e.name.len(), 2);
    let k = e.location;
    assert(s.subrange(0, 8) =~= x);
    assert(s.subrange(9, 17) =~= y);
    assert(s.subrange(25, 27) =~= d);
    assert(s.subrange(27, 29) =~= n);
    assert(s.subrange(30, 30 + e.name.len() as int) =~= e.name);
    assert(s[8] == k.ty && s[29] == e.ftype);
    lemma_within(b, at, s, 0, 8);
    lemma_within(b, at, s, 9, 8);
    lemma_within(b, at, s, 25, 2);
    lemma_within(b, at, s, 27, 2);
    lemma_within(b, at, s, 30, e.name.len() as int);
    lemma_within(b, at, s, 8, 1);
    lemma_within(b, at, s, 29, 1);
    assert(b[at + 8] == b.subrange(at + 8, at + 9)[0] && s[8] == s.subrange(8, 9)[0]);
    assert(b[at + 29] == b.subrange(at + 29, at + 30)[0] && s[29] == s.subrange(29, 30)[0]);
    lemma_held(b, at, 8, k.objectid as int);
    lemma_held(b, at + 9, 8, k.offset as int);
    lemma_held(b, at + 25, 2, data.len() as int);
    lemma_held(b, at + 27, 2, e.name.len() as int);
}

/// A part of bytes that stand somewhere stands as far in.
proof fn lemma_within(b: Seq<u8>, at: int, s: Seq<u8>, from: int, n: int)
    requires
        holds_bytes(b, at, s),
        0 <= from,
        0 <= n,
        from + n <= s.len(),
    ensures
        b.subrange(at + from, at + from + n) == s.subrange(from, from + n),
{
    assert(b.subrange(at + from, at + from + n) =~= b.subrange(at, at + s.len()).subrange(
        from,
        from + n,
    ));
}

/// Entries one after another, each with its transaction and data.
pub open spec fn all_entry_bytes(s: Seq<(DirEntryView, u64, Seq<u8>)>) -> Seq<u8>
    decreases s.len(),
{
    if s.len() == 0 {
        seq![]
    } else {
        entry_bytes(s[0].0, s[0].1, s[0].2) + all_entry_bytes(s.skip(1))
    }
}

/// The entries of them.
pub open spec fn entries_of(s: Seq<(DirEntryView, u64, Seq<u8>)>) -> Seq<DirEntryView> {
    Seq::new(s.len(), |i: int| s[i].0)
}

proof fn lemma_entries_read(b: Seq<u8>, at: int, s: Seq<(DirEntryView, u64, Seq<u8>)>)
    requires
        0 <= at <= b.len(),
        b.skip(at) == all_entry_bytes(s),
        forall|i: int|
            0 <= i < s.len() ==> (#[trigger] s[i]).0.name.len() <= u16::MAX && s[i].2.len()
                <= u16::MAX,
    ensures
        dir_entries_from(b, at) == Ok::<Seq<DirEntryView>, ErrorView>(entries_of(s)),
    decreases s.len(),
{
    if s.len() == 0 {
        assert(b.skip(at).len() == 0);
        assert(entries_of(s) =~= seq![]);
    } else {
        let (e, transid, data) = s[0];
        let one = entry_bytes(e, transid, data);
        let rest = s.skip(1);
        let n = one.len() as int;
        assert(b.skip(at).len() == one.len() + all_entry_bytes(rest).len());
        assert(b.skip(at).take(n) =~= one);
        assert(b.subrange(at, at + n) =~= b.skip(at).take(n));
        lemma_entry_reads(b, at, e, transid, data);
        assert(b.skip(at + n) =~= b.skip(at).skip(n));
        assert(b.skip(at).skip(n) =~= all_entry_bytes(rest));
        assert forall|i: int| 0 <= i < rest.len() implies (#[trigger] rest[i]).0.name.len()
            <= u16::MAX && rest[i].2.len() <= u16::MAX by {
            assert(rest[i] == s[i + 1]);
        }
        lemma_entries_read(b, at + n, rest);
        assert(seq![e] + entries_of(rest) =~= entries_of(s));
    }
}

/// A directory item is read as it was written: its entries in their order, each with the name,
/// the type and the place it leads to that were put in.
pub proof fn law_entries_read_as_written(s: Seq<(DirEntryView, u64, Seq<u8>)>)
    requires
        forall|i: int|
            0 <= i < s.len() ==> (#[trigger] s[i]).0.name.len() <= u16::MAX && s[i].2.len()
                <= u16::MAX,
    ensures
        dir_entries_of(all_entry_bytes(s)) == Ok::<Seq<DirEntryView>, ErrorView>(entries_of(s)),
{
    let b = all_entry_bytes(s);
    assert(b.skip(0) =~= b);
    lemma_entries_read(b, 0, s);
}

/// A chunk item as it stands: its length, what it holds and how, and for each stripe its device
/// and its place there.
pub open spec fn holds_chunk(b: Seq<u8>, c: ChunkView) -> bool {
    &&& holds(b, 0, 8, c.length as int)
    &&& holds(b, 24, 8, c.ty as int)
    &&& holds(b, 44, 2, c.stripes.len() as int)
    &&& b.len() >= 48 + 32 * c.stripes.len()
    &&& forall|i: int|
        0 <= i < c.stripes.len() ==> holds(b, 48 + i * 32, 8, (#[trigger] c.stripes[i]).0 as int)
            && holds(b, 56 + i * 32, 8, c.stripes[i].1 as int)
}

/// A chunk item is read as it was written, at the address that it is filed under, and takes 48
/// bytes and 32 for each stripe.
pub proof fn law_chunks_read_as_written(b: Seq<u8>, c: ChunkView)
    requires
        holds_chunk(b, c),
        0 < c.stripes.len() <= u16::MAX,
    ensures
        chunk_of(c.start, b) == Ok::<(ChunkView, int), ErrorView>(
            (c, 48 + 32 * c.stripes.len() as int),
        ),
{
    lemma_held(b, 0, 8, c.length as int);
    lemma_held(b, 24, 8, c.ty as int);
    lemma_held(b, 44, 2, c.stripes.len() as int);
    crate::disk::law_a_chunk_is_all_there(c.start, b);
    let d = (chunk_of(c.start, b)->Ok_0).0;
    assert forall|i: int| 0 <= i < c.stripes.len() implies d.stripes[i] == c.stripes[i] by {
        lemma_held(b, 48 + i * 32, 8, c.stripes[i].0 as int);
        lemma_held(b, 56 + i * 32, 8, c.stripes[i].1 as int);
    }
    assert(d.stripes =~= c.stripes);
}

/// The head of a tree block says how many items it has and how high it stands.
pub proof fn law_block_heads_read_as_written(b: Seq<u8>, items: u32, level: u8)
    requires
        holds(b, 96, 4, items as int),
        holds(b, 100, 1, level as int),
    ensures
        nritems_of(b) == items,
        level_of(b) == level,
{
    lemma_held(b, 96, 4, items as int);
    lemma_held(b, 100, 1, level as int);
}

/// Item `i` of a leaf: its key, and where after the head of the block its bytes are. It is read
/// as it was written.
pub proof fn law_items_read_as_written(b: Seq<u8>, i: int, x: ItemView, at: u32)
    requires
        0 <= i,
        x.data.len() <= u32::MAX,
        holds_key(b, 101 + 25 * i, x.key),
        holds(b, 118 + 25 * i, 4, at as int),
        holds(b, 122 + 25 * i, 4, x.data.len() as int),
        holds_bytes(b, 101 + at, x.data),
    ensures
        item_of(b, i) == Ok::<ItemView, ErrorView>(x),
{
    law_keys_read_as_written(b, 101 + 25 * i, x.key);
    lemma_held(b, 118 + 25 * i, 4, at as int);
    lemma_held(b, 122 + 25 * i, 4, x.data.len() as int);
}

/// Pointer `i` of an inner block: the first key below it, and the address of the block. It is
/// read as it was written.
pub proof fn law_pointers_read_as_written(b: Seq<u8>, i: int, key: Key, child: u64)
    requires
        0 <= i,
        holds_key(b, 101 + 33 * i, key),
        holds(b, 118 + 33 * i, 8, child as int),
    ensures
        ptr_of(b, i) == Ok::<(Key, u64), ErrorView>((key, child)),
{
    law_keys_read_as_written(b, 101 + 33 * i, key);
    lemma_held(b, 118 + 33 * i, 8, child as int);
}

/// A root item is read as it was written: where the tree is and its top directory, the
/// generation it is of, and whether it is read-only, which is the lowest bit of its flags.
pub proof fn law_root_items_read_as_written(
    d: Seq<u8>,
    id: u64,
    generation: u64,
    root_dirid: u64,
    bytenr: u64,
    flags: u64,
)
    requires
        holds(d, 160, 8, generation as int),
        holds(d, 168, 8, root_dirid as int),
        holds(d, 176, 8, bytenr as int),
        holds(d, 208, 8, flags as int),
    ensures
        tree_root_of(d) == Ok::<TreeRoot, ErrorView>(TreeRoot { bytenr, root_dirid }),
        root_info_of(id, d) matches Ok(r) && r.id == id && r.generation == generation && r.readonly
            == (flags % 2 == 1) && r.snapshot == snapshot_mark(d),
{
    lemma_held(d, 160, 8, generation as int);
    lemma_held(d, 168, 8, root_dirid as int);
    lemma_held(d, 176, 8, bytenr as int);
    lemma_held(d, 208, 8, flags as int);
    assert(flags & 1 != 0 <==> flags % 2 == 1) by (bit_vector);
}

/// Whether a subvolume is a snapshot is a matter of the parent's UUID in its root item alone,
/// the sixteen bytes at 263: of zeros there it is none, of anything else it is one, whatever
/// stands elsewhere; and where the item is too short to have one, it is none.
pub proof fn law_snapshots_have_a_parent(d: Seq<u8>, parent: Seq<u8>)
    ensures
        d.len() < 279 ==> !snapshot_mark(d),
        holds_bytes(d, 263, parent) && parent.len() == 16 ==> (snapshot_mark(d) <==> parent
            != Seq::new(16, |i: int| 0u8)),
{
    if holds_bytes(d, 263, parent) && parent.len() == 16 {
        let zeros = Seq::new(16, |i: int| 0u8);
        assert forall|i: int| 0 <= i < 16 implies parent[i] == d[263 + i] by {
            assert(parent[i] == d.subrange(263, 279)[i]);
        }
        if snapshot_mark(d) {
            let i = choose|i: int| 263 <= i < 279 && #[trigger] d[i] != 0;
            assert(parent[i - 263] != zeros[i - 263]);
        } else {
            assert forall|i: int| 0 <= i < 16 implies parent[i] == zeros[i] by {
                assert(d[263 + i] == 0);
            }
            assert(parent =~= zeros);
        }
    }
}

/// Two root items with the same parent UUID are alike in that.
pub proof fn law_snapshots_depend_on_nothing_else(a: Seq<u8>, b: Seq<u8>)
    requires
        a.len() >= 279,
        b.len() >= 279,
        a.subrange(263, 279) == b.subrange(263, 279),
    ensures
        snapshot_mark(a) == snapshot_mark(b),
{
    let parent = a.subrange(263, 279);
    law_snapshots_have_a_parent(a, parent);
    law_snapshots_have_a_parent(b, parent);
}

/// A back reference is read as it was written: the directory of the parent that the subvolume
/// hangs in, and its name there.
pub proof fn law_backrefs_read_as_written(d: Seq<u8>, parent: u64, dirid: u64, name: Seq<u8>)
    requires
        name.len() <= u16::MAX,
        holds(d, 0, 8, dirid as int),
        holds(d, 16, 2, name.len() as int),
        holds_bytes(d, 18, name),
    ensures
        backref_of(parent, d) == Ok::<BackrefView, ErrorView>(
            BackrefView { parent, dirid, name: utf8_lossy(name) },
        ),
{
    lemma_held(d, 0, 8, dirid as int);
    lemma_held(d, 16, 2, name.len() as int);
}

/// So is the name in an inode reference.
pub proof fn law_refs_read_as_written(d: Seq<u8>, name: Seq<u8>)
    requires
        name.len() <= u16::MAX,
        holds(d, 8, 2, name.len() as int),
        holds_bytes(d, 10, name),
    ensures
        ref_name(d) == Ok::<Seq<char>, ErrorView>(utf8_lossy(name)),
{
    lemma_held(d, 8, 2, name.len() as int);
}

/// A size from 512 to 65536 that is a power of two.
pub open spec fn is_sector(n: int) -> bool {
    n == 512 || n == 1024 || n == 2048 || is_block(n)
}

/// A size from 4096 to 65536 that is a power of two.
pub open spec fn is_block(n: int) -> bool {
    n == 4096 || n == 8192 || n == 16384 || n == 32768 || n == 65536
}

proof fn lemma_powers(n: nat)
    ensures
        is_power_of_two(n) && 512 <= n <= 65536 <==> is_sector(n as int),
        is_power_of_two(n) && 4096 <= n <= 65536 <==> is_block(n as int),
{
    lemma2_to64();
    if is_power_of_two(n) && 512 <= n <= 65536 {
        let k = choose|k: nat| n == #[trigger] pow2(k);
        if k < 9 {
            lemma_pow2_strictly_increases(k, 9);
        }
        if k > 16 {
            lemma_pow2_strictly_increases(16, k);
        }
    }
    assert(pow2(9) == 512 && pow2(10) == 1024 && pow2(11) == 2048 && pow2(12) == 4096);
    assert(pow2(13) == 8192 && pow2(14) == 16384 && pow2(15) == 32768 && pow2(16) == 65536);
}

/// The numbers of a superblock, each in its place.
pub open spec fn holds_superblock(b: Seq<u8>, s: SuperblockView) -> bool {
    &&& holds_bytes(b, 32, s.fsid) && s.fsid.len() == 16
    &&& holds(b, 72, 8, s.generation as int)
    &&& holds(b, 80, 8, s.root as int)
    &&& holds(b, 88, 8, s.chunk_root as int)
    &&& holds(b, 96, 8, s.log_root as int)
    &&& holds(b, 112, 8, s.total_bytes as int)
    &&& holds(b, 120, 8, s.bytes_used as int)
    &&& holds(b, 128, 8, s.root_dir_objectid as int)
    &&& holds(b, 136, 8, s.num_devices as int)
    &&& holds(b, 144, 4, s.sectorsize as int)
    &&& holds(b, 148, 4, s.nodesize as int)
    &&& holds(b, 160, 4, s.sys_chunk_array.len() as int)
    &&& holds(b, 188, 8, s.incompat_flags as int)
    &&& holds(b, 196, 2, s.csum_type as int)
    &&& holds(b, 201, 8, s.devid as int)
    &&& holds_bytes(b, 811, s.sys_chunk_array)
}

/// The label stands in 256 bytes, ended by a zero where it is shorter.
pub open spec fn holds_label(b: Seq<u8>, label: Seq<u8>) -> bool {
    &&& label.len() <= 256
    &&& holds_bytes(b, 299, label)
    &&& forall|i: int| 0 <= i < label.len() ==> #[trigger] label[i] != 0
    &&& label.len() < 256 ==> b[299 + label.len() as int] == 0
}

/// `_BHRfS_M`.
pub open spec fn magic() -> Seq<u8> {
    seq![0x5f, 0x42, 0x48, 0x52, 0x66, 0x53, 0x5f, 0x4d]
}

proof fn lemma_zero_at(s: Seq<u8>, i: int, n: int)
    requires
        0 <= i <= n <= s.len(),
        forall|k: int| i <= k < n ==> #[trigger] s[k] != 0,
        n < s.len() ==> s[n] == 0,
    ensures
        crate::disk::zero_at(s, i) == n,
    decreases n - i,
{
    if i < n {
        lemma_zero_at(s, i + 1, n);
    }
}

/// A superblock of 4096 bytes with the magic, sizes that a filesystem can have and, where its
/// checksum is one that can be checked, the right one, is read as it was written.
#[verifier::rlimit(40)]
#[verifier::spinoff_prover]
pub proof fn law_superblocks_read_as_written(b: Seq<u8>, s: SuperblockView, label: Seq<u8>)
    requires
        b.len() == 4096,
        holds_bytes(b, 64, magic()),
        holds_superblock(b, s),
        holds_label(b, label),
        s.label == utf8_lossy(label),
        s.sys_chunk_array.len() <= 2048,
        is_sector(s.sectorsize as int),
        is_block(s.nodesize as int),
        s.csum_type == 0 ==> holds(b, 0, 4, crc32c_value(0, b.skip(32)) as int),
    ensures
        superblock_of(b) == Ok::<SuperblockView, ErrorView>(s),
{
    lemma_held(b, 72, 8, s.generation as int);
    lemma_held(b, 80, 8, s.root as int);
    lemma_held(b, 88, 8, s.chunk_root as int);
    lemma_held(b, 96, 8, s.log_root as int);
    lemma_held(b, 112, 8, s.total_bytes as int);
    lemma_held(b, 120, 8, s.bytes_used as int);
    lemma_held(b, 128, 8, s.root_dir_objectid as int);
    lemma_held(b, 136, 8, s.num_devices as int);
    lemma_held(b, 144, 4, s.sectorsize as int);
    lemma_held(b, 148, 4, s.nodesize as int);
    lemma_held(b, 160, 4, s.sys_chunk_array.len() as int);
    lemma_held(b, 188, 8, s.incompat_flags as int);
    lemma_held(b, 196, 2, s.csum_type as int);
    lemma_held(b, 201, 8, s.devid as int);
    lemma_powers(s.sectorsize as nat);
    lemma_powers(s.nodesize as nat);
    assert(magic() =~= crate::disk::MAGIC@);
    assert(b.skip(32) =~= b.subrange(32, 4096));
    if s.csum_type == 0 {
        lemma_held(b, 0, 4, crc32c_value(0, b.skip(32)) as int);
    }
    let raw = b.subrange(299, 555);
    let n = label.len() as int;
    assert forall|k: int| 0 <= k < n implies #[trigger] raw[k] != 0 by {
        assert(raw[k] == b.subrange(299, 299 + n)[k]);
        assert(label[k] != 0);
    }
    lemma_zero_at(raw, 0, n);
    assert(raw.take(n) =~= label);
}

/// A block of bytes without the magic, with a wrong checksum, or with sizes that no filesystem
/// has, is no superblock.
pub proof fn law_bad_superblocks_are_refused(b: Seq<u8>)
    requires
        b.len() == 4096,
    ensures
        superblock_of(b) matches Ok(s) ==> {
            &&& holds_bytes(b, 64, magic())
            &&& holds(b, 196, 2, 0) ==> holds(b, 0, 4, crc32c_value(0, b.skip(32)) as int)
            &&& is_sector(s.sectorsize as int)
            &&& is_block(s.nodesize as int)
            &&& s.sys_chunk_array.len() <= 2048
        },
{
    if let Ok(s) = superblock_of(b) {
        lemma_powers(s.sectorsize as nat);
        lemma_powers(s.nodesize as nat);
        assert(magic() =~= crate::disk::MAGIC@);
        assert(b.skip(32) =~= b.subrange(32, 4096));
        if holds(b, 196, 2, 0) {
            lemma_held(b, 196, 2, 0);
        }
        law_numbers_are_what_stands_there(b, 0, 4);
    }
}

/// What is where and what is of which type, in the numbers of the format.
pub proof fn law_the_numbers_of_the_format()
    ensures
        crate::disk::SUPER_OFFSET == 65536,
        crate::disk::SUPER_SIZE == 4096,
        crate::disk::FS_TREE_OBJECTID == 5,
        crate::disk::FIRST_FREE_OBJECTID == 256,
        crate::disk::LAST_FREE_OBJECTID == u64::MAX - 256,
        crate::disk::INODE_ITEM_KEY == 1,
        crate::disk::INODE_REF_KEY == 12,
        crate::disk::DIR_ITEM_KEY == 84,
        crate::disk::DIR_INDEX_KEY == 96,
        crate::disk::EXTENT_DATA_KEY == 108,
        crate::disk::ROOT_ITEM_KEY == 132,
        crate::disk::ROOT_BACKREF_KEY == 144,
        crate::disk::ROOT_REF_KEY == 156,
        crate::disk::CHUNK_ITEM_KEY == 228,
        crate::disk::FT_DIR == 2,
        crate::disk::FT_SYMLINK == 7,
        crate::disk::INCOMPAT_REFUSED == 0x2000 + 0x4000,
{
}

} // verus!
