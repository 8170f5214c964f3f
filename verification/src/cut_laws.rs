//! What is cut off is an error: no structure is made up from bytes that are not there.

use vstd::prelude::*;

use crate::disk::{
    chunk_of, dir_entries_from, field, key_field, le, superblock_of, u16_field, u32_field,
    u64_field, u8_field,
};
use crate::error::{ErrorKind, ErrorView};
use crate::lookup::tree_root_of;
use crate::subvol::{backref_of, ref_name, root_info_of};
use crate::tree::{item_of, ptr_of};

verus! {

/// The error for bytes that are not there says how many were wanted, where, and how many there
/// are.
pub open spec fn is_cut<T>(r: Result<T, ErrorView>, b: Seq<u8>, off: int, n: int) -> bool {
    r matches Err(e) && e.kind == (ErrorKind::Truncated {
        len: n as u64,
        off: off as u64,
        have: b.len() as u64,
    })
}

/// A field can be read if and only if all of its bytes are there; it is those bytes.
pub proof fn law_fields_are_all_there(b: Seq<u8>, off: int, n: int)
    requires
        0 <= off <= u64::MAX,
        0 <= n,
    ensures
        off + n <= b.len() ==> field(b, off, n) == Ok::<Seq<u8>, ErrorView>(
            b.subrange(off, off + n),
        ),
        off + n > b.len() ==> is_cut(field(b, off, n), b, off, n),
        off + 1 > b.len() ==> is_cut(u8_field(b, off), b, off, 1),
        off + 2 > b.len() ==> is_cut(u16_field(b, off), b, off, 2),
        off + 4 > b.len() ==> is_cut(u32_field(b, off), b, off, 4),
        off + 8 > b.len() ==> is_cut(u64_field(b, off), b, off, 8),
        off + 17 > b.len() <==> key_field(b, off) is Err,
{
}

/// An item of a leaf can be read if and only if its head and its bytes are in the block; a pointer
/// if and only if it is.
pub proof fn law_items_are_in_their_block(b: Seq<u8>, i: int)
    requires
        0 <= i,
    ensures
        item_of(b, i) is Ok <==> 126 + 25 * i <= b.len() && 101 + le(b, 118 + 25 * i, 4) + le(
            b,
            122 + 25 * i,
            4,
        ) <= b.len(),
        ptr_of(b, i) is Ok <==> 126 + 33 * i <= b.len(),
{
    crate::disk::lemma_le_fits(b, 118 + 25 * i);
    crate::disk::lemma_le_fits(b, 122 + 25 * i);
}

/// Entries are read up to the end: one whose head or name is cut off is an error, wherever it
/// stands.
pub proof fn law_entries_are_all_there(b: Seq<u8>, off: int)
    requires
        0 <= off,
    ensures
        off >= b.len() ==> (dir_entries_from(b, off) matches Ok(s) && s.len() == 0),
        off < b.len() ==> (dir_entries_from(b, off) is Ok <==> {
            &&& off + 30 <= b.len()
            &&& off + 30 + le(b, off + 27, 2) <= b.len()
            &&& dir_entries_from(b, off + 30 + le(b, off + 27, 2) + le(b, off + 25, 2)) is Ok
        }),
{
}

/// A chunk is read if and only if it has stripes and all of them are there.
pub proof fn law_chunks_are_all_there(start: u64, b: Seq<u8>)
    ensures
        chunk_of(start, b) is Ok <==> b.len() >= 46 && le(b, 44, 2) > 0 && b.len() >= 48 + 32 * le(
            b,
            44,
            2,
        ),
{
    if b.len() >= 46 {
        crate::disk::law_a_chunk_is_all_there(start, b);
    }
}

/// Root items and references are read if and only if what they tell is there.
pub proof fn law_root_items_are_all_there(id: u64, d: Seq<u8>)
    ensures
        tree_root_of(d) is Ok <==> d.len() >= 184,
        root_info_of(id, d) is Ok <==> d.len() >= 216,
        backref_of(id, d) is Ok <==> d.len() >= 18 && d.len() >= 18 + le(d, 16, 2),
        ref_name(d) is Ok <==> d.len() >= 10 && d.len() >= 10 + le(d, 8, 2),
{
}

/// A superblock that is not all there is an error.
pub proof fn law_superblocks_are_all_there(b: Seq<u8>)
    ensures
        superblock_of(b) is Ok ==> b.len() >= 555 && b.len() >= 811 + le(b, 160, 4),
        superblock_of(b) is Ok && le(b, 196, 2) == 0 ==> b.len() >= 4096,
        b.len() < 72 ==> superblock_of(b) is Err,
{
    crate::disk::lemma_le_fits(b, 196);
}

} // verus!
