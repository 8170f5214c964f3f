//! The on-disk structures. Everything is little-endian and read by offset, with bounds
//! checks: a corrupt filesystem gives an error.

use vstd::arithmetic::power2::*;
use vstd::prelude::*;
use vstd::slice::*;

use crate::checksum::{crc32c, crc32c_value};
use crate::error::{plain, Error, ErrorKind, ErrorView};
use crate::model::{same, same_view, same_views, views};
use crate::text::{lossy, utf8_lossy};

verus! {

pub const SUPER_OFFSET: u64 = 0x1_0000;

pub const SUPER_SIZE: usize = 4096;

/// `_BHRfS_M`.
pub const MAGIC: [u8; 8] = [0x5f, 0x42, 0x48, 0x52, 0x66, 0x53, 0x5f, 0x4d];

pub const HEADER_SIZE: usize = 101;

pub const KEY_SIZE: usize = 17;

pub const INODE_ITEM_SIZE: usize = 160;

pub const FS_TREE_OBJECTID: u64 = 5;

pub const FIRST_FREE_OBJECTID: u64 = 256;

pub const LAST_FREE_OBJECTID: u64 = 0xffff_ffff_ffff_feff;

pub const INODE_ITEM_KEY: u8 = 1;

pub const INODE_REF_KEY: u8 = 12;

pub const DIR_ITEM_KEY: u8 = 84;

pub const DIR_INDEX_KEY: u8 = 96;

pub const EXTENT_DATA_KEY: u8 = 108;

pub const ROOT_ITEM_KEY: u8 = 132;

pub const ROOT_BACKREF_KEY: u8 = 144;

pub const ROOT_REF_KEY: u8 = 156;

pub const CHUNK_ITEM_KEY: u8 = 228;

pub const FT_DIR: u8 = 2;

pub const FT_SYMLINK: u8 = 7;

pub const BLOCK_GROUP_RAID0: u64 = 0x8;

pub const BLOCK_GROUP_RAID1: u64 = 0x10;

pub const BLOCK_GROUP_DUP: u64 = 0x20;

pub const BLOCK_GROUP_RAID10: u64 = 0x40;

pub const BLOCK_GROUP_RAID5: u64 = 0x80;

pub const BLOCK_GROUP_RAID6: u64 = 0x100;

pub const BLOCK_GROUP_RAID1C3: u64 = 0x200;

pub const BLOCK_GROUP_RAID1C4: u64 = 0x400;

/// Features that change how file data is located (extent-tree-v2, raid-stripe-tree);
/// reading without understanding them would return wrong bytes, so they are refused.
pub const INCOMPAT_REFUSED: u64 = 0x6000;

/// `len` bytes at `off` are not all there.
pub open spec fn short(b: Seq<u8>, off: int, len: int) -> bool {
    off + len > b.len()
}

/// A number that stands in a message, where nothing past 64 bits can.
pub open spec fn shown(n: int) -> u64 {
    if n > u64::MAX {
        u64::MAX
    } else {
        n as u64
    }
}

/// What is said when they are not.
pub open spec fn cut(b: Seq<u8>, off: int, len: int) -> ErrorView {
    plain(ErrorKind::Truncated { len: len as u64, off: shown(off), have: b.len() as u64 })
}

/// `len` bytes at `off`.
pub open spec fn field(b: Seq<u8>, off: int, len: int) -> Result<Seq<u8>, ErrorView> {
    if short(b, off, len) {
        Err(cut(b, off, len))
    } else {
        Ok(b.subrange(off, off + len))
    }
}

/// The little-endian number in the `n` bytes at `off`.
pub open spec fn le(b: Seq<u8>, off: int, n: nat) -> nat
    decreases n,
{
    if n == 0 {
        0
    } else {
        b[off] as nat + 256 * le(b, off + 1, (n - 1) as nat)
    }
}

/// What two, four and eight bytes hold fits the integer of that width.
pub proof fn lemma_le_fits(b: Seq<u8>, off: int)
    ensures
        le(b, off, 2) <= u16::MAX,
        le(b, off, 4) <= u32::MAX,
        le(b, off, 8) <= u64::MAX,
{
    reveal_with_fuel(le, 9);
}

pub open spec fn u8_field(b: Seq<u8>, off: int) -> Result<u8, ErrorView> {
    if short(b, off, 1) {
        Err(cut(b, off, 1))
    } else {
        Ok(b[off])
    }
}

pub open spec fn u16_field(b: Seq<u8>, off: int) -> Result<u16, ErrorView> {
    if short(b, off, 2) {
        Err(cut(b, off, 2))
    } else {
        Ok(le(b, off, 2) as u16)
    }
}

pub open spec fn u32_field(b: Seq<u8>, off: int) -> Result<u32, ErrorView> {
    if short(b, off, 4) {
        Err(cut(b, off, 4))
    } else {
        Ok(le(b, off, 4) as u32)
    }
}

pub open spec fn u64_field(b: Seq<u8>, off: int) -> Result<u64, ErrorView> {
    if short(b, off, 8) {
        Err(cut(b, off, 8))
    } else {
        Ok(le(b, off, 8) as u64)
    }
}

/// `len` bytes at `off`, or an error where they are not all there.
pub fn bytes<'a>(b: &'a [u8], off: usize, len: usize) -> (r: Result<&'a [u8], Error>)
    ensures
        match r {
            Ok(s) => field(b@, off as int, len as int) == Ok::<Seq<u8>, ErrorView>(s@),
            Err(e) => field(b@, off as int, len as int) == Err::<Seq<u8>, ErrorView>(e@),
        },
{
    if off <= b.len() && len <= b.len() - off {
        Ok(slice_subrange(b, off, off + len))
    } else {
        Err(
            Error::plain(
                ErrorKind::Truncated { len: len as u64, off: off as u64, have: b.len() as u64 },
            ),
        )
    }
}

pub fn u8_at(b: &[u8], off: usize) -> (r: Result<u8, Error>)
    ensures
        same(r, u8_field(b@, off as int)),
{
    let s = bytes(b, off, 1)?;
    Ok(s[0])
}

pub fn u16_at(b: &[u8], off: usize) -> (r: Result<u16, Error>)
    ensures
        same(r, u16_field(b@, off as int)),
{
    let s = bytes(b, off, 2)?;
    proof {
        reveal_with_fuel(le, 3);
    }
    Ok(s[0] as u16 + 256 * (s[1] as u16))
}

pub fn u32_at(b: &[u8], off: usize) -> (r: Result<u32, Error>)
    ensures
        same(r, u32_field(b@, off as int)),
{
    let s = bytes(b, off, 4)?;
    proof {
        reveal_with_fuel(le, 5);
    }
    let x3: u32 = s[3] as u32;
    let x2: u32 = s[2] as u32 + 256 * x3;
    let x1: u32 = s[1] as u32 + 256 * x2;
    Ok(s[0] as u32 + 256 * x1)
}

pub fn u64_at(b: &[u8], off: usize) -> (r: Result<u64, Error>)
    ensures
        same(r, u64_field(b@, off as int)),
{
    let s = bytes(b, off, 8)?;
    proof {
        reveal_with_fuel(le, 9);
    }
    let x7: u64 = s[7] as u64;
    let x6: u64 = s[6] as u64 + 256 * x7;
    let x5: u64 = s[5] as u64 + 256 * x6;
    let x4: u64 = s[4] as u64 + 256 * x5;
    let x3: u64 = s[3] as u64 + 256 * x4;
    let x2: u64 = s[2] as u64 + 256 * x3;
    let x1: u64 = s[1] as u64 + 256 * x2;
    Ok(s[0] as u64 + 256 * x1)
}

/// The key under which a tree files an item.
#[derive(Clone, Copy, Debug, PartialEq, Eq, PartialOrd, Ord, Structural)]
pub struct Key {
    pub objectid: u64,
    pub ty: u8,
    pub offset: u64,
}

pub open spec fn key_field(b: Seq<u8>, off: int) -> Result<Key, ErrorView> {
    if short(b, off, 8) {
        Err(cut(b, off, 8))
    } else if short(b, off + 8, 1) {
        Err(cut(b, off + 8, 1))
    } else if short(b, off + 9, 8) {
        Err(cut(b, off + 9, 8))
    } else {
        Ok(
            Key {
                objectid: le(b, off, 8) as u64,
                ty: b[off + 8],
                offset: le(b, off + 9, 8) as u64,
            },
        )
    }
}

impl Key {
    pub fn new(objectid: u64, ty: u8, offset: u64) -> (k: Key)
        ensures
            k == (Key { objectid, ty, offset }),
    {
        Key { objectid, ty, offset }
    }

    /// The key stored at `off`.
    pub fn parse(b: &[u8], off: usize) -> (r: Result<Key, Error>)
        ensures
            same(r, key_field(b@, off as int)),
    {
        assert(b@.len() == b.len());
        let objectid = u64_at(b, off)?;
        let ty = u8_at(b, off + 8)?;
        let offset = u64_at(b, off + 9)?;
        Ok(Key { objectid, ty, offset })
    }

    /// Keys are ordered by object, then by type, then by offset.
    pub open spec fn precedes(self, other: Key) -> bool {
        ||| self.objectid < other.objectid
        ||| self.objectid == other.objectid && self.ty < other.ty
        ||| self.objectid == other.objectid && self.ty == other.ty && self.offset < other.offset
    }

    pub open spec fn at_most(self, other: Key) -> bool {
        self == other || self.precedes(other)
    }

    /// Whether this key comes before `other`.
    pub fn before(&self, other: &Key) -> (r: bool)
        ensures
            r == self.precedes(*other),
    {
        if self.objectid != other.objectid {
            self.objectid < other.objectid
        } else if self.ty != other.ty {
            self.ty < other.ty
        } else {
            self.offset < other.offset
        }
    }
}


/// Whether `n` is a power of two.
pub open spec fn is_power_of_two(n: nat) -> bool {
    exists|k: nat| n == #[trigger] pow2(k)
}

fn power_of_two(n: u32) -> (r: bool)
    ensures
        r == is_power_of_two(n as nat),
{
    if n == 0 {
        proof {
            if is_power_of_two(0) {
                lemma_pow2_pos(choose|k: nat| 0 == #[trigger] pow2(k));
            }
        }
        return false;
    }
    let mut m: u32 = n;
    while m % 2 == 0
        invariant
            m > 0,
            is_power_of_two(n as nat) == is_power_of_two(m as nat),
        decreases m,
    {
        proof {
            let h: nat = (m / 2) as nat;
            if is_power_of_two(m as nat) {
                let k = choose|k: nat| m == #[trigger] pow2(k);
                if k == 0 {
                    lemma2_to64();
                } else {
                    lemma_pow2_unfold(k);
                    assert(h == pow2((k - 1) as nat));
                }
            }
            if is_power_of_two(h) {
                let k = choose|k: nat| h == #[trigger] pow2(k);
                lemma_pow2_unfold(k + 1);
                assert(m == pow2(k + 1));
            }
        }
        m = m / 2;
    }
    proof {
        lemma2_to64();
        if is_power_of_two(m as nat) {
            let k = choose|k: nat| m == #[trigger] pow2(k);
            if k > 0 {
                lemma_pow2_unfold(k);
            }
        } else {
            assert(m != pow2(0));
        }
    }
    m == 1
}

/// What the superblock says of the filesystem.
pub struct Superblock {
    pub fsid: [u8; 16],
    pub generation: u64,
    pub root: u64,
    pub chunk_root: u64,
    pub log_root: u64,
    pub total_bytes: u64,
    pub bytes_used: u64,
    pub root_dir_objectid: u64,
    pub num_devices: u64,
    pub sectorsize: u32,
    pub nodesize: u32,
    pub incompat_flags: u64,
    pub csum_type: u16,
    pub devid: u64,
    pub label: String,
    pub sys_chunk_array: Vec<u8>,
}

#[verifier::ext_equal]
pub struct SuperblockView {
    pub fsid: Seq<u8>,
    pub generation: u64,
    pub root: u64,
    pub chunk_root: u64,
    pub log_root: u64,
    pub total_bytes: u64,
    pub bytes_used: u64,
    pub root_dir_objectid: u64,
    pub num_devices: u64,
    pub sectorsize: u32,
    pub nodesize: u32,
    pub incompat_flags: u64,
    pub csum_type: u16,
    pub devid: u64,
    pub label: Seq<char>,
    pub sys_chunk_array: Seq<u8>,
}

impl View for Superblock {
    type V = SuperblockView;

    open spec fn view(&self) -> SuperblockView {
        SuperblockView {
            fsid: self.fsid@,
            generation: self.generation,
            root: self.root,
            chunk_root: self.chunk_root,
            log_root: self.log_root,
            total_bytes: self.total_bytes,
            bytes_used: self.bytes_used,
            root_dir_objectid: self.root_dir_objectid,
            num_devices: self.num_devices,
            sectorsize: self.sectorsize,
            nodesize: self.nodesize,
            incompat_flags: self.incompat_flags,
            csum_type: self.csum_type,
            devid: self.devid,
            label: self.label@,
            sys_chunk_array: self.sys_chunk_array@,
        }
    }
}

/// Where the first zero byte at or after `i` is; the length where there is none.
pub open spec fn zero_at(s: Seq<u8>, i: int) -> int
    decreases s.len() - i,
{
    if i >= s.len() {
        s.len() as int
    } else if s[i] == 0 {
        i
    } else {
        zero_at(s, i + 1)
    }
}

/// The label: 256 bytes, of which those before the first zero count.
pub open spec fn label_of(b: Seq<u8>) -> Seq<char> {
    let raw = b.subrange(0x12b, 0x22b);
    utf8_lossy(raw.take(zero_at(raw, 0)))
}

/// The fields of a superblock whose bytes are all there.
pub open spec fn superblock_fields(b: Seq<u8>) -> SuperblockView {
    SuperblockView {
        fsid: b.subrange(0x20, 0x30),
        generation: le(b, 0x48, 8) as u64,
        root: le(b, 0x50, 8) as u64,
        chunk_root: le(b, 0x58, 8) as u64,
        log_root: le(b, 0x60, 8) as u64,
        total_bytes: le(b, 0x70, 8) as u64,
        bytes_used: le(b, 0x78, 8) as u64,
        root_dir_objectid: le(b, 0x80, 8) as u64,
        num_devices: le(b, 0x88, 8) as u64,
        sectorsize: le(b, 0x90, 4) as u32,
        nodesize: le(b, 0x94, 4) as u32,
        incompat_flags: le(b, 0xbc, 8) as u64,
        csum_type: le(b, 0xc4, 2) as u16,
        devid: le(b, 0xc9, 8) as u64,
        label: label_of(b),
        sys_chunk_array: b.subrange(0x32b, 0x32b + le(b, 0xa0, 4) as int),
    }
}

/// The superblock in `b`, or the first thing wrong with it.
pub open spec fn superblock_of(b: Seq<u8>) -> Result<SuperblockView, ErrorView> {
    let sb = superblock_fields(b);
    let sys_len = le(b, 0xa0, 4) as int;
    if short(b, 0x40, 8) {
        Err(cut(b, 0x40, 8))
    } else if b.subrange(0x40, 0x48) != MAGIC@ {
        Err(plain(ErrorKind::NoMagic))
    } else if short(b, 0xc4, 2) {
        Err(cut(b, 0xc4, 2))
    } else if sb.csum_type == 0 && short(b, 32, 4064) {
        Err(cut(b, 32, 4064))
    } else if sb.csum_type == 0 && le(b, 0, 4) != crc32c_value(0, b.subrange(32, 4096)) {
        Err(plain(ErrorKind::SuperChecksum))
    } else if sys_len > 2048 {
        Err(plain(ErrorKind::SysArraySize { size: sys_len as u64 }))
    } else if short(b, 0x12b, 256) {
        Err(cut(b, 0x12b, 256))
    } else if short(b, 0x32b, sys_len) {
        Err(cut(b, 0x32b, sys_len))
    } else if !(is_power_of_two(sb.sectorsize as nat) && 512 <= sb.sectorsize <= 65536) {
        Err(plain(ErrorKind::SectorSize { size: sb.sectorsize as u64 }))
    } else if !(is_power_of_two(sb.nodesize as nat) && 4096 <= sb.nodesize <= 65536) {
        Err(plain(ErrorKind::NodeSize { size: sb.nodesize as u64 }))
    } else {
        Ok(sb)
    }
}

/// The name of a checksum type.
pub open spec fn csum_label(csum_type: u16) -> Seq<char> {
    if csum_type == 0 {
        "crc32c"@
    } else if csum_type == 1 {
        "xxhash64"@
    } else if csum_type == 2 {
        "sha256"@
    } else if csum_type == 3 {
        "blake2b"@
    } else {
        "unknown"@
    }
}

/// Whether the eight bytes of `s` are the magic.
fn is_magic(s: &[u8]) -> (r: bool)
    requires
        s@.len() == 8,
    ensures
        r == (s@ == MAGIC@),
{
    let magic = MAGIC;
    let mut i: usize = 0;
    while i < 8
        invariant
            i <= 8,
            s@.len() == 8,
            magic == MAGIC,
            forall|j: int| 0 <= j < i ==> s@[j] == magic@[j],
        decreases 8 - i,
    {
        if s[i] != magic[i] {
            return false;
        }
        i += 1;
    }
    assert(s@ =~= MAGIC@);
    true
}

impl Superblock {
    /// Reads the superblock in `b`.
    pub fn parse(b: &[u8]) -> (r: Result<Superblock, Error>)
        ensures
            same_view(r, superblock_of(b@)),
    {
        assert(b@.len() == b.len());
        if !is_magic(bytes(b, 0x40, 8)?) {
            return Err(Error::plain(ErrorKind::NoMagic));
        }
        let csum_type = u16_at(b, 0xc4)?;
        if csum_type == 0 {
            let want = u32_at(b, 0)?;
            let got = crc32c(bytes(b, 32, SUPER_SIZE - 32)?);
            if want != got {
                return Err(Error::plain(ErrorKind::SuperChecksum));
            }
        }
        let sys_len: usize = u32_at(b, 0xa0)? as usize;
        proof {
            lemma_le_fits(b@, 0xa0);
            lemma_le_fits(b@, 0);
        }
        if sys_len > 2048 {
            return Err(Error::plain(ErrorKind::SysArraySize { size: sys_len as u64 }));
        }
        let label_raw = bytes(b, 0x12b, 256)?;
        let mut end: usize = 0;
        while end < 256 && label_raw[end] != 0
            invariant
                end <= 256,
                label_raw@.len() == 256,
                zero_at(label_raw@, 0) == zero_at(label_raw@, end as int),
            decreases 256 - end,
        {
            end += 1;
        }
        let f = bytes(b, 0x20, 16)?;
        let fsid: [u8; 16] = [
            f[0],
            f[1],
            f[2],
            f[3],
            f[4],
            f[5],
            f[6],
            f[7],
            f[8],
            f[9],
            f[10],
            f[11],
            f[12],
            f[13],
            f[14],
            f[15],
        ];
        assert(fsid@ =~= b@.subrange(0x20, 0x30));
        let label = lossy(slice_subrange(label_raw, 0, end));
        assert(label_raw@.subrange(0, end as int) =~= label_raw@.take(end as int));
        let sb = Superblock {
            fsid,
            generation: u64_at(b, 0x48)?,
            root: u64_at(b, 0x50)?,
            chunk_root: u64_at(b, 0x58)?,
            log_root: u64_at(b, 0x60)?,
            total_bytes: u64_at(b, 0x70)?,
            bytes_used: u64_at(b, 0x78)?,
            root_dir_objectid: u64_at(b, 0x80)?,
            num_devices: u64_at(b, 0x88)?,
            sectorsize: u32_at(b, 0x90)?,
            nodesize: u32_at(b, 0x94)?,
            incompat_flags: u64_at(b, 0xbc)?,
            csum_type,
            devid: u64_at(b, 0xc9)?,
            label,
            sys_chunk_array: slice_to_vec(bytes(b, 0x32b, sys_len)?),
        };
        if !power_of_two(sb.sectorsize) || sb.sectorsize < 512 || sb.sectorsize > 65536 {
            return Err(Error::plain(ErrorKind::SectorSize { size: sb.sectorsize as u64 }));
        }
        if !power_of_two(sb.nodesize) || sb.nodesize < 4096 || sb.nodesize > 65536 {
            return Err(Error::plain(ErrorKind::NodeSize { size: sb.nodesize as u64 }));
        }
        Ok(sb)
    }

    pub fn csum_name(&self) -> (s: &'static str)
        ensures
            s@ == csum_label(self.csum_type),
    {
        match self.csum_type {
            0 => "crc32c",
            1 => "xxhash64",
            2 => "sha256",
            3 => "blake2b",
            _ => "unknown",
        }
    }
}


/// A range of logical addresses and the stripes that hold it.
pub struct Chunk {
    pub start: u64,
    pub length: u64,
    pub ty: u64,
    /// (devid, physical offset)
    pub stripes: Vec<(u64, u64)>,
}

#[verifier::ext_equal]
pub struct ChunkView {
    pub start: u64,
    pub length: u64,
    pub ty: u64,
    pub stripes: Seq<(u64, u64)>,
}

impl View for Chunk {
    type V = ChunkView;

    open spec fn view(&self) -> ChunkView {
        ChunkView {
            start: self.start,
            length: self.length,
            ty: self.ty,
            stripes: self.stripes@,
        }
    }
}

/// The stripes `i` to `n` of a chunk item, each of which takes 32 bytes.
pub open spec fn stripes_from(b: Seq<u8>, i: int, n: int) -> Result<Seq<(u64, u64)>, ErrorView>
    decreases n - i,
{
    if i >= n {
        Ok(seq![])
    } else if short(b, 48 + i * 32, 32) {
        Err(cut(b, 48 + i * 32, 32))
    } else {
        let head = (le(b, 48 + i * 32, 8) as u64, le(b, 56 + i * 32, 8) as u64);
        match stripes_from(b, i + 1, n) {
            Ok(rest) => Ok(seq![head] + rest),
            Err(e) => Err(e),
        }
    }
}

/// The chunk item in `b`, and how many bytes it takes.
pub open spec fn chunk_of(start: u64, b: Seq<u8>) -> Result<(ChunkView, int), ErrorView> {
    let n = le(b, 44, 2) as int;
    if short(b, 44, 2) {
        Err(cut(b, 44, 2))
    } else if n == 0 {
        Err(plain(ErrorKind::ZeroStripes { start }))
    } else {
        match stripes_from(b, 0, n) {
            Ok(stripes) => Ok(
                (
                    ChunkView {
                        start,
                        length: le(b, 0, 8) as u64,
                        ty: le(b, 24, 8) as u64,
                        stripes,
                    },
                    48 + n * 32,
                ),
            ),
            Err(e) => Err(e),
        }
    }
}

/// The name of a chunk type's redundancy profile.
pub open spec fn profile_label(ty: u64) -> Seq<char> {
    if ty & BLOCK_GROUP_RAID0 != 0 {
        "raid0"@
    } else if ty & BLOCK_GROUP_RAID1 != 0 {
        "raid1"@
    } else if ty & BLOCK_GROUP_DUP != 0 {
        "dup"@
    } else if ty & BLOCK_GROUP_RAID10 != 0 {
        "raid10"@
    } else if ty & BLOCK_GROUP_RAID5 != 0 {
        "raid5"@
    } else if ty & BLOCK_GROUP_RAID6 != 0 {
        "raid6"@
    } else if ty & BLOCK_GROUP_RAID1C3 != 0 {
        "raid1c3"@
    } else if ty & BLOCK_GROUP_RAID1C4 != 0 {
        "raid1c4"@
    } else {
        "single"@
    }
}

/// The name of what a chunk type holds.
pub open spec fn kind_label(ty: u64) -> Seq<char> {
    if ty & 7 == 1 {
        "data"@
    } else if ty & 7 == 2 {
        "system"@
    } else if ty & 7 == 4 {
        "metadata"@
    } else if ty & 7 == 5 {
        "data+metadata"@
    } else {
        "mixed"@
    }
}

impl Chunk {
    /// Parses a chunk item; returns it with the number of bytes it occupied.
    pub fn parse(start: u64, b: &[u8]) -> (r: Result<(Chunk, usize), Error>)
        ensures
            match r {
                Ok((c, used)) => chunk_of(start, b@) == Ok::<(ChunkView, int), ErrorView>(
                    (c@, used as int),
                ),
                Err(e) => chunk_of(start, b@) == Err::<(ChunkView, int), ErrorView>(e@),
            },
    {
        assert(b@.len() == b.len());
        let num_stripes: usize = u16_at(b, 44)? as usize;
        proof {
            lemma_le_fits(b@, 44);
        }
        if num_stripes == 0 {
            return Err(Error::plain(ErrorKind::ZeroStripes { start }));
        }
        let mut stripes: Vec<(u64, u64)> = Vec::with_capacity(num_stripes);
        let mut i: usize = 0;
        while i < num_stripes
            invariant
                i <= num_stripes <= 65535,
                b@.len() >= 46,
                num_stripes == le(b@, 44, 2),
                num_stripes != 0,
                match stripes_from(b@, i as int, num_stripes as int) {
                    Ok(rest) => stripes_from(b@, 0, num_stripes as int) == Ok::<
                        Seq<(u64, u64)>,
                        ErrorView,
                    >(stripes@ + rest),
                    Err(e) => stripes_from(b@, 0, num_stripes as int) == Err::<
                        Seq<(u64, u64)>,
                        ErrorView,
                    >(e),
                },
            decreases num_stripes - i,
        {
            let o: usize = 48 + i * 32;
            bytes(b, o, 32)?;
            let devid = u64_at(b, o)?;
            let phys = u64_at(b, o + 8)?;
            let ghost done = stripes@;
            stripes.push((devid, phys));
            i += 1;
            proof {
                if let Ok(rest) = stripes_from(b@, i as int, num_stripes as int) {
                    assert(done + (seq![(devid, phys)] + rest) =~= stripes@ + rest);
                }
            }
        }
        assert(stripes@ + seq![] =~= stripes@);
        let chunk = Chunk { start, length: u64_at(b, 0)?, ty: u64_at(b, 24)?, stripes };
        Ok((chunk, 48 + num_stripes * 32))
    }

    pub fn profile(&self) -> (s: &'static str)
        ensures
            s@ == profile_label(self.ty),
    {
        let t: u64 = self.ty;
        if t & BLOCK_GROUP_RAID0 != 0 {
            "raid0"
        } else if t & BLOCK_GROUP_RAID1 != 0 {
            "raid1"
        } else if t & BLOCK_GROUP_DUP != 0 {
            "dup"
        } else if t & BLOCK_GROUP_RAID10 != 0 {
            "raid10"
        } else if t & BLOCK_GROUP_RAID5 != 0 {
            "raid5"
        } else if t & BLOCK_GROUP_RAID6 != 0 {
            "raid6"
        } else if t & BLOCK_GROUP_RAID1C3 != 0 {
            "raid1c3"
        } else if t & BLOCK_GROUP_RAID1C4 != 0 {
            "raid1c4"
        } else {
            "single"
        }
    }

    pub fn kind(&self) -> (s: &'static str)
        ensures
            s@ == kind_label(self.ty),
    {
        match self.ty & 7 {
            1 => "data",
            2 => "system",
            4 => "metadata",
            5 => "data+metadata",
            _ => "mixed",
        }
    }
}

/// What an inode item says of a file.
#[derive(Clone, Copy, Debug, PartialEq, Eq, Structural)]
pub struct Inode {
    pub size: u64,
    pub nlink: u32,
    pub uid: u32,
    pub gid: u32,
    pub mode: u32,
    pub mtime_sec: i64,
    pub mtime_nsec: u32,
}

/// A 64-bit pattern read as a two's complement number.
pub open spec fn signed(v: nat) -> int {
    if v < 0x8000_0000_0000_0000 {
        v as int
    } else {
        v - 0x1_0000_0000_0000_0000
    }
}

/// The inode item in `b`.
pub open spec fn inode_of(b: Seq<u8>) -> Result<Inode, ErrorView> {
    if short(b, 0, 160) {
        Err(cut(b, 0, 160))
    } else {
        Ok(
            Inode {
                size: le(b, 16, 8) as u64,
                nlink: le(b, 40, 4) as u32,
                uid: le(b, 44, 4) as u32,
                gid: le(b, 48, 4) as u32,
                mode: le(b, 52, 4) as u32,
                mtime_sec: signed(le(b, 136, 8)) as i64,
                mtime_nsec: le(b, 144, 4) as u32,
            },
        )
    }
}

/// The bits of a mode that give the type of the file.
pub open spec fn type_bits(mode: u32) -> u32 {
    mode & 0xf000
}

pub open spec fn mode_is_dir(mode: u32) -> bool {
    type_bits(mode) == 0x4000
}

pub open spec fn mode_is_file(mode: u32) -> bool {
    type_bits(mode) == 0x8000
}

pub open spec fn mode_is_symlink(mode: u32) -> bool {
    type_bits(mode) == 0xa000
}

/// The name of the type of file that a mode gives.
pub open spec fn type_label(mode: u32) -> Seq<char> {
    if type_bits(mode) == 0x4000 {
        "dir"@
    } else if type_bits(mode) == 0x8000 {
        "file"@
    } else if type_bits(mode) == 0xa000 {
        "symlink"@
    } else if type_bits(mode) == 0x2000 {
        "chardev"@
    } else if type_bits(mode) == 0x6000 {
        "blockdev"@
    } else if type_bits(mode) == 0x1000 {
        "fifo"@
    } else if type_bits(mode) == 0xc000 {
        "socket"@
    } else {
        "unknown"@
    }
}

impl Inode {
    pub fn parse(b: &[u8]) -> (r: Result<Inode, Error>)
        ensures
            same(r, inode_of(b@)),
    {
        bytes(b, 0, INODE_ITEM_SIZE)?;
        let m: u64 = u64_at(b, 136)?;
        proof {
            lemma_le_fits(b@, 136);
            assert(m < 0x8000_0000_0000_0000 ==> (m as i64) == m) by (bit_vector);
            assert(m >= 0x8000_0000_0000_0000 ==> (m as i64) == m - 0x1_0000_0000_0000_0000)
                by (bit_vector);
        }
        Ok(
            Inode {
                size: u64_at(b, 16)?,
                nlink: u32_at(b, 40)?,
                uid: u32_at(b, 44)?,
                gid: u32_at(b, 48)?,
                mode: u32_at(b, 52)?,
                mtime_sec: m as i64,
                mtime_nsec: u32_at(b, 144)?,
            },
        )
    }

    pub fn is_dir(&self) -> (r: bool)
        ensures
            r == mode_is_dir(self.mode),
    {
        self.mode & 0xf000 == 0x4000
    }

    pub fn is_file(&self) -> (r: bool)
        ensures
            r == mode_is_file(self.mode),
    {
        self.mode & 0xf000 == 0x8000
    }

    pub fn is_symlink(&self) -> (r: bool)
        ensures
            r == mode_is_symlink(self.mode),
    {
        self.mode & 0xf000 == 0xa000
    }

    pub fn file_type(&self) -> (s: &'static str)
        ensures
            s@ == type_label(self.mode),
    {
        match self.mode & 0xf000 {
            0x4000 => "dir",
            0x8000 => "file",
            0xa000 => "symlink",
            0x2000 => "chardev",
            0x6000 => "blockdev",
            0x1000 => "fifo",
            0xc000 => "socket",
            _ => "unknown",
        }
    }
}

/// A name in a directory and what it leads to.
pub struct DirEntry {
    pub name: Vec<u8>,
    pub location: Key,
    pub ftype: u8,
}

#[verifier::ext_equal]
pub struct DirEntryView {
    pub name: Seq<u8>,
    pub location: Key,
    pub ftype: u8,
}

impl View for DirEntry {
    type V = DirEntryView;

    open spec fn view(&self) -> DirEntryView {
        DirEntryView { name: self.name@, location: self.location, ftype: self.ftype }
    }
}

/// The entry at `off`.
pub open spec fn dir_entry_at(b: Seq<u8>, off: int) -> Result<DirEntryView, ErrorView> {
    match key_field(b, off) {
        Err(e) => Err(e),
        Ok(location) => {
            let name_len = le(b, off + 27, 2) as int;
            if short(b, off + 25, 2) {
                Err(cut(b, off + 25, 2))
            } else if short(b, off + 27, 2) {
                Err(cut(b, off + 27, 2))
            } else if short(b, off + 29, 1) {
                Err(cut(b, off + 29, 1))
            } else if short(b, off + 30, name_len) {
                Err(cut(b, off + 30, name_len))
            } else {
                Ok(
                    DirEntryView {
                        name: b.subrange(off + 30, off + 30 + name_len),
                        location,
                        ftype: b[off + 29],
                    },
                )
            }
        },
    }
}

/// How many bytes the entry at `off` takes: its header, its name, its data.
pub open spec fn dir_entry_size(b: Seq<u8>, off: int) -> int {
    (30 + le(b, off + 27, 2) + le(b, off + 25, 2)) as int
}

/// The entries from `off` on, one after another.
pub open spec fn dir_entries_from(b: Seq<u8>, off: int) -> Result<Seq<DirEntryView>, ErrorView>
    decreases
            if off < b.len() {
                b.len() - off
            } else {
                0
            },
{
    if off >= b.len() {
        Ok(seq![])
    } else {
        match dir_entry_at(b, off) {
            Err(e) => Err(e),
            Ok(entry) => match dir_entries_from(b, off + dir_entry_size(b, off)) {
                Ok(rest) => Ok(seq![entry] + rest),
                Err(e) => Err(e),
            },
        }
    }
}

/// The entries of a directory item.
pub open spec fn dir_entries_of(b: Seq<u8>) -> Result<Seq<DirEntryView>, ErrorView> {
    dir_entries_from(b, 0)
}

/// A DIR_ITEM holds one entry per name that hashes to its key; a DIR_INDEX holds one.
pub fn parse_dir_entries(b: &[u8]) -> (r: Result<Vec<DirEntry>, Error>)
    ensures
        same_views(r, dir_entries_of(b@)),
{
    let mut out: Vec<DirEntry> = Vec::new();
    let mut off: usize = 0;
    let n: usize = b.len();
    assert(views(out@) =~= seq![]);
    proof {
        if let Ok(rest) = dir_entries_of(b@) {
            assert(views(out@) + rest =~= rest);
        }
    }
    while off < n
        invariant
            n == b@.len(),
            match dir_entries_from(b@, off as int) {
                Ok(rest) => dir_entries_of(b@) == Ok::<Seq<DirEntryView>, ErrorView>(
                    views(out@) + rest,
                ),
                Err(e) => dir_entries_of(b@) == Err::<Seq<DirEntryView>, ErrorView>(e),
            },
        decreases n - off,
    {
        proof {
            lemma_le_fits(b@, off + 25);
            lemma_le_fits(b@, off + 27);
        }
        let location = Key::parse(b, off)?;
        if n - off < 27 {
            let at: u64 = (off as u64).saturating_add(25);
            return Err(Error::plain(ErrorKind::Truncated { len: 2, off: at, have: n as u64 }));
        }
        let data_len: usize = u16_at(b, off + 25)? as usize;
        let name_len: usize = u16_at(b, off + 27)? as usize;
        let ftype = u8_at(b, off + 29)?;
        let name = slice_to_vec(bytes(b, off + 30, name_len)?);
        let ghost done = views(out@);
        let ghost entry = DirEntryView { name: name@, location, ftype };
        let ghost next = off + dir_entry_size(b@, off as int);
        assert(dir_entry_at(b@, off as int) == Ok::<DirEntryView, ErrorView>(entry));
        out.push(DirEntry { name, location, ftype });
        assert(views(out@) =~= done.push(entry));
        proof {
            if let Ok(rest) = dir_entries_from(b@, next) {
                assert(done + (seq![entry] + rest) =~= views(out@) + rest);
            }
        }
        let size: usize = 30 + name_len;
        if data_len < n - off - size {
            off = off + size + data_len;
        } else {
            off = n;
            assert(dir_entries_from(b@, next) == dir_entries_from(b@, n as int));
        }
    }
    assert(views(out@) + seq![] =~= views(out@));
    Ok(out)
}

/// Where the bytes of an extent are.
pub enum ExtentKind {
    Inline(Vec<u8>),
    /// A real extent; `disk_bytenr == 0` is a hole.
    Regular { disk_bytenr: u64, disk_num_bytes: u64, offset: u64 },
    Prealloc,
}

#[verifier::ext_equal]
pub enum ExtentKindView {
    Inline(Seq<u8>),
    Regular { disk_bytenr: u64, disk_num_bytes: u64, offset: u64 },
    Prealloc,
}

impl View for ExtentKind {
    type V = ExtentKindView;

    open spec fn view(&self) -> ExtentKindView {
        match self {
            ExtentKind::Inline(v) => ExtentKindView::Inline(v@),
            ExtentKind::Regular { disk_bytenr, disk_num_bytes, offset } => ExtentKindView::Regular {
                disk_bytenr: *disk_bytenr,
                disk_num_bytes: *disk_num_bytes,
                offset: *offset,
            },
            ExtentKind::Prealloc => ExtentKindView::Prealloc,
        }
    }
}

/// A run of a file's bytes.
pub struct Extent {
    pub file_off: u64,
    /// Bytes this extent contributes to the file.
    pub len: u64,
    pub ram_bytes: u64,
    pub compression: u8,
    pub kind: ExtentKind,
}

#[verifier::ext_equal]
pub struct ExtentView {
    pub file_off: u64,
    pub len: u64,
    pub ram_bytes: u64,
    pub compression: u8,
    pub kind: ExtentKindView,
}

impl View for Extent {
    type V = ExtentView;

    open spec fn view(&self) -> ExtentView {
        ExtentView {
            file_off: self.file_off,
            len: self.len,
            ram_bytes: self.ram_bytes,
            compression: self.compression,
            kind: self.kind@,
        }
    }
}

/// The extent item in `b`.
pub open spec fn extent_of(file_off: u64, b: Seq<u8>) -> Result<ExtentView, ErrorView> {
    let ram_bytes = le(b, 8, 8) as u64;
    let compression = b[16];
    let num_bytes = le(b, 45, 8) as u64;
    if short(b, 8, 8) {
        Err(cut(b, 8, 8))
    } else if short(b, 16, 1) {
        Err(cut(b, 16, 1))
    } else if short(b, 17, 1) {
        Err(cut(b, 17, 1))
    } else if b[17] != 0 {
        Err(plain(ErrorKind::Encrypted))
    } else if short(b, 20, 1) {
        Err(cut(b, 20, 1))
    } else if b[20] == 0 {
        Ok(
            ExtentView {
                file_off,
                len: ram_bytes,
                ram_bytes,
                compression,
                kind: ExtentKindView::Inline(b.skip(21)),
            },
        )
    } else if b[20] != 1 && b[20] != 2 {
        Err(plain(ErrorKind::ExtentType { ty: b[20] as u64 }))
    } else if short(b, 45, 8) {
        Err(cut(b, 45, 8))
    } else {
        Ok(
            ExtentView {
                file_off,
                len: num_bytes,
                ram_bytes,
                compression,
                kind: if b[20] == 2 {
                    ExtentKindView::Prealloc
                } else {
                    ExtentKindView::Regular {
                        disk_bytenr: le(b, 21, 8) as u64,
                        disk_num_bytes: le(b, 29, 8) as u64,
                        offset: le(b, 37, 8) as u64,
                    }
                },
            },
        )
    }
}

/// The name of a compression type.
pub open spec fn compression_label(compression: u8) -> Seq<char> {
    if compression == 0 {
        "none"@
    } else if compression == 1 {
        "zlib"@
    } else if compression == 2 {
        "lzo"@
    } else if compression == 3 {
        "zstd"@
    } else {
        "unknown"@
    }
}

impl Extent {
    pub fn parse(file_off: u64, b: &[u8]) -> (r: Result<Extent, Error>)
        ensures
            same_view(r, extent_of(file_off, b@)),
    {
        let ram_bytes = u64_at(b, 8)?;
        let compression = u8_at(b, 16)?;
        if u8_at(b, 17)? != 0 {
            return Err(Error::plain(ErrorKind::Encrypted));
        }
        let t: u8 = u8_at(b, 20)?;
        if t == 0 {
            let data = slice_to_vec(bytes(b, 21, b.len() - 21)?);
            assert(data@ =~= b@.skip(21));
            return Ok(
                Extent {
                    file_off,
                    len: ram_bytes,
                    ram_bytes,
                    compression,
                    kind: ExtentKind::Inline(data),
                },
            );
        }
        if t != 1 && t != 2 {
            return Err(Error::plain(ErrorKind::ExtentType { ty: t as u64 }));
        }
        let num_bytes = u64_at(b, 45)?;
        let kind = if t == 2 {
            ExtentKind::Prealloc
        } else {
            ExtentKind::Regular {
                disk_bytenr: u64_at(b, 21)?,
                disk_num_bytes: u64_at(b, 29)?,
                offset: u64_at(b, 37)?,
            }
        };
        Ok(Extent { file_off, len: num_bytes, ram_bytes, compression, kind })
    }

    pub fn compression_name(&self) -> (s: &'static str)
        ensures
            s@ == compression_label(self.compression),
    {
        match self.compression {
            0 => "none",
            1 => "zlib",
            2 => "lzo",
            3 => "zstd",
            _ => "unknown",
        }
    }
}

proof fn lemma_stripes(b: Seq<u8>, i: int, n: int)
    requires
        0 <= i <= n,
    ensures
        stripes_from(b, i, n) is Ok <==> i == n || b.len() >= 48 + 32 * n,
        stripes_from(b, i, n) matches Ok(s) ==> s.len() == n - i && forall|k: int|
            0 <= k < s.len() ==> #[trigger] s[k] == (
                le(b, 48 + (i + k) * 32, 8) as u64,
                le(b, 56 + (i + k) * 32, 8) as u64,
            ),
    decreases n - i,
{
    if i < n {
        lemma_stripes(b, i + 1, n);
        if let Ok(s) = stripes_from(b, i, n) {
            let rest = stripes_from(b, i + 1, n)->Ok_0;
            assert forall|k: int| 0 <= k < s.len() implies #[trigger] s[k] == (
                le(b, 48 + (i + k) * 32, 8) as u64,
                le(b, 56 + (i + k) * 32, 8) as u64,
            ) by {
                if k > 0 {
                    assert(s[k] == rest[k - 1]);
                }
            }
        }
    }
}

/// A chunk item is accepted if and only if it has stripes and all of them are there; the size
/// returned is that of what it takes, which never goes past the end, and each stripe is the
/// one in its place.
pub proof fn law_a_chunk_is_all_there(start: u64, b: Seq<u8>)
    requires
        b.len() >= 46,
    ensures
        ({
            let n = le(b, 44, 2);
            &&& chunk_of(start, b) is Ok <==> n > 0 && b.len() >= 48 + 32 * n
            &&& chunk_of(start, b) matches Ok((c, used)) ==> {
                &&& used == 48 + 32 * n
                &&& used <= b.len()
                &&& c.start == start
                &&& c.length == le(b, 0, 8)
                &&& c.ty == le(b, 24, 8)
                &&& c.stripes.len() == n
                &&& forall|i: int|
                    0 <= i < n ==> #[trigger] c.stripes[i] == (
                        le(b, 48 + i * 32, 8) as u64,
                        le(b, 56 + i * 32, 8) as u64,
                    )
            }
        }),
{
    lemma_stripes(b, 0, le(b, 44, 2) as int);
    lemma_le_fits(b, 0);
    lemma_le_fits(b, 24);
}

/// Entries that take up all of `x`, to its last byte.
pub open spec fn is_whole(x: Seq<u8>, off: int) -> bool
    decreases
            if off < x.len() {
                x.len() - off
            } else {
                0
            },
{
    if off >= x.len() {
        off == x.len()
    } else {
        is_whole(x, off + dir_entry_size(x, off))
    }
}

/// The same bytes are the same number.
proof fn lemma_le_same(a: Seq<u8>, i: int, b: Seq<u8>, j: int, n: nat)
    requires
        forall|k: int| 0 <= k < n ==> #[trigger] a[i + k] == b[j + k],
    ensures
        le(a, i, n) == le(b, j, n),
    decreases n,
{
    if n > 0 {
        assert(a[i + 0] == b[j + 0]);
        assert forall|k: int| 0 <= k < n - 1 implies #[trigger] a[i + 1 + k] == b[j + 1 + k] by {
            let next = k + 1;
            assert(a[i + next] == b[j + next]);
        }
        lemma_le_same(a, i + 1, b, j + 1, (n - 1) as nat);
    }
}

/// An entry depends on its own bytes alone: where those from `i` of `a` are those from `j` of
/// `b`, as far as `a` or `b` goes, it is the same.
proof fn lemma_entry_same(a: Seq<u8>, i: int, b: Seq<u8>, j: int, len: int)
    requires
        0 <= i <= i + len <= a.len(),
        0 <= j <= j + len <= b.len(),
        forall|k: int| 0 <= k < len ==> #[trigger] a[i + k] == b[j + k],
        a.len() == i + len || dir_entry_at(b, j) is Ok && dir_entry_size(b, j) <= len,
        b.len() == j + len || dir_entry_at(a, i) is Ok && dir_entry_size(a, i) <= len,
        a.len() == i + len || b.len() == j + len,
    ensures
        dir_entry_at(a, i) is Ok <==> dir_entry_at(b, j) is Ok,
        dir_entry_at(a, i) is Ok ==> dir_entry_at(a, i) == dir_entry_at(b, j)
            && dir_entry_size(a, i) == dir_entry_size(b, j),
{
    if len >= 30 {
        lemma_le_part(a, i, b, j, len, 0, 8);
        lemma_le_part(a, i, b, j, len, 9, 8);
        lemma_le_part(a, i, b, j, len, 25, 2);
        lemma_le_part(a, i, b, j, len, 27, 2);
        assert(a[i + 8] == b[j + 8]);
        assert(a[i + 29] == b[j + 29]);
        let n = le(a, i + 27, 2) as int;
        if 30 + n <= len {
            assert(a.subrange(i + 30, i + 30 + n) =~= b.subrange(j + 30, j + 30 + n)) by {
                assert forall|k: int| 0 <= k < n implies #[trigger] a.subrange(
                    i + 30,
                    i + 30 + n,
                )[k] == b.subrange(j + 30, j + 30 + n)[k] by {
                    let m = 30 + k;
                    assert(a[i + m] == b[j + m]);
                }
            }
        }
    }
}

proof fn lemma_le_part(a: Seq<u8>, i: int, b: Seq<u8>, j: int, len: int, at: int, n: nat)
    requires
        forall|k: int| 0 <= k < len ==> #[trigger] a[i + k] == b[j + k],
        0 <= at,
        at + n <= len,
    ensures
        le(a, i + at, n) == le(b, j + at, n),
{
    assert forall|k: int| 0 <= k < n implies #[trigger] a[i + at + k] == b[j + at + k] by {
        let m = at + k;
        assert(a[i + m] == b[j + m]);
    }
    lemma_le_same(a, i + at, b, j + at, n);
}

/// What comes after `x` is parsed as if it stood alone.
proof fn lemma_entries_after(x: Seq<u8>, y: Seq<u8>, off: int)
    requires
        0 <= off,
    ensures
        dir_entries_from(x + y, x.len() + off) is Ok <==> dir_entries_from(y, off) is Ok,
        dir_entries_from(y, off) is Ok ==> dir_entries_from(x + y, x.len() + off)
            == dir_entries_from(y, off),
    decreases
            if off < y.len() {
                y.len() - off
            } else {
                0
            },
{
    if off < y.len() {
        lemma_entry_same(x + y, x.len() + off, y, off, y.len() - off);
        if dir_entry_at(y, off) is Ok {
            lemma_entries_after(x, y, off + dir_entry_size(y, off));
        }
    }
}

proof fn lemma_entries_joined(x: Seq<u8>, y: Seq<u8>, off: int)
    requires
        0 <= off,
        dir_entries_from(x, off) is Ok,
        is_whole(x, off),
    ensures
        dir_entries_from(x + y, off) is Ok <==> dir_entries_from(y, 0) is Ok,
        dir_entries_from(y, 0) is Ok ==> dir_entries_from(x + y, off) == Ok::<
            Seq<DirEntryView>,
            ErrorView,
        >(dir_entries_from(x, off)->Ok_0 + dir_entries_from(y, 0)->Ok_0),
    decreases
            if off < x.len() {
                x.len() - off
            } else {
                0
            },
{
    if off >= x.len() {
        lemma_entries_after(x, y, 0);
        if let Ok(ey) = dir_entries_from(y, 0) {
            assert(seq![] + ey =~= ey);
        }
    } else {
        let next = off + dir_entry_size(x, off);
        lemma_whole_ends(x, next);
        lemma_entry_same(x, off, x + y, off, x.len() - off);
        lemma_entries_joined(x, y, next);
        if let Ok(ey) = dir_entries_from(y, 0) {
            let head = seq![dir_entry_at(x, off)->Ok_0];
            let rest = dir_entries_from(x, next)->Ok_0;
            assert(head + (rest + ey) =~= (head + rest) + ey);
        }
    }
}

proof fn lemma_whole_ends(x: Seq<u8>, off: int)
    requires
        is_whole(x, off),
    ensures
        off <= x.len(),
{
}

/// Two whole runs of entries put together are the entries of the first, then those of the
/// second; where the second cannot be parsed, neither can the two together.
pub proof fn law_entries_follow_one_another(x: Seq<u8>, y: Seq<u8>)
    requires
        dir_entries_of(x) is Ok,
        is_whole(x, 0),
    ensures
        dir_entries_of(y) is Err ==> dir_entries_of(x + y) is Err,
        dir_entries_of(y) matches Ok(ey) ==> dir_entries_of(x + y) == Ok::<
            Seq<DirEntryView>,
            ErrorView,
        >(dir_entries_of(x)->Ok_0 + ey),
        dir_entries_of(seq![]) == Ok::<Seq<DirEntryView>, ErrorView>(seq![]),
{
    lemma_entries_joined(x, y, 0);
}

} // verus!
