//! What the text of an error tells.

use vstd::prelude::*;

use crate::error::{cause_text, ErrorKind, ErrorView};
use crate::number_laws::{is_numeral, law_decimals};
use crate::text::dec;

verus! {

/// The text with numbers in it: a part, a number, a part and so on.
pub open spec fn told(parts: Seq<Seq<char>>, numbers: Seq<u64>) -> Seq<char>
    decreases numbers.len(),
{
    if numbers.len() == 0 {
        parts[0]
    } else {
        told(parts.drop_last(), numbers.drop_last()) + dec(numbers.last() as nat) + parts.last()
    }
}

/// The numbers that an error speaks of, in the order in which it does.
pub open spec fn numbers_of(kind: ErrorKind) -> Seq<u64> {
    match kind {
        ErrorKind::Truncated { len, off, have } => seq![len, off, have],
        ErrorKind::SysArraySize { size } => seq![size],
        ErrorKind::SectorSize { size } => seq![size],
        ErrorKind::NodeSize { size } => seq![size],
        ErrorKind::ZeroStripes { start } => seq![start],
        ErrorKind::ExtentType { ty } => seq![ty],
        ErrorKind::RamBytes { ram_bytes } => seq![ram_bytes],
        ErrorKind::UnknownCompression { algo } => seq![algo],
        ErrorKind::StreamFailed { compressed, .. } => seq![compressed],
        ErrorKind::StreamMalformed { compressed, .. } => seq![compressed],
        ErrorKind::DecodesLong { ram_bytes, .. } => seq![ram_bytes],
        ErrorKind::DecodesShort { got, ram_bytes, short_by, sectorsize, .. } => seq![
            got,
            ram_bytes,
            short_by,
            sectorsize,
        ],
        ErrorKind::LzoHeader { off } => seq![off],
        ErrorKind::LzoFrame { total, have } => seq![total, have],
        ErrorKind::LzoOverrun { seg_len, off } => seq![seg_len, off],
        ErrorKind::LzoMalformed { off } => seq![off],
        ErrorKind::LzoFailed { off } => seq![off],
        ErrorKind::LzoExpands { off, got, sectorsize } => seq![off, got, sectorsize],
        ErrorKind::SysArrayKey { ty } => seq![ty],
        ErrorKind::Unmapped { logical, len } => seq![logical, len],
        ErrorKind::MissingDevice { logical, num_devices } => seq![logical, num_devices],
        ErrorKind::PhysicalOverflow { logical } => seq![logical],
        ErrorKind::WrongAddress { logical } => seq![logical],
        ErrorKind::BadChecksum { logical } => seq![logical],
        ErrorKind::TooManyItems { logical, items } => seq![logical, items],
        ErrorKind::WrongLevel { logical, level, expected } => seq![logical, level, expected],
        ErrorKind::NoTree { id } => seq![id],
        ErrorKind::NoInode { ino, tree } => seq![ino, tree],
        ErrorKind::ImplausibleExtent { disk, ram } => seq![disk, ram],
        ErrorKind::InlineTooLarge { ram, nodesize } => seq![ram, nodesize],
        ErrorKind::AddressSum { base, offset } => seq![base, offset],
        ErrorKind::SymlinkSize { size } => seq![size],
        ErrorKind::ParentChain { ino, tree } => seq![ino, tree],
        ErrorKind::NoParent { ino, tree } => seq![ino, tree],
        ErrorKind::Incomplete { failures } => seq![failures],
        _ => seq![],
    }
}

proof fn lemma_told_1(
    p: Seq<char>,
    q: Seq<char>,
    a: u64,
)
    ensures
        told(seq![p, q], seq![a]) == p + dec(a as nat) + q,
{
    reveal_with_fuel(told, 2);
    assert(seq![p, q].drop_last() =~= seq![p]);
    assert(seq![a].drop_last() =~= seq![]);
}

proof fn lemma_told_2(
    p: Seq<char>,
    q: Seq<char>,
    r: Seq<char>,
    a: u64,
    b: u64,
)
    ensures
        told(seq![p, q, r], seq![a, b]) == p + dec(a as nat) + q + dec(b as nat) + r,
{
    reveal_with_fuel(told, 2);
    assert(seq![p, q, r].drop_last() =~= seq![p, q]);
    assert(seq![a, b].drop_last() =~= seq![a]);
    lemma_told_1(p, q, a);
}

proof fn lemma_told_3(
    p: Seq<char>,
    q: Seq<char>,
    r: Seq<char>,
    s: Seq<char>,
    a: u64,
    b: u64,
    c: u64,
)
    ensures
        told(seq![p, q, r, s], seq![a, b, c]) == p + dec(a as nat) + q + dec(b as nat) + r + dec(
            c as nat,
        ) + s,
{
    reveal_with_fuel(told, 2);
    assert(seq![p, q, r, s].drop_last() =~= seq![p, q, r]);
    assert(seq![a, b, c].drop_last() =~= seq![a, b]);
    lemma_told_2(p, q, r, a, b);
}

proof fn lemma_told_4(
    p: Seq<char>,
    q: Seq<char>,
    r: Seq<char>,
    s: Seq<char>,
    t: Seq<char>,
    a: u64,
    b: u64,
    c: u64,
    d: u64,
)
    ensures
        told(seq![p, q, r, s, t], seq![a, b, c, d]) == p + dec(a as nat) + q + dec(b as nat) + r
            + dec(c as nat) + s + dec(d as nat) + t,
{
    reveal_with_fuel(told, 2);
    assert(seq![p, q, r, s, t].drop_last() =~= seq![p, q, r, s]);
    assert(seq![a, b, c, d].drop_last() =~= seq![a, b, c]);
    lemma_told_3(p, q, r, s, a, b, c);
}

/// The parts of the text of an error, between its numbers.
spec fn parts_of(e: ErrorView) -> Seq<Seq<char>> {
    match e.kind {
        ErrorKind::Truncated { .. } => seq![
            "corrupt structure: wanted "@,
            " bytes at offset "@,
            ", have "@,
            Seq::<char>::empty(),
        ],
        ErrorKind::SysArraySize { .. } => seq![
            "corrupt superblock: sys_chunk_array_size "@,
            Seq::<char>::empty(),
        ],
        ErrorKind::SectorSize { .. } => seq![
            "corrupt superblock: sectorsize "@,
            Seq::<char>::empty(),
        ],
        ErrorKind::NodeSize { .. } => seq![
            "corrupt superblock: nodesize "@,
            Seq::<char>::empty(),
        ],
        ErrorKind::ZeroStripes { .. } => seq![
            "corrupt chunk at "@,
            ": zero stripes"@,
        ],
        ErrorKind::ExtentType { .. } => seq![
            "unknown file extent type "@,
            Seq::<char>::empty(),
        ],
        ErrorKind::RamBytes { .. } => seq![
            "extent claims "@,
            " bytes decompressed, which no btrfs extent can be"@,
        ],
        ErrorKind::UnknownCompression { .. } => seq![
            "unknown compression type "@,
            Seq::<char>::empty(),
        ],
        ErrorKind::StreamFailed { codec, .. } => seq![
            codec.label() + " extent ("@,
            " compressed bytes): "@ + e.detail,
        ],
        ErrorKind::StreamMalformed { codec, .. } => seq![
            codec.label() + " extent ("@,
            " compressed bytes) is malformed"@,
        ],
        ErrorKind::DecodesLong { codec, .. } => seq![
            codec.label() + " extent decodes to more than the "@,
            " bytes it declares; it is corrupt"@,
        ],
        ErrorKind::DecodesShort { codec, .. } => seq![
            codec.label() + " extent decodes to "@,
            " bytes but declares "@,
            ", short by "@,
            " which is more than the "@,
            "-byte sector padding; it is truncated or corrupt"@,
        ],
        ErrorKind::LzoHeader { .. } => seq![
            "lzo extent: truncated header at offset "@,
            Seq::<char>::empty(),
        ],
        ErrorKind::LzoFrame { .. } => seq![
            "lzo extent: frame declares "@,
            " bytes but the extent holds "@,
            Seq::<char>::empty(),
        ],
        ErrorKind::LzoOverrun { .. } => seq![
            "lzo extent: segment of "@,
            " bytes at offset "@,
            " overruns the frame"@,
        ],
        ErrorKind::LzoMalformed { .. } => seq![
            "lzo extent: segment at offset "@,
            " is malformed"@,
        ],
        ErrorKind::LzoFailed { .. } => seq![
            "lzo extent at offset "@,
            ": "@ + e.detail,
        ],
        ErrorKind::LzoExpands { .. } => seq![
            "lzo extent: segment at offset "@,
            " expands to "@,
            " bytes, past the "@,
            "-byte sector"@,
        ],
        ErrorKind::SysArrayKey { .. } => seq![
            "corrupt sys_chunk_array: key type "@,
            Seq::<char>::empty(),
        ],
        ErrorKind::Unmapped { .. } => seq![
            "logical address "@,
            " (+"@,
            ") is not mapped by any chunk"@,
        ],
        ErrorKind::MissingDevice { .. } => seq![
            "the device holding logical address "@,
            " was not given (filesystem has "@,
            " devices; pass each with --device)"@,
        ],
        ErrorKind::PhysicalOverflow { .. } => seq![
            "logical address "@,
            " maps past the end of any device"@,
        ],
        ErrorKind::WrongAddress { .. } => seq![
            "tree block at "@,
            " has the wrong address in its header"@,
        ],
        ErrorKind::BadChecksum { .. } => seq![
            "tree block at "@,
            " failed its checksum"@,
        ],
        ErrorKind::TooManyItems { .. } => seq![
            "tree block at "@,
            " claims "@,
            " items"@,
        ],
        ErrorKind::WrongLevel { .. } => seq![
            "tree block at "@,
            " is level "@,
            " where its parent expects "@,
            Seq::<char>::empty(),
        ],
        ErrorKind::NoTree { .. } => seq![
            "subvolume tree "@,
            " does not exist"@,
        ],
        ErrorKind::NoInode { .. } => seq![
            "inode "@,
            " missing from tree "@,
            Seq::<char>::empty(),
        ],
        ErrorKind::ImplausibleExtent { .. } => seq![
            "implausible compressed extent ("@,
            " -> "@,
            " bytes)"@,
        ],
        ErrorKind::InlineTooLarge { .. } => seq![
            "inline extent claims "@,
            " bytes, more than the "@,
            "-byte leaf holding it"@,
        ],
        ErrorKind::AddressSum { .. } => seq![
            "extent address "@,
            "+"@,
            " overflows"@,
        ],
        ErrorKind::SymlinkSize { .. } => seq![
            "symlink claims a "@,
            "-byte target, past the 4096-byte maximum"@,
        ],
        ErrorKind::ParentChain { .. } => seq![
            "inode "@,
            " in tree "@,
            ": the parent chain never reaches the subvolume root"@,
        ],
        ErrorKind::NoParent { .. } => seq![
            "inode "@,
            " in tree "@,
            " has no parent reference"@,
        ],
        ErrorKind::Incomplete { .. } => seq![
            Seq::<char>::empty(),
            " entries could not be copied; the copy is incomplete"@,
        ],
        _ => seq![],
    }
}

/// The text tells every number that the error speaks of, in decimal and in that order.
#[verifier::rlimit(60)]
#[verifier::spinoff_prover]
pub proof fn law_error_texts_tell_their_numbers(e: ErrorView)
    requires
        numbers_of(e.kind).len() > 0,
    ensures
        exists|parts: Seq<Seq<char>>|
            parts.len() == numbers_of(e.kind).len() + 1 && cause_text(e) == #[trigger] told(
                parts,
                numbers_of(e.kind),
            ),
        forall|i: int|
            0 <= i < numbers_of(e.kind).len() ==> is_numeral(
                dec((#[trigger] numbers_of(e.kind)[i]) as nat),
                numbers_of(e.kind)[i] as nat,
                10,
            ),
{
    reveal(cause_text);
    let p = parts_of(e);
    let n = numbers_of(e.kind);
    assert forall|i: int| 0 <= i < n.len() implies is_numeral(
        dec((#[trigger] n[i]) as nat),
        n[i] as nat,
        10,
    ) by {
        law_decimals(n[i] as nat);
    }
    if n.len() == 1 {
        assert(p =~= seq![p[0], p[1]]);
        assert(n =~= seq![n[0]]);
        lemma_told_1(p[0], p[1], n[0]);
    } else if n.len() == 2 {
        assert(p =~= seq![p[0], p[1], p[2]]);
        assert(n =~= seq![n[0], n[1]]);
        lemma_told_2(p[0], p[1], p[2], n[0], n[1]);
    } else if n.len() == 3 {
        assert(p =~= seq![p[0], p[1], p[2], p[3]]);
        assert(n =~= seq![n[0], n[1], n[2]]);
        lemma_told_3(p[0], p[1], p[2], p[3], n[0], n[1], n[2]);
    } else {
        assert(p =~= seq![p[0], p[1], p[2], p[3], p[4]]);
        assert(n =~= seq![n[0], n[1], n[2], n[3]]);
        lemma_told_4(p[0], p[1], p[2], p[3], p[4], n[0], n[1], n[2], n[3]);
    }
    assert(cause_text(e) =~= told(p, n));
}

/// The text names what the error is about, where there is something.
pub open spec fn names(t: Seq<char>, what: Seq<char>) -> bool {
    exists|a: Seq<char>, b: Seq<char>| t == #[trigger] (a + what + b)
}

proof fn lemma_names(t: Seq<char>, a: Seq<char>, what: Seq<char>, b: Seq<char>)
    requires
        t == a + what + b,
    ensures
        names(t, what),
{
}

/// The text of an error about a path, a device or a destination names it.
pub proof fn law_error_texts_name_their_subject(e: ErrorView)
    requires
        match e.kind {
            ErrorKind::NotFound | ErrorKind::OtherFilesystem | ErrorKind::IsSymlink => true,
            ErrorKind::NotADirectory | ErrorKind::IsADirectory | ErrorKind::FindLoop => true,
            ErrorKind::DestSymlink | ErrorKind::DestExists => true,
            _ => false,
        },
    ensures
        names(cause_text(e), e.subject),
{
    reveal(cause_text);
    let t = cause_text(e);
    let n = e.subject.len() as int;
    let none = Seq::<char>::empty();
    if e.kind == ErrorKind::NotFound {
        let a = "not found: "@;
        assert(t =~= a + e.subject + none);
        lemma_names(t, a, e.subject, none);
    } else {
        assert(t =~= none + e.subject + t.skip(n));
        lemma_names(t, none, e.subject, t.skip(n));
    }
}

/// What another party said is handed on.
pub proof fn law_error_texts_hand_on_what_was_said(e: ErrorView)
    requires
        match e.kind {
            ErrorKind::Host | ErrorKind::BadGlob => true,
            ErrorKind::ZstdFrame | ErrorKind::StreamFailed { .. } => true,
            ErrorKind::LzoFailed { .. } | ErrorKind::Striped => true,
            _ => false,
        },
    ensures
        names(cause_text(e), e.detail),
{
    reveal(cause_text);
    let t = cause_text(e);
    let n = e.detail.len() as int;
    let none = Seq::<char>::empty();
    if e.kind == ErrorKind::Striped {
        assert(t =~= none + e.detail + t.skip(n));
        lemma_names(t, none, e.detail, t.skip(n));
    } else {
        let k = t.len() - n;
        assert(t =~= t.take(k) + e.detail + none);
        lemma_names(t, t.take(k), e.detail, none);
    }
}

} // verus!
