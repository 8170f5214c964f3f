//! What can go wrong, and how it is said.

use vstd::prelude::*;
use vstd::string::*;

use crate::text::{dec, number, Text};

verus! {

/// A compression format.
#[derive(Clone, Copy, Debug, PartialEq, Eq, Structural)]
pub enum Codec {
    Zlib,
    Lzo,
    Zstd,
}

impl Codec {
    pub open spec fn label(self) -> Seq<char> {
        match self {
            Codec::Zlib => "zlib"@,
            Codec::Lzo => "lzo"@,
            Codec::Zstd => "zstd"@,
        }
    }

    pub fn name(self) -> (s: &'static str)
        ensures
            s@ == self.label(),
    {
        match self {
            Codec::Zlib => "zlib",
            Codec::Lzo => "lzo",
            Codec::Zstd => "zstd",
        }
    }
}

/// The kind of an error, with the numbers that it speaks of. Texts (paths, messages
/// of the host) stand beside it in [`Error`].
#[derive(Clone, Copy, Debug, PartialEq, Eq, Structural)]
pub enum ErrorKind {
    /// A field lies outside the bytes of its structure.
    Truncated { len: u64, off: u64, have: u64 },
    NoMagic,
    SuperChecksum,
    SysArraySize { size: u64 },
    SectorSize { size: u64 },
    NodeSize { size: u64 },
    ZeroStripes { start: u64 },
    Encrypted,
    ExtentType { ty: u64 },
    /// A declared decompressed size past what an extent can have.
    RamBytes { ram_bytes: u64 },
    ZeroSector,
    UnknownCompression { algo: u64 },
    /// `detail` is what the zstd decoder said of the frame header.
    ZstdFrame,
    /// `detail` is what the decoder said.
    StreamFailed { codec: Codec, compressed: u64 },
    /// The decoder broke down on the stream.
    StreamMalformed { codec: Codec, compressed: u64 },
    DecodesLong { codec: Codec, ram_bytes: u64 },
    DecodesShort { codec: Codec, got: u64, ram_bytes: u64, short_by: u64, sectorsize: u64 },
    LzoHeader { off: u64 },
    LzoFrame { total: u64, have: u64 },
    LzoOverrun { seg_len: u64, off: u64 },
    LzoMalformed { off: u64 },
    /// `detail` is what the LZO decoder said.
    LzoFailed { off: u64 },
    LzoExpands { off: u64, got: u64, sectorsize: u64 },
    /// `subject` is the path.
    NotFound,
    NoDevice,
    /// `subject` is the device path.
    OtherFilesystem,
    RefusedFeature,
    SysArrayKey { ty: u64 },
    Unmapped { logical: u64, len: u64 },
    /// `detail` is the name of the chunk's profile.
    Striped,
    MissingDevice { logical: u64, num_devices: u64 },
    /// A stripe's physical address does not fit 64 bits.
    PhysicalOverflow { logical: u64 },
    WrongAddress { logical: u64 },
    BadChecksum { logical: u64 },
    TooManyItems { logical: u64, items: u64 },
    TooDeep,
    WrongLevel { logical: u64, level: u64, expected: u64 },
    NoTree { id: u64 },
    NoInode { ino: u64, tree: u64 },
    /// `subject` is the path, `detail` the target.
    IsSymlink,
    /// `subject` is the path.
    NotADirectory,
    ImplausibleExtent { disk: u64, ram: u64 },
    InlineTooLarge { ram: u64, nodesize: u64 },
    AddressSum { base: u64, offset: u64 },
    AddressOverflow,
    OutsideExtent,
    SymlinkSize { size: u64 },
    ParentChain { ino: u64, tree: u64 },
    NoParent { ino: u64, tree: u64 },
    /// `detail` is the host's message.
    Host,
    /// The host refused to open a device.
    AccessDenied,
    /// The copy finished but `failures` entries are missing from it.
    Incomplete { failures: u64 },
    /// `subject` is the path.
    IsADirectory,
    FindType,
    /// `subject` is the path.
    FindLoop,
    CopyTooDeep,
    CopyLoop,
    /// `subject` is the destination.
    DestSymlink,
    /// `subject` is the destination.
    DestExists,
    /// No free name was found for an entry.
    NoFreeName,
    /// `detail` is what the glob compiler said.
    BadGlob,
    /// A glob's groups of alternates are nested too deep.
    DeepGlob,
    /// The reader of the output went away.
    BrokenPipe,
}

/// An error: its kind, the texts that it speaks of, and what was being done.
pub struct Error {
    pub kind: ErrorKind,
    /// The path the error is about, where there is one.
    pub subject: String,
    /// What another party said, where it said something.
    pub detail: String,
    /// What was being done, where that is worth saying; empty otherwise.
    pub context: String,
}

/// An [`Error`] with its texts as sequences of characters.
#[verifier::ext_equal]
pub struct ErrorView {
    pub kind: ErrorKind,
    pub subject: Seq<char>,
    pub detail: Seq<char>,
    pub context: Seq<char>,
}

impl View for Error {
    type V = ErrorView;

    open spec fn view(&self) -> ErrorView {
        ErrorView {
            kind: self.kind,
            subject: self.subject@,
            detail: self.detail@,
            context: self.context@,
        }
    }
}

/// The error of a kind that needs no text.
pub open spec fn plain(kind: ErrorKind) -> ErrorView {
    ErrorView { kind, subject: seq![], detail: seq![], context: seq![] }
}

/// The error of a kind that speaks of a path.
pub open spec fn about(kind: ErrorKind, subject: Seq<char>) -> ErrorView {
    ErrorView { kind, subject, detail: seq![], context: seq![] }
}

/// The error of a kind that passes on what another party said.
pub open spec fn because(kind: ErrorKind, detail: Seq<char>) -> ErrorView {
    ErrorView { kind, subject: seq![], detail, context: seq![] }
}

/// The error with what was being done put before it.
pub open spec fn within(e: ErrorView, context: Seq<char>) -> ErrorView {
    ErrorView { context, ..e }
}

/// The text of an error, without its context.
#[verifier::opaque]
pub open spec fn cause_text(e: ErrorView) -> Seq<char> {
    match e.kind {
        ErrorKind::Truncated { len, off, have } => "corrupt structure: wanted "@ + dec(len as nat)
            + " bytes at offset "@ + dec(off as nat) + ", have "@ + dec(have as nat),
        ErrorKind::NoMagic => "no btrfs magic"@,
        ErrorKind::SuperChecksum => "superblock checksum mismatch"@,
        ErrorKind::SysArraySize { size } => "corrupt superblock: sys_chunk_array_size "@ + dec(
            size as nat,
        ),
        ErrorKind::SectorSize { size } => "corrupt superblock: sectorsize "@ + dec(size as nat),
        ErrorKind::NodeSize { size } => "corrupt superblock: nodesize "@ + dec(size as nat),
        ErrorKind::ZeroStripes { start } => "corrupt chunk at "@ + dec(start as nat)
            + ": zero stripes"@,
        ErrorKind::Encrypted => "encrypted extents are not supported"@,
        ErrorKind::ExtentType { ty } => "unknown file extent type "@ + dec(ty as nat),
        ErrorKind::RamBytes { ram_bytes } => "extent claims "@ + dec(ram_bytes as nat)
            + " bytes decompressed, which no btrfs extent can be"@,
        ErrorKind::ZeroSector => "sectorsize is zero"@,
        ErrorKind::UnknownCompression { algo } => "unknown compression type "@ + dec(algo as nat),
        ErrorKind::ZstdFrame => "zstd extent: "@ + e.detail,
        ErrorKind::StreamFailed { codec, compressed } => codec.label() + " extent ("@ + dec(
            compressed as nat,
        ) + " compressed bytes): "@ + e.detail,
        ErrorKind::StreamMalformed { codec, compressed } => codec.label() + " extent ("@ + dec(
            compressed as nat,
        ) + " compressed bytes) is malformed"@,
        ErrorKind::DecodesLong { codec, ram_bytes } => codec.label()
            + " extent decodes to more than the "@ + dec(ram_bytes as nat)
            + " bytes it declares; it is corrupt"@,
        ErrorKind::DecodesShort { codec, got, ram_bytes, short_by, sectorsize } => codec.label()
            + " extent decodes to "@ + dec(got as nat) + " bytes but declares "@ + dec(
            ram_bytes as nat,
        ) + ", short by "@ + dec(short_by as nat) + " which is more than the "@ + dec(
            sectorsize as nat,
        ) + "-byte sector padding; it is truncated or corrupt"@,
        ErrorKind::LzoHeader { off } => "lzo extent: truncated header at offset "@ + dec(
            off as nat,
        ),
        ErrorKind::LzoFrame { total, have } => "lzo extent: frame declares "@ + dec(total as nat)
            + " bytes but the extent holds "@ + dec(have as nat),
        ErrorKind::LzoOverrun { seg_len, off } => "lzo extent: segment of "@ + dec(seg_len as nat)
            + " bytes at offset "@ + dec(off as nat) + " overruns the frame"@,
        ErrorKind::LzoMalformed { off } => "lzo extent: segment at offset "@ + dec(off as nat)
            + " is malformed"@,
        ErrorKind::LzoFailed { off } => "lzo extent at offset "@ + dec(off as nat) + ": "@
            + e.detail,
        ErrorKind::LzoExpands { off, got, sectorsize } => "lzo extent: segment at offset "@ + dec(
            off as nat,
        ) + " expands to "@ + dec(got as nat) + " bytes, past the "@ + dec(sectorsize as nat)
            + "-byte sector"@,
        ErrorKind::NotFound => "not found: "@ + e.subject,
        ErrorKind::NoDevice =>
            "no device given: pass --device or set BTRFS_PEEK_DEVICE (run `btrfs-peek scan` to find one)"@,
        ErrorKind::OtherFilesystem => e.subject
            + " belongs to a different filesystem than the other devices"@,
        ErrorKind::RefusedFeature =>
            "filesystem uses extent-tree-v2 or raid-stripe-tree, which this tool cannot read correctly"@,
        ErrorKind::SysArrayKey { ty } => "corrupt sys_chunk_array: key type "@ + dec(ty as nat),
        ErrorKind::Unmapped { logical, len } => "logical address "@ + dec(logical as nat) + " (+"@
            + dec(len as nat) + ") is not mapped by any chunk"@,
        ErrorKind::Striped => e.detail + " chunks striped across devices are not supported"@,
        ErrorKind::MissingDevice { logical, num_devices } => "the device holding logical address "@
            + dec(logical as nat) + " was not given (filesystem has "@ + dec(num_devices as nat)
            + " devices; pass each with --device)"@,
        ErrorKind::PhysicalOverflow { logical } => "logical address "@ + dec(logical as nat)
            + " maps past the end of any device"@,
        ErrorKind::WrongAddress { logical } => "tree block at "@ + dec(logical as nat)
            + " has the wrong address in its header"@,
        ErrorKind::BadChecksum { logical } => "tree block at "@ + dec(logical as nat)
            + " failed its checksum"@,
        ErrorKind::TooManyItems { logical, items } => "tree block at "@ + dec(logical as nat)
            + " claims "@ + dec(items as nat) + " items"@,
        ErrorKind::TooDeep => "tree deeper than btrfs allows; corrupt or cyclic"@,
        ErrorKind::WrongLevel { logical, level, expected } => "tree block at "@ + dec(
            logical as nat,
        ) + " is level "@ + dec(level as nat) + " where its parent expects "@ + dec(
            expected as nat,
        ),
        ErrorKind::NoTree { id } => "subvolume tree "@ + dec(id as nat) + " does not exist"@,
        ErrorKind::NoInode { ino, tree } => "inode "@ + dec(ino as nat) + " missing from tree "@
            + dec(tree as nat),
        ErrorKind::IsSymlink => e.subject + " is a symlink to "@ + e.detail
            + "; symlinks are not followed, resolve it yourself"@,
        ErrorKind::NotADirectory => e.subject + " is not a directory"@,
        ErrorKind::ImplausibleExtent { disk, ram } => "implausible compressed extent ("@ + dec(
            disk as nat,
        ) + " -> "@ + dec(ram as nat) + " bytes)"@,
        ErrorKind::InlineTooLarge { ram, nodesize } => "inline extent claims "@ + dec(ram as nat)
            + " bytes, more than the "@ + dec(nodesize as nat) + "-byte leaf holding it"@,
        ErrorKind::AddressSum { base, offset } => "extent address "@ + dec(base as nat) + "+"@
            + dec(offset as nat) + " overflows"@,
        ErrorKind::AddressOverflow => "extent address overflows"@,
        ErrorKind::OutsideExtent => "extent reference outside its decompressed data"@,
        ErrorKind::SymlinkSize { size } => "symlink claims a "@ + dec(size as nat)
            + "-byte target, past the 4096-byte maximum"@,
        ErrorKind::ParentChain { ino, tree } => "inode "@ + dec(ino as nat) + " in tree "@ + dec(
            tree as nat,
        ) + ": the parent chain never reaches the subvolume root"@,
        ErrorKind::NoParent { ino, tree } => "inode "@ + dec(ino as nat) + " in tree "@ + dec(
            tree as nat,
        ) + " has no parent reference"@,
        ErrorKind::Host => e.detail,
        ErrorKind::AccessDenied => "access denied"@,
        ErrorKind::Incomplete { failures } => dec(failures as nat)
            + " entries could not be copied; the copy is incomplete"@,
        ErrorKind::IsADirectory => e.subject + " is a directory"@,
        ErrorKind::FindType => "--type must be f, d, or l"@,
        ErrorKind::FindLoop => e.subject + ": directory loops back to one of its own parents"@,
        ErrorKind::CopyTooDeep =>
            "directory nesting deeper than 256; the filesystem is corrupt"@,
        ErrorKind::CopyLoop => "directory loops back to one of its own parents; skipped"@,
        ErrorKind::DestSymlink => e.subject + " is a symlink; refusing to write through it"@,
        ErrorKind::DestExists => e.subject + " already exists (use --force to overwrite)"@,
        ErrorKind::NoFreeName => "no free name is left in the destination"@,
        ErrorKind::BadGlob => e.detail,
        ErrorKind::DeepGlob => "groups of alternates are nested too deep"@,
        ErrorKind::BrokenPipe => "broken pipe"@,
    }
}

/// The text of an error: what was being done, then the cause.
pub open spec fn error_text(e: ErrorView) -> Seq<char> {
    if e.context.len() == 0 {
        cause_text(e)
    } else {
        e.context + ": "@ + cause_text(e)
    }
}

/// The exit code that a run ends with on an error.
pub open spec fn exit_code_of(kind: ErrorKind) -> int {
    match kind {
        ErrorKind::BrokenPipe => 0,
        ErrorKind::NotFound => 3,
        ErrorKind::AccessDenied => 4,
        ErrorKind::Incomplete { .. } => 5,
        _ => 1,
    }
}

impl Error {
    pub fn plain(kind: ErrorKind) -> (e: Error)
        ensures
            e@ == plain(kind),
    {
        Error { kind, subject: String::new(), detail: String::new(), context: String::new() }
    }

    pub fn about(kind: ErrorKind, subject: String) -> (e: Error)
        ensures
            e@ == about(kind, subject@),
    {
        Error { kind, subject, detail: String::new(), context: String::new() }
    }

    pub fn because(kind: ErrorKind, detail: String) -> (e: Error)
        ensures
            e@ == because(kind, detail@),
    {
        Error { kind, subject: String::new(), detail, context: String::new() }
    }

    pub fn within(self, context: String) -> (e: Error)
        ensures
            e@ == within(self@, context@),
    {
        Error { kind: self.kind, subject: self.subject, detail: self.detail, context }
    }

    /// An error equal to this one.
    pub fn copied(&self) -> (e: Error)
        ensures
            e@ == self@,
    {
        Error {
            kind: self.kind,
            subject: self.subject.clone(),
            detail: self.detail.clone(),
            context: self.context.clone(),
        }
    }

    /// What the tool prints of this error, what was being done first.
    pub fn message(&self) -> (s: String)
        ensures
            s@ == error_text(self@),
    {
        let cause = self.cause();
        if self.context.as_str().is_empty() {
            cause
        } else {
            Text::of(self.context.as_str()).lit(": ").lit(cause.as_str()).done()
        }
    }

    /// The exit code of a run that ends on this error. A closed pipe is no failure.
    pub fn exit_code(&self) -> (code: u8)
        ensures
            code == exit_code_of(self.kind),
    {
        match self.kind {
            ErrorKind::BrokenPipe => 0,
            ErrorKind::NotFound => 3,
            ErrorKind::AccessDenied => 4,
            ErrorKind::Incomplete { .. } => 5,
            _ => 1,
        }
    }

    /// What went wrong, without what was being done.
    pub fn cause(&self) -> (s: String)
        ensures
            s@ == cause_text(self@),
    {
        reveal(cause_text);
        match self.kind {
            ErrorKind::Truncated { len, off, have } => Text::of("corrupt structure: wanted ")
                .num(len)
                .lit(" bytes at offset ")
                .num(off)
                .lit(", have ")
                .num(have)
                .done(),
            ErrorKind::NoMagic => Text::of("no btrfs magic").done(),
            ErrorKind::SuperChecksum => Text::of("superblock checksum mismatch").done(),
            ErrorKind::SysArraySize { size } =>
                Text::of("corrupt superblock: sys_chunk_array_size ")
                .num(size)
                .done(),
            ErrorKind::SectorSize { size } => Text::of("corrupt superblock: sectorsize ")
                .num(size)
                .done(),
            ErrorKind::NodeSize { size } => Text::of("corrupt superblock: nodesize ")
                .num(size)
                .done(),
            ErrorKind::ZeroStripes { start } => Text::of("corrupt chunk at ")
                .num(start)
                .lit(": zero stripes")
                .done(),
            ErrorKind::Encrypted => Text::of("encrypted extents are not supported").done(),
            ErrorKind::ExtentType { ty } => Text::of("unknown file extent type ").num(ty).done(),
            ErrorKind::RamBytes { ram_bytes } => Text::of("extent claims ")
                .num(ram_bytes)
                .lit(" bytes decompressed, which no btrfs extent can be")
                .done(),
            ErrorKind::ZeroSector => Text::of("sectorsize is zero").done(),
            ErrorKind::UnknownCompression { algo } => Text::of("unknown compression type ")
                .num(algo)
                .done(),
            ErrorKind::ZstdFrame => Text::of("zstd extent: ").lit(self.detail.as_str()).done(),
            ErrorKind::StreamFailed { codec, compressed } => Text::of(codec.name())
                .lit(" extent (")
                .num(compressed)
                .lit(" compressed bytes): ")
                .lit(self.detail.as_str())
                .done(),
            ErrorKind::StreamMalformed { codec, compressed } => Text::of(codec.name())
                .lit(" extent (")
                .num(compressed)
                .lit(" compressed bytes) is malformed")
                .done(),
            ErrorKind::DecodesLong { codec, ram_bytes } => Text::of(codec.name())
                .lit(" extent decodes to more than the ")
                .num(ram_bytes)
                .lit(" bytes it declares; it is corrupt")
                .done(),
            ErrorKind::DecodesShort { codec, got, ram_bytes, short_by, sectorsize } =>
                Text::of(codec.name())
                .lit(" extent decodes to ")
                .num(got)
                .lit(" bytes but declares ")
                .num(ram_bytes)
                .lit(", short by ")
                .num(short_by)
                .lit(" which is more than the ")
                .num(sectorsize)
                .lit("-byte sector padding; it is truncated or corrupt")
                .done(),
            ErrorKind::LzoHeader { off } => Text::of("lzo extent: truncated header at offset ")
                .num(off)
                .done(),
            ErrorKind::LzoFrame { total, have } => Text::of("lzo extent: frame declares ")
                .num(total)
                .lit(" bytes but the extent holds ")
                .num(have)
                .done(),
            ErrorKind::LzoOverrun { seg_len, off } => Text::of("lzo extent: segment of ")
                .num(seg_len)
                .lit(" bytes at offset ")
                .num(off)
                .lit(" overruns the frame")
                .done(),
            ErrorKind::LzoMalformed { off } => Text::of("lzo extent: segment at offset ")
                .num(off)
                .lit(" is malformed")
                .done(),
            ErrorKind::LzoFailed { off } => Text::of("lzo extent at offset ")
                .num(off)
                .lit(": ")
                .lit(self.detail.as_str())
                .done(),
            ErrorKind::LzoExpands { off, got, sectorsize } =>
                Text::of("lzo extent: segment at offset ")
                .num(off)
                .lit(" expands to ")
                .num(got)
                .lit(" bytes, past the ")
                .num(sectorsize)
                .lit("-byte sector")
                .done(),
            ErrorKind::NotFound => Text::of("not found: ").lit(self.subject.as_str()).done(),
            ErrorKind::NoDevice =>
                Text::of("no device given: pass --device or set BTRFS_PEEK_DEVICE (run `btrfs-peek scan` to find one)")
                .done(),
            ErrorKind::OtherFilesystem => Text::of(self.subject.as_str())
                .lit(" belongs to a different filesystem than the other devices")
                .done(),
            ErrorKind::RefusedFeature =>
                Text::of("filesystem uses extent-tree-v2 or raid-stripe-tree, which this tool cannot read correctly")
                .done(),
            ErrorKind::SysArrayKey { ty } => Text::of("corrupt sys_chunk_array: key type ")
                .num(ty)
                .done(),
            ErrorKind::Unmapped { logical, len } => Text::of("logical address ")
                .num(logical)
                .lit(" (+")
                .num(len)
                .lit(") is not mapped by any chunk")
                .done(),
            ErrorKind::Striped => Text::of(self.detail.as_str())
                .lit(" chunks striped across devices are not supported")
                .done(),
            ErrorKind::MissingDevice { logical, num_devices } =>
                Text::of("the device holding logical address ")
                .num(logical)
                .lit(" was not given (filesystem has ")
                .num(num_devices)
                .lit(" devices; pass each with --device)")
                .done(),
            ErrorKind::PhysicalOverflow { logical } => Text::of("logical address ")
                .num(logical)
                .lit(" maps past the end of any device")
                .done(),
            ErrorKind::WrongAddress { logical } => Text::of("tree block at ")
                .num(logical)
                .lit(" has the wrong address in its header")
                .done(),
            ErrorKind::BadChecksum { logical } => Text::of("tree block at ")
                .num(logical)
                .lit(" failed its checksum")
                .done(),
            ErrorKind::TooManyItems { logical, items } => Text::of("tree block at ")
                .num(logical)
                .lit(" claims ")
                .num(items)
                .lit(" items")
                .done(),
            ErrorKind::TooDeep => Text::of("tree deeper than btrfs allows; corrupt or cyclic")
                .done(),
            ErrorKind::WrongLevel { logical, level, expected } => Text::of("tree block at ")
                .num(logical)
                .lit(" is level ")
                .num(level)
                .lit(" where its parent expects ")
                .num(expected)
                .done(),
            ErrorKind::NoTree { id } => Text::of("subvolume tree ")
                .num(id)
                .lit(" does not exist")
                .done(),
            ErrorKind::NoInode { ino, tree } => Text::of("inode ")
                .num(ino)
                .lit(" missing from tree ")
                .num(tree)
                .done(),
            ErrorKind::IsSymlink => Text::of(self.subject.as_str())
                .lit(" is a symlink to ")
                .lit(self.detail.as_str())
                .lit("; symlinks are not followed, resolve it yourself")
                .done(),
            ErrorKind::NotADirectory => Text::of(self.subject.as_str())
                .lit(" is not a directory")
                .done(),
            ErrorKind::ImplausibleExtent { disk, ram } =>
                Text::of("implausible compressed extent (")
                .num(disk)
                .lit(" -> ")
                .num(ram)
                .lit(" bytes)")
                .done(),
            ErrorKind::InlineTooLarge { ram, nodesize } => Text::of("inline extent claims ")
                .num(ram)
                .lit(" bytes, more than the ")
                .num(nodesize)
                .lit("-byte leaf holding it")
                .done(),
            ErrorKind::AddressSum { base, offset } => Text::of("extent address ")
                .num(base)
                .lit("+")
                .num(offset)
                .lit(" overflows")
                .done(),
            ErrorKind::AddressOverflow => Text::of("extent address overflows").done(),
            ErrorKind::OutsideExtent => Text::of("extent reference outside its decompressed data")
                .done(),
            ErrorKind::SymlinkSize { size } => Text::of("symlink claims a ")
                .num(size)
                .lit("-byte target, past the 4096-byte maximum")
                .done(),
            ErrorKind::ParentChain { ino, tree } => Text::of("inode ")
                .num(ino)
                .lit(" in tree ")
                .num(tree)
                .lit(": the parent chain never reaches the subvolume root")
                .done(),
            ErrorKind::NoParent { ino, tree } => Text::of("inode ")
                .num(ino)
                .lit(" in tree ")
                .num(tree)
                .lit(" has no parent reference")
                .done(),
            ErrorKind::Host => Text::of(self.detail.as_str()).done(),
            ErrorKind::AccessDenied => Text::of("access denied").done(),
            ErrorKind::Incomplete { failures } => Text::of(number(failures, 10).as_str())
                .lit(" entries could not be copied; the copy is incomplete")
                .done(),
            ErrorKind::IsADirectory => Text::of(self.subject.as_str())
                .lit(" is a directory")
                .done(),
            ErrorKind::FindType => Text::of("--type must be f, d, or l").done(),
            ErrorKind::FindLoop => Text::of(self.subject.as_str())
                .lit(": directory loops back to one of its own parents")
                .done(),
            ErrorKind::CopyTooDeep =>
                Text::of("directory nesting deeper than 256; the filesystem is corrupt")
                .done(),
            ErrorKind::CopyLoop =>
                Text::of("directory loops back to one of its own parents; skipped")
                .done(),
            ErrorKind::DestSymlink => Text::of(self.subject.as_str())
                .lit(" is a symlink; refusing to write through it")
                .done(),
            ErrorKind::DestExists => Text::of(self.subject.as_str())
                .lit(" already exists (use --force to overwrite)")
                .done(),
            ErrorKind::NoFreeName => Text::of("no free name is left in the destination").done(),
            ErrorKind::BadGlob => Text::of(self.detail.as_str()).done(),
            ErrorKind::DeepGlob => Text::of("groups of alternates are nested too deep").done(),
            ErrorKind::BrokenPipe => Text::of("broken pipe").done(),
        }
    }
}

/// A path that does not exist.
pub struct NotFound(pub String);

impl NotFound {
    /// The error that says so.
    pub fn error(self) -> (e: Error)
        ensures
            e@ == about(ErrorKind::NotFound, self.0@),
    {
        Error::about(ErrorKind::NotFound, self.0)
    }
}

} // verus!
