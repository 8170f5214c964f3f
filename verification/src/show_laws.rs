//! How things are shown: modes, UUIDs, labels, lines and exit codes.

use vstd::prelude::*;

use crate::copy::{verdict_of, ReportView};
use crate::disk::{
    compression_label, csum_label, kind_label, profile_label, ChunkView, Inode, SuperblockView,
};
use crate::entry_laws::{lemma_type_number, type_number};
use crate::error::{error_text, exit_code_of, ErrorKind, ErrorView};
use crate::lookup::Loc;
use crate::names::Host;
use crate::number_laws::{digit_value, is_numeral, law_decimals, law_numerals, law_padding};
use crate::report::{
    details_of, end_of, entry_text, feature_label, features_below, features_of, hex, line_text,
    mode_text, open_error_of, profile_text, subvol_text, summary_text, tags_of, uuid_text,
    warnings_of, with_commas, DetailsView,
};
use crate::subvol::SubvolView;
use crate::scan::{denied_text, found_text, FoundView};
use crate::text::{debug_text, dec, padded_left, utf8_lossy};
use crate::time::iso_text;

verus! {

/// The letter where bit `n` of the mode is set, or else a dash.
pub open spec fn shows(c: char, mode: u32, weight: int, letter: char) -> bool {
    c == if (mode as int / weight) % 2 == 1 {
        letter
    } else {
        '-'
    }
}

/// A mode is shown by ten characters: the type, then `rwx` for owner, group and others, each
/// letter by its own bit.
pub proof fn law_modes_are_shown(mode: u32)
    ensures
        ({
            let s = mode_text(mode);
            &&& s.len() == 10
            &&& s[0] == if type_number(mode) == 4 {
                'd'
            } else if type_number(mode) == 10 {
                'l'
            } else if type_number(mode) == 2 {
                'c'
            } else if type_number(mode) == 6 {
                'b'
            } else if type_number(mode) == 1 {
                'p'
            } else if type_number(mode) == 12 {
                's'
            } else {
                '-'
            }
            &&& shows(s[1], mode, 256, 'r')
            &&& shows(s[2], mode, 128, 'w')
            &&& shows(s[3], mode, 64, 'x')
            &&& shows(s[4], mode, 32, 'r')
            &&& shows(s[5], mode, 16, 'w')
            &&& shows(s[6], mode, 8, 'x')
            &&& shows(s[7], mode, 4, 'r')
            &&& shows(s[8], mode, 2, 'w')
            &&& shows(s[9], mode, 1, 'x')
        }),
{
    lemma_type_number(mode);
    assert((mode & 0x100 != 0) == ((mode / 256) % 2 == 1) && (mode & 0x80 != 0) == ((mode / 128) % 2
        == 1) && (mode & 0x40 != 0) == ((mode / 64) % 2 == 1) && (mode & 0x20 != 0) == ((mode / 32)
        % 2 == 1) && (mode & 0x10 != 0) == ((mode / 16) % 2 == 1) && (mode & 0x8 != 0) == ((mode
        / 8) % 2 == 1) && (mode & 0x4 != 0) == ((mode / 4) % 2 == 1) && (mode & 0x2 != 0) == ((mode
        / 2) % 2 == 1) && (mode & 0x1 != 0) == ((mode / 1) % 2 == 1)) by (bit_vector);
}

proof fn lemma_hex(s: Seq<u8>)
    ensures
        hex(s).len() == 2 * s.len(),
        forall|i: int|
            #![trigger s[i]]
            0 <= i < s.len() ==> is_hex_of(hex(s)[2 * i], hex(s)[2 * i + 1], s[i]),
    decreases s.len(),
{
    if s.len() > 0 {
        let front = s.drop_last();
        let n = s.len() - 1;
        lemma_hex(front);
        assert forall|i: int| #![trigger s[i]] 0 <= i < s.len() implies is_hex_of(
            hex(s)[2 * i],
            hex(s)[2 * i + 1],
            s[i],
        ) by {
            if i < n {
                assert(front[i] == s[i]);
            }
        }
    }
}

/// Two lower case hexadecimal digits are the byte.
pub open spec fn is_hex_of(a: char, b: char, x: u8) -> bool {
    &&& 0 <= digit_value(a) < 16
    &&& 0 <= digit_value(b) < 16
    &&& x == 16 * digit_value(a) + digit_value(b)
}

/// Where in the text of a UUID its byte `i` stands.
pub open spec fn place_of(i: int) -> int {
    2 * i + if i < 4 {
        0int
    } else if i < 6 {
        1
    } else if i < 8 {
        2
    } else if i < 10 {
        3
    } else {
        4
    }
}

/// A UUID is shown in 36 characters, its sixteen bytes in order, with dashes after four, six,
/// eight and ten of them.
pub proof fn law_uuids_are_shown(b: Seq<u8>)
    requires
        b.len() == 16,
    ensures
        ({
            let s = uuid_text(b);
            &&& s.len() == 36
            &&& s[8] == '-' && s[13] == '-' && s[18] == '-' && s[23] == '-'
            &&& forall|i: int|
                0 <= i < 16 ==> is_hex_of(s[place_of(i)], s[place_of(i) + 1], #[trigger] b[i])
        }),
{
    reveal_strlit("-");
    let (p, q, r, t, u) = (
        b.subrange(0, 4),
        b.subrange(4, 6),
        b.subrange(6, 8),
        b.subrange(8, 10),
        b.subrange(10, 16),
    );
    lemma_hex(p);
    lemma_hex(q);
    lemma_hex(r);
    lemma_hex(t);
    lemma_hex(u);
    let s = uuid_text(b);
    assert forall|i: int| 0 <= i < 16 implies is_hex_of(
        s[place_of(i)],
        s[place_of(i) + 1],
        #[trigger] b[i],
    ) by {
        if i < 4 {
            assert(p[i] == b[i]);
        } else if i < 6 {
            assert(q[i - 4] == b[i]);
        } else if i < 8 {
            assert(r[i - 6] == b[i]);
        } else if i < 10 {
            assert(t[i - 8] == b[i]);
        } else {
            assert(u[i - 10] == b[i]);
        }
    }
}

/// The details of a file are what its inode says, where it is, and the target of a symlink; of
/// anything else no target is told.
pub proof fn law_details_are_the_inodes(
    loc: Loc,
    i: Inode,
    path: Seq<char>,
    subvol: bool,
    target: Option<Seq<u8>>,
)
    ensures
        ({
            let d = details_of(loc, i, path, subvol, target);
            &&& d.path == path
            &&& d.ty == if subvol {
                "subvolume"@
            } else if type_number(i.mode) == 4 {
                "dir"@
            } else if type_number(i.mode) == 8 {
                "file"@
            } else if type_number(i.mode) == 10 {
                "symlink"@
            } else if type_number(i.mode) == 2 {
                "chardev"@
            } else if type_number(i.mode) == 6 {
                "blockdev"@
            } else if type_number(i.mode) == 1 {
                "fifo"@
            } else if type_number(i.mode) == 12 {
                "socket"@
            } else {
                "unknown"@
            }
            &&& d.perms == i.mode % 4096
            &&& is_numeral(d.mode, (i.mode % 4096) as nat, 8)
            &&& d.uid == i.uid && d.gid == i.gid
            &&& d.size == i.size && d.nlink == i.nlink
            &&& d.inode == loc.ino && d.subvolume_id == loc.tree
            &&& d.mtime == iso_text(i.mtime_sec as int)
            &&& d.target == match target {
                Some(b) if type_number(i.mode) == 10 => Some(utf8_lossy(b)),
                _ => None,
            }
        }),
{
    let mode = i.mode;
    lemma_type_number(mode);
    assert(mode & 0xfff == mode % 4096) by (bit_vector);
    law_numerals(mode as nat % 4096, 8);
}

/// A number at the right of a field that is at least so wide.
pub open spec fn is_column(s: Seq<char>, n: nat, width: nat) -> bool {
    exists|t: Seq<char>| #[trigger]
        is_numeral(t, n, 10) && s.len() == (if t.len() < width {
            width
        } else {
            t.len()
        }) && s.skip(s.len() - t.len()) == t && forall|i: int|
            0 <= i < s.len() - t.len() ==> #[trigger] s[i] == ' '
}

proof fn lemma_column(n: nat, width: nat)
    ensures
        is_column(padded_left(dec(n), width, ' '), n, width),
{
    law_decimals(n);
    law_padding(dec(n), width, ' ');
    assert(is_numeral(dec(n), n, 10));
}

/// A line of a long listing shows the mode, owner, group, size and time, then the name, where a
/// symlink leads, and that a subvolume is one.
pub proof fn law_long_lines(d: DetailsView, name: Seq<char>) -> (r: (
    Seq<char>,
    Seq<char>,
    Seq<char>,
))
    requires
        d.perms < 4096,
    ensures
        is_column(r.0, d.uid as nat, 5),
        is_column(r.1, d.gid as nat, 5),
        is_column(r.2, d.size as nat, 12),
        ({
            let kind: u32 = if d.ty == "dir"@ || d.ty == "subvolume"@ {
                4
            } else if d.ty == "symlink"@ {
                10
            } else {
                8
            };
            line_text(d, name) == mode_text((4096 * kind + d.perms) as u32) + seq![' '] + r.0 + seq![
                ' ',
            ] + r.1 + seq![' '] + r.2 + seq![' '] + d.mtime + seq![' '] + name + (match d.target {
                Some(t) => seq![' ', '-', '>', ' '] + t,
                None => seq![],
            }) + (if d.ty == "subvolume"@ {
                "  [subvolume]"@
            } else {
                seq![]
            })
        }),
{
    let (a, b, c) = (
        padded_left(dec(d.uid as nat), 5, ' '),
        padded_left(dec(d.gid as nat), 5, ' '),
        padded_left(dec(d.size as nat), 12, ' '),
    );
    lemma_column(d.uid as nat, 5);
    lemma_column(d.gid as nat, 5);
    lemma_column(d.size as nat, 12);
    reveal_strlit(" ");
    reveal_strlit(" -> ");
    assert(" "@ =~= seq![' ']);
    assert(" -> "@ =~= seq![' ', '-', '>', ' ']);
    let p = d.perms;
    assert(p | 0x4000 == 0x4000 + p && p | 0xa000 == 0xa000 + p && p | 0x8000 == 0x8000 + p)
        by (bit_vector)
        requires
            p < 4096u32,
    ;
    (a, b, c)
}

/// In a short listing a directory has a slash after its name and a symlink an at sign.
pub proof fn law_short_lines(name: Seq<char>, ftype: u8)
    ensures
        ftype == 2 ==> entry_text(name, ftype) == name.push('/'),
        ftype == 7 ==> entry_text(name, ftype) == name.push('@'),
        ftype != 2 && ftype != 7 ==> entry_text(name, ftype) == name,
{
    reveal_strlit("/");
    reveal_strlit("@");
    assert(name + "/"@ =~= name.push('/'));
    assert(name + "@"@ =~= name.push('@'));
}

/// So many bytes from an offset on end that much later, or at the highest offset there is; all
/// bytes end there.
pub proof fn law_ends(offset: u64, length: u64)
    ensures
        offset + length <= u64::MAX ==> end_of(offset, Some(length)) == offset + length,
        offset + length > u64::MAX ==> end_of(offset, Some(length)) == u64::MAX,
        end_of(offset, None) == u64::MAX,
{
}

/// A line about a subvolume shows its id, its path and its tags: that it is a snapshot, read-only,
/// the default, in that order and with commas between.
pub proof fn law_subvolume_lines(s: SubvolView, default: u64) -> (id: Seq<char>)
    ensures
        is_column(id, s.id as nat, 6),
        ({
            let is_default = s.id == default;
            let tags = if s.snapshot && s.readonly && is_default {
                "snapshot"@ + seq![','] + "readonly"@ + seq![','] + "default"@
            } else if s.snapshot && s.readonly {
                "snapshot"@ + seq![','] + "readonly"@
            } else if s.snapshot && is_default {
                "snapshot"@ + seq![','] + "default"@
            } else if s.readonly && is_default {
                "readonly"@ + seq![','] + "default"@
            } else if s.snapshot {
                "snapshot"@
            } else if s.readonly {
                "readonly"@
            } else if is_default {
                "default"@
            } else {
                seq![]
            };
            subvol_text(s, default) == id + seq![' ', ' '] + s.path + seq![' ', ' '] + tags
        }),
{
    lemma_column(s.id as nat, 6);
    reveal_strlit("  ");
    reveal_strlit(",");
    assert("  "@ =~= seq![' ', ' ']);
    assert(","@ =~= seq![',']);
    reveal_with_fuel(with_commas, 4);
    let t = tags_of(s, default);
    if t.len() >= 2 {
        assert(t.drop_last().len() == t.len() - 1);
        assert(t.drop_last()[0] == t[0]);
    }
    if t.len() == 3 {
        assert(t.drop_last().drop_last()[0] == t[0]);
    }
    padded_left(dec(s.id as nat), 6, ' ')
}

/// The name is that of a feature whose bit is set.
pub open spec fn is_feature(flags: u64, n: u64, name: Seq<char>) -> bool {
    exists|b: u64| #[trigger] has_bit(flags, b) && b < n && feature_label(b) == Some(name)
}

/// The bit is set.
pub open spec fn has_bit(flags: u64, bit: u64) -> bool {
    flags & (1u64 << bit) != 0
}

proof fn lemma_features(flags: u64, n: u64, bit: u64)
    requires
        n <= 64,
    ensures
        bit < n && has_bit(flags, bit) && feature_label(bit) is Some ==> features_below(
            flags,
            n,
        ).contains(feature_label(bit)->0),
        forall|i: int|
            0 <= i < features_below(flags, n).len() ==> is_feature(
                flags,
                n,
                #[trigger] features_below(flags, n)[i],
            ),
    decreases n,
{
    if n > 0 {
        let m = (n - 1) as u64;
        lemma_features(flags, m, bit);
        let s = features_below(flags, m);
        let t = features_below(flags, n);
        if bit < n && has_bit(flags, bit) && feature_label(bit) is Some {
            if bit < m {
                let k = s.index_of(feature_label(bit)->0);
                assert(t[k] == feature_label(bit)->0);
            } else {
                assert(t[t.len() - 1] == feature_label(bit)->0);
            }
        }
        assert forall|i: int| 0 <= i < t.len() implies is_feature(flags, n, #[trigger] t[i]) by {
            if i < s.len() {
                assert(t[i] == s[i]);
                assert(is_feature(flags, m, s[i]));
                let b = choose|b: u64| #[trigger]
                    has_bit(flags, b) && b < m && feature_label(b) == Some(s[i]);
                assert(has_bit(flags, b));
            } else {
                assert(has_bit(flags, m));
            }
        }
    }
}

/// The features listed are those whose bits are set and that have a name, and no others.
pub proof fn law_features_are_named_by_bits(flags: u64, bit: u64)
    ensures
        bit < 64 && has_bit(flags, bit) && feature_label(bit) is Some ==> features_of(
            flags,
        ).contains(feature_label(bit)->0),
        forall|i: int|
            0 <= i < features_of(flags).len() ==> is_feature(
                flags,
                64,
                #[trigger] features_of(flags)[i],
            ),
{
    lemma_features(flags, 64, bit);
}

/// The names of the features, by their bits.
pub proof fn law_the_names_of_the_features(bit: u64)
    ensures
        feature_label(bit) == if bit < 15 {
            Some(
                seq![
                    "mixed-backref"@,
                    "default-subvol"@,
                    "mixed-groups"@,
                    "compress-lzo"@,
                    "compress-zstd"@,
                    "big-metadata"@,
                    "extended-iref"@,
                    "raid56"@,
                    "skinny-metadata"@,
                    "no-holes"@,
                    "metadata-uuid"@,
                    "raid1c34"@,
                    "zoned"@,
                    "extent-tree-v2"@,
                    "raid-stripe-tree"@,
                ][bit as int],
            )
        } else if bit == 16 {
            Some("simple-quota"@)
        } else {
            None
        },
{
}

/// A chunk holds data, system data or metadata by the lowest three bits of its type, and is laid
/// out by the lowest of the bits from 3 to 10 that is set.
pub proof fn law_chunks_are_named_by_bits(ty: u64)
    ensures
        kind_label(ty) == if ty % 8 == 1 {
            "data"@
        } else if ty % 8 == 2 {
            "system"@
        } else if ty % 8 == 4 {
            "metadata"@
        } else if ty % 8 == 5 {
            "data+metadata"@
        } else {
            "mixed"@
        },
        profile_label(ty) == if (ty / 8) % 2 == 1 {
            "raid0"@
        } else if (ty / 16) % 2 == 1 {
            "raid1"@
        } else if (ty / 32) % 2 == 1 {
            "dup"@
        } else if (ty / 64) % 2 == 1 {
            "raid10"@
        } else if (ty / 128) % 2 == 1 {
            "raid5"@
        } else if (ty / 256) % 2 == 1 {
            "raid6"@
        } else if (ty / 512) % 2 == 1 {
            "raid1c3"@
        } else if (ty / 1024) % 2 == 1 {
            "raid1c4"@
        } else {
            "single"@
        },
{
    assert(ty & 7 == ty % 8) by (bit_vector);
    assert((ty & 0x8 != 0) == ((ty / 8) % 2 == 1) && (ty & 0x10 != 0) == ((ty / 16) % 2 == 1) && (ty
        & 0x20 != 0) == ((ty / 32) % 2 == 1) && (ty & 0x40 != 0) == ((ty / 64) % 2 == 1) && (ty
        & 0x80 != 0) == ((ty / 128) % 2 == 1) && (ty & 0x100 != 0) == ((ty / 256) % 2 == 1) && (ty
        & 0x200 != 0) == ((ty / 512) % 2 == 1) && (ty & 0x400 != 0) == ((ty / 1024) % 2 == 1))
        by (bit_vector);
}

/// A chunk is shown by what it holds and, after a colon, how it is laid out.
pub proof fn law_profiles_are_shown(c: ChunkView)
    ensures
        profile_text(c) == kind_label(c.ty) + seq![':'] + profile_label(c.ty),
{
    reveal_strlit(":");
    assert(":"@ =~= seq![':']);
}

/// A filesystem that was found is shown by its device, label, UUID, size, use and number of
/// devices; and of devices that were denied it is told how many there are.
pub proof fn law_found_lines(f: FoundView, n: nat) -> (r: (Seq<char>, Seq<char>, Seq<char>, Seq<char>))
    ensures
        is_numeral(r.0, f.total_bytes as nat, 10),
        is_numeral(r.1, f.bytes_used as nat, 10),
        is_numeral(r.2, f.num_devices as nat, 10),
        found_text(f) == f.device + "  label="@ + debug_text(f.label) + " uuid="@ + f.uuid
            + " size="@ + r.0 + " used="@ + r.1 + " devices="@ + r.2,
        is_numeral(r.3, n, 10),
        r.3.is_prefix_of(denied_text(n)),
{
    law_decimals(f.total_bytes as nat);
    law_decimals(f.bytes_used as nat);
    law_decimals(f.num_devices as nat);
    law_decimals(n);
    assert(denied_text(n).take(dec(n).len() as int) =~= dec(n));
    (dec(f.total_bytes as nat), dec(f.bytes_used as nat), dec(f.num_devices as nat), dec(n))
}

/// Checksums and compressions are named by their numbers in the format.
pub proof fn law_algorithms_are_named_by_number(csum: u16, compression: u8)
    ensures
        csum_label(csum) == if csum < 4 {
            seq!["crc32c"@, "xxhash64"@, "sha256"@, "blake2b"@][csum as int]
        } else {
            "unknown"@
        },
        compression_label(compression) == if compression < 4 {
            seq!["none"@, "zlib"@, "lzo"@, "zstd"@][compression as int]
        } else {
            "unknown"@
        },
{
}

/// A filesystem is warned of for a checksum that is not CRC-32C, which is named, and for a log
/// that was not replayed; of one with neither nothing is said.
pub proof fn law_warnings(sb: SuperblockView)
    ensures
        warnings_of(sb).len() == (if sb.csum_type == 0 {
            0int
        } else {
            1
        }) + (if sb.log_root == 0 {
            0int
        } else {
            1
        }),
        sb.csum_type != 0 ==> exists|a: Seq<char>, b: Seq<char>|
            warnings_of(sb)[0] == #[trigger] (a + csum_label(sb.csum_type) + b),
{
    if sb.csum_type != 0 {
        let a = "this filesystem uses "@;
        let b = " checksums, which this tool cannot verify; corruption will not be detected"@;
        assert(warnings_of(sb)[0] == a + csum_label(sb.csum_type) + b);
    }
}

/// The exit code tells what kind of end it was: 3 where something is not found, 4 where access
/// was denied, 5 where a copy is incomplete, 0 where only the reader went away, and 1 otherwise.
pub proof fn law_exit_codes(kind: ErrorKind)
    ensures
        exit_code_of(kind) == 3 <==> kind == ErrorKind::NotFound,
        exit_code_of(kind) == 4 <==> kind == ErrorKind::AccessDenied,
        exit_code_of(kind) == 5 <==> kind is Incomplete,
        exit_code_of(kind) == 0 <==> kind == ErrorKind::BrokenPipe,
        exit_code_of(kind) == 1 <==> kind != ErrorKind::NotFound && kind != ErrorKind::AccessDenied
            && !(kind is Incomplete) && kind != ErrorKind::BrokenPipe,
{
}

/// A copy from which anything is missing ends with exit code 5 and says how much is; one from
/// which nothing is missing ends well.
pub proof fn law_incomplete_copies_say_so(r: ReportView)
    ensures
        r.failures == 0 <==> verdict_of(r) is Ok,
        verdict_of(r) matches Err(e) ==> exit_code_of(e.kind) == 5 && e.kind
            == (ErrorKind::Incomplete { failures: r.failures }),
{
}

/// A device to which access is denied ends with exit code 4 and names the device; any other
/// failure to open it is told with what the host said of it.
pub proof fn law_open_errors(path: Seq<char>, denied: bool, message: Seq<char>, host: Host)
    ensures
        ({
            let e = open_error_of(path, denied, message, host);
            &&& denied ==> exit_code_of(e.kind) == 4 && path.is_prefix_of(e.context) && e.context
                == path + ": access denied; raw disks need privileges: "@ + match host {
                Host::Unix => "run as root, or add yourself to the `disk` group"@,
                Host::Windows => "run from an elevated (Administrator) terminal"@,
            }
            &&& !denied ==> exit_code_of(e.kind) == 1 && e.detail == message
                && e.context.len() >= path.len() && e.context.skip(e.context.len() - path.len())
                == path
        }),
{
    let e = open_error_of(path, denied, message, host);
    if denied {
        assert(e.context.take(path.len() as int) =~= path);
    } else {
        assert(e.context.skip(e.context.len() - path.len()) =~= path);
    }
}

/// What was being done comes first in the text of an error, then what went wrong; without it the
/// text is that alone.
pub proof fn law_error_texts(e: ErrorView)
    ensures
        ({
            let alone = error_text(ErrorView { context: seq![], ..e });
            error_text(e) == if e.context.len() == 0 {
                alone
            } else {
                e.context + seq![':', ' '] + alone
            }
        }),
{
    reveal(crate::error::cause_text);
    reveal_strlit(": ");
    assert(": "@ =~= seq![':', ' ']);
    if e.context.len() == 0 {
        assert(e.context =~= seq![]);
    }
}

/// The summary of a copy tells the counts in the order files, directories, symlinks, bytes,
/// excluded, failed.
pub proof fn law_summaries(r: ReportView)
    ensures
        exists|s: Seq<Seq<char>>| #[trigger]
            counts(s, r) && summary_text(r) == "copied "@ + s[0] + " files, "@ + s[1] + " dirs, "@
                + s[2] + " symlinks, "@ + s[3] + " bytes; "@ + s[4] + " excluded, "@ + s[5]
                + " failed"@,
{
    law_decimals(r.files as nat);
    law_decimals(r.dirs as nat);
    law_decimals(r.symlinks as nat);
    law_decimals(r.bytes as nat);
    law_decimals(r.excluded as nat);
    law_decimals(r.failures as nat);
    let s = seq![
        dec(r.files as nat),
        dec(r.dirs as nat),
        dec(r.symlinks as nat),
        dec(r.bytes as nat),
        dec(r.excluded as nat),
        dec(r.failures as nat),
    ];
    assert(counts(s, r));
}

/// The texts are the counts of the report.
pub open spec fn counts(s: Seq<Seq<char>>, r: ReportView) -> bool {
    &&& s.len() == 6
    &&& is_numeral(s[0], r.files as nat, 10)
    &&& is_numeral(s[1], r.dirs as nat, 10)
    &&& is_numeral(s[2], r.symlinks as nat, 10)
    &&& is_numeral(s[3], r.bytes as nat, 10)
    &&& is_numeral(s[4], r.excluded as nat, 10)
    &&& is_numeral(s[5], r.failures as nat, 10)
}

} // verus!
