//! What is read from devices and looked for on the host.

use vstd::prelude::*;

use crate::dev::{law_outcome_is_what_the_device_holds, planned, DeviceReadView};
use crate::disk::{superblock_of, Inode};
use crate::entry_laws::{lemma_type_number, type_number};
use crate::error::ErrorKind;
use crate::fs::{FsView, Request, StopView};
use crate::host::{before_last_slash, leads_to_dir, link_path_of, windows_target_of};
use crate::lookup::{bytes_below, inode_at, Entry, EntryView, Loc};
use crate::number_laws::{is_numeral, law_decimals};
use crate::path::{resolved, ResolvedView};
use crate::report::uuid_text;
use crate::scan::{
    is_white, partitions_of, scan_verdict, scanned, table_of, windows_device, CandidateView,
    LookView, ScanResultView, TableView,
};
use crate::sort::{comes_before, sorted_positions, stably_sorted};
use crate::text::{dec, text_below};

verus! {

/// A read that has not begun is for the bytes asked for, and has none of them yet. It cannot be
/// made only where the boundary after it is past the highest offset, or the bytes between the
/// boundaries are more than memory can have.
pub proof fn law_reads_are_planned(off: int, len: int)
    requires
        0 <= off,
        0 <= len,
    ensures
        planned(off, len) matches Some(d) ==> {
            &&& d.wf()
            &&& d.off == off && d.len == len
            &&& d.buf.len() == 0 && !d.ended
        },
        off + len + 4095 <= u64::MAX && len + 8190 <= usize::MAX ==> planned(off, len) is Some,
{
}

/// The read has what the device holds, as far as it has come.
pub open spec fn is_honest(d: DeviceReadView, disk: Seq<u8>) -> bool {
    &&& d.wf()
    &&& d.start + d.buf.len() <= disk.len()
    &&& d.buf == disk.subrange(d.start, d.start + d.buf.len())
}

/// A device that gives, of what is wanted, any part that it holds is read right: the bytes are
/// taken as they come, what is wanted next follows them, and more is wanted until all is there.
/// Once it is, the outcome is the bytes asked for.
pub proof fn law_devices_are_read(d: DeviceReadView, disk: Seq<u8>, n: int, path: Seq<char>)
    requires
        is_honest(d, disk),
        !d.ended,
    ensures
        d.wanted() is None <==> d.buf.len() == d.total,
        d.wanted() matches Some((at, most)) ==> {
            &&& at == d.start + d.buf.len()
            &&& 0 < most <= d.total - d.buf.len()
            &&& most <= 4 * 1024 * 1024
            &&& 0 < n <= most && at + n <= disk.len() ==> {
                let e = d.given(disk.subrange(at, at + n));
                &&& is_honest(e, disk)
                &&& !e.ended
                &&& e.buf.len() == d.buf.len() + n
                &&& e.off == d.off && e.len == d.len && e.start == d.start && e.total == d.total
            }
        },
        d.off + d.len <= d.start + d.buf.len() ==> d.outcome(path) == Ok::<Seq<u8>, Seq<char>>(
            disk.subrange(d.off, d.off + d.len),
        ),
        d.off + d.len > d.start + d.buf.len() ==> d.outcome(path) is Err,
{
    if let Some((at, most)) = d.wanted() {
        if 0 < n <= most && at + n <= disk.len() {
            let b = disk.subrange(at, at + n);
            let e = d.given(b);
            assert(e.buf =~= disk.subrange(d.start, d.start + e.buf.len()));
        }
    }
    if d.off + d.len <= d.start + d.buf.len() {
        law_outcome_is_what_the_device_holds(d, disk, path);
    }
}

/// What the target of a symlink is relative to: the directory that the symlink is in. An absolute
/// target is taken as it is.
pub proof fn law_targets_are_relative_to_their_directory(
    dir: Seq<char>,
    leaf: Seq<char>,
    target: Seq<char>,
)
    requires
        forall|i: int| 0 <= i < leaf.len() ==> #[trigger] leaf[i] != '/',
    ensures
        target.len() > 0 && target[0] == '/' ==> link_path_of(dir + seq!['/'] + leaf, target)
            == target,
        target.len() == 0 || target[0] != '/' ==> link_path_of(dir + seq!['/'] + leaf, target)
            == dir + seq!['/'] + target,
{
    lemma_before(dir, leaf);
    reveal_strlit("/");
    assert("/"@ =~= seq!['/']);
}

proof fn lemma_before(dir: Seq<char>, leaf: Seq<char>)
    requires
        forall|i: int| 0 <= i < leaf.len() ==> #[trigger] leaf[i] != '/',
    ensures
        before_last_slash(dir + seq!['/'] + leaf) == Some(dir),
    decreases leaf.len(),
{
    let s = dir + seq!['/'] + leaf;
    if leaf.len() == 0 {
        assert(s.drop_last() =~= dir);
    } else {
        let front = leaf.drop_last();
        assert forall|i: int| 0 <= i < front.len() implies #[trigger] front[i] != '/' by {
            assert(front[i] == leaf[i]);
        }
        lemma_before(dir, front);
        assert(leaf[leaf.len() - 1] != '/');
        assert(s.drop_last() =~= dir + seq!['/'] + front);
    }
}

/// A symlink leads to a directory if and only if its path leads to an inode of that type.
pub proof fn law_links_to_directories(f: FsView, src: Seq<char>, target: Seq<char>, loc: Loc, i: Inode)
    requires
        resolved(f, link_path_of(src, target)) == Ok::<ResolvedView, StopView>(
            ResolvedView::At(loc),
        ),
        inode_at(f, loc) == Ok::<Inode, StopView>(i),
    ensures
        leads_to_dir(f, src, target) == Ok::<bool, Request>(type_number(i.mode) == 4),
{
    lemma_type_number(i.mode);
}

/// Where that cannot be told, or a symlink stands on the way, it is taken to lead elsewhere; where
/// a read is needed for it, that is what is asked for.
pub proof fn law_links_that_lead_elsewhere(f: FsView, src: Seq<char>, target: Seq<char>)
    ensures
        match resolved(f, link_path_of(src, target)) {
            Err(StopView::Read(r)) => leads_to_dir(f, src, target) == Err::<bool, Request>(r),
            Err(StopView::Error(_)) => leads_to_dir(f, src, target) == Ok::<bool, Request>(false),
            Ok(ResolvedView::Link { .. }) => leads_to_dir(f, src, target) == Ok::<bool, Request>(
                false,
            ),
            Ok(ResolvedView::At(loc)) => match inode_at(f, loc) {
                Err(StopView::Read(r)) => leads_to_dir(f, src, target) == Err::<bool, Request>(r),
                Err(StopView::Error(_)) => leads_to_dir(f, src, target) == Ok::<bool, Request>(
                    false,
                ),
                Ok(_) => leads_to_dir(f, src, target) is Ok,
            },
        },
{
}

/// Windows writes a target with backslashes for slashes, and otherwise as it is.
pub proof fn law_windows_targets(target: Seq<char>)
    ensures
        windows_target_of(target).len() == target.len(),
        forall|i: int|
            0 <= i < target.len() ==> #[trigger] windows_target_of(target)[i] == if target[i] as int
                == 47 {
                '\\'
            } else {
                target[i]
            },
{
}

/// A device joins the result of a scan by what was seen of it: a filesystem is told of by what
/// its superblock says, denied access is noted, and anything else leaves no trace.
pub proof fn law_scans_go_device_by_device(s: Seq<CandidateView>, c: CandidateView)
    ensures
        ({
            let a = scanned(s);
            let b = scanned(s.push(c));
            &&& c.look == LookView::Denied ==> b.filesystems == a.filesystems && b.access_denied
                == a.access_denied.push(c.path)
            &&& c.look == LookView::Nothing ==> b == a
            &&& c.look matches LookView::Bytes(x) ==> match superblock_of(x) {
                Err(_) => b == a,
                Ok(sb) => {
                    let last = b.filesystems[a.filesystems.len() as int];
                    &&& b.access_denied == a.access_denied
                    &&& b.filesystems == a.filesystems.push(last)
                    &&& last.device == c.path
                    &&& last.label == sb.label
                    &&& last.uuid == uuid_text(sb.fsid)
                    &&& last.total_bytes == sb.total_bytes
                    &&& last.bytes_used == sb.bytes_used
                    &&& last.num_devices == sb.num_devices
                },
            }
            &&& scanned(seq![]) == (ScanResultView { filesystems: seq![], access_denied: seq![] })
        }),
{
    assert(s.push(c).drop_last() =~= s);
}

/// A scan fails, for want of access, only where it found nothing and was denied something.
pub proof fn law_scans_fail_for_want_of_access(r: ScanResultView)
    ensures
        scan_verdict(r) is Err <==> r.filesystems.len() == 0 && r.access_denied.len() > 0,
        scan_verdict(r) matches Err(e) ==> e.kind == ErrorKind::AccessDenied,
{
}

/// A word of a table: not empty, no blank, tab or line end in it.
pub open spec fn is_field(w: Seq<char>) -> bool {
    w.len() > 0 && forall|i: int| 0 <= i < w.len() ==> !is_white(#[trigger] w[i]) && w[i] != '\n'
}

proof fn lemma_word(text: Seq<char>, w: Seq<char>)
    requires
        forall|i: int| 0 <= i < w.len() ==> !is_white(#[trigger] w[i]) && w[i] != '\n',
    ensures
        table_of(text + w) == (TableView { word: table_of(text).word + w, ..table_of(text) }),
    decreases w.len(),
{
    if w.len() == 0 {
        assert(text + w =~= text);
        assert(table_of(text).word + w =~= table_of(text).word);
    } else {
        let front = w.drop_last();
        assert forall|i: int| 0 <= i < front.len() implies !is_white(#[trigger] front[i]) && front[i]
            != '\n' by {
            assert(front[i] == w[i]);
        }
        lemma_word(text, front);
        assert((text + w).drop_last() =~= text + front);
        assert(!is_white(w[w.len() - 1]));
        assert((table_of(text).word + front).push(w.last()) =~= table_of(text).word + w);
    }
}

proof fn lemma_field(text: Seq<char>, w: Seq<char>, end: char)
    requires
        table_of(text).word.len() == 0,
        is_field(w),
        end == ' ' || end == '\n',
    ensures
        ({
            let t = table_of(text);
            let u = table_of(text + w + seq![end]);
            &&& u.word.len() == 0
            &&& u.devices == if t.line >= 2 && t.field == 3 {
                t.devices.push(seq!['/', 'd', 'e', 'v', '/'] + w)
            } else {
                t.devices
            }
            &&& end == ' ' ==> u.line == t.line && u.field == t.field + 1
            &&& end == '\n' ==> u.line == t.line + 1 && u.field == 0
        }),
{
    lemma_word(text, w);
    reveal_strlit("/dev/");
    assert("/dev/"@ =~= seq!['/', 'd', 'e', 'v', '/']);
    assert((text + w + seq![end]).drop_last() =~= text + w);
    assert(table_of(text).word + w =~= w);
}

/// A table of partitions read up to the end of a line names as a device the fourth field of every
/// line after it, and no field of a line with fewer; but none in the first two lines.
pub proof fn law_partition_tables(
    text: Seq<char>,
    a: Seq<char>,
    b: Seq<char>,
    c: Seq<char>,
    name: Seq<char>,
)
    requires
        is_field(a),
        is_field(b),
        is_field(c),
        is_field(name),
        table_of(text).word.len() == 0,
        table_of(text).field == 0,
    ensures
        ({
            let short = text + a + seq![' '] + b + seq![' '] + c + seq!['\n'];
            let whole = text + a + seq![' '] + b + seq![' '] + c + seq![' '] + name + seq!['\n'];
            &&& partitions_of(short) == partitions_of(text)
            &&& partitions_of(whole) == if table_of(text).line >= 2 {
                partitions_of(text).push(seq!['/', 'd', 'e', 'v', '/'] + name)
            } else {
                partitions_of(text)
            }
            &&& table_of(whole).line == table_of(text).line + 1
            &&& table_of(whole).word.len() == 0 && table_of(whole).field == 0
            &&& table_of(short).line == table_of(text).line + 1
            &&& table_of(short).word.len() == 0 && table_of(short).field == 0
        }),
{
    let one = text + a + seq![' '];
    let two = one + b + seq![' '];
    let three = two + c + seq![' '];
    lemma_field(text, a, ' ');
    lemma_field(one, b, ' ');
    lemma_field(two, c, ' ');
    lemma_field(two, c, '\n');
    lemma_field(three, name, '\n');
}

/// An empty table is at the start of its first line and names nothing; an empty line names
/// nothing either.
pub proof fn law_empty_tables(text: Seq<char>)
    requires
        table_of(text).word.len() == 0,
    ensures
        partitions_of(seq![]).len() == 0,
        table_of(seq![]).line == 0 && table_of(seq![]).field == 0 && table_of(seq![]).word.len()
            == 0,
        partitions_of(text.push('\n')) == partitions_of(text),
        table_of(text.push('\n')).line == table_of(text).line + 1,
        table_of(text.push('\n')).field == 0,
{
    assert(text.push('\n').drop_last() =~= text);
}

/// The devices looked at on Windows go disk by disk, 65 partitions of each.
pub proof fn law_windows_devices(disk: int, partition: int) -> (r: (Seq<char>, Seq<char>))
    requires
        0 <= disk,
        0 <= partition < 65,
    ensures
        is_numeral(r.0, disk as nat, 10),
        is_numeral(r.1, partition as nat, 10),
        windows_device(65 * disk + partition) == seq!['\\', '\\', '.', '\\'] + "Harddisk"@ + r.0
            + "Partition"@ + r.1,
{
    let n = 65 * disk + partition;
    assert(n / 65 == disk && n % 65 == partition) by {
        vstd::arithmetic::div_mod::lemma_fundamental_div_mod_converse(n, 65, disk, partition);
    }
    law_decimals(disk as nat);
    law_decimals(partition as nat);
    reveal_strlit("\\\\.\\Harddisk");
    reveal_strlit("Harddisk");
    assert("\\\\.\\Harddisk"@ =~= seq!['\\', '\\', '.', '\\'] + "Harddisk"@);
    (dec(disk as nat), dec(partition as nat))
}

/// The two begin with the same `k` values.
pub open spec fn agree<T>(a: Seq<T>, b: Seq<T>, k: int) -> bool {
    0 <= k <= a.len() && k <= b.len() && forall|i: int| 0 <= i < k ==> #[trigger] a[i] == b[i]
}

/// One name comes before another where the first byte in which they differ is lower, or where it
/// is the beginning of the other.
pub proof fn law_names_are_ordered_by_bytes(a: Seq<u8>, b: Seq<u8>, k: int)
    requires
        agree(a, b, k),
        k < a.len() && k < b.len() ==> a[k] != b[k],
    ensures
        k < a.len() && k < b.len() ==> (bytes_below(a, b) <==> a[k] < b[k]),
        k == a.len() ==> (bytes_below(a, b) <==> a.len() < b.len()),
        k == b.len() ==> !bytes_below(a, b),
    decreases k,
{
    if k > 0 {
        assert(a[0] == b[0]);
        let (c, d) = (a.skip(1), b.skip(1));
        assert forall|i: int| 0 <= i < k - 1 implies #[trigger] c[i] == d[i] by {
            assert(a[i + 1] == b[i + 1]);
        }
        law_names_are_ordered_by_bytes(c, d, k - 1);
    }
}

/// Entries are listed by name: of two of them the one that comes first has the lower byte where
/// their names first differ, or has the name that is the beginning of the other.
pub proof fn law_listings_are_sorted_by_name(
    all: Seq<EntryView>,
    r: Seq<EntryView>,
    i: int,
    j: int,
    k: int,
)
    requires
        stably_sorted::<Entry>(all, r),
        0 <= i < j < r.len(),
        agree(r[i].name, r[j].name, k),
        k < r[i].name.len() && k < r[j].name.len() ==> r[i].name[k] != r[j].name[k],
    ensures
        k < r[i].name.len() && k < r[j].name.len() ==> r[i].name[k] < r[j].name[k],
        k == r[j].name.len() ==> r[i].name == r[j].name,
{
    let p = choose|p: Seq<int>| #[trigger]
        sorted_positions::<Entry>(all, p) && r == Seq::new(p.len(), |x: int| all[p[x]]);
    assert(comes_before::<Entry>(all, p[i], p[j]));
    let (a, b) = (r[i].name, r[j].name);
    assert(agree(b, a, k));
    law_names_are_ordered_by_bytes(a, b, k);
    law_names_are_ordered_by_bytes(b, a, k);
    if k == b.len() {
        assert(a =~= b);
    }
}

/// Texts are ordered in the same way by their characters.
pub proof fn law_texts_are_ordered_by_characters(a: Seq<char>, b: Seq<char>, k: int)
    requires
        agree(a, b, k),
        k < a.len() && k < b.len() ==> a[k] != b[k],
    ensures
        k < a.len() && k < b.len() ==> (text_below(a, b) <==> a[k] < b[k]),
        k == a.len() ==> (text_below(a, b) <==> a.len() < b.len()),
        k == b.len() ==> !text_below(a, b),
    decreases k,
{
    if k > 0 {
        assert(a[0] == b[0]);
        let (c, d) = (a.skip(1), b.skip(1));
        assert forall|i: int| 0 <= i < k - 1 implies #[trigger] c[i] == d[i] by {
            assert(a[i + 1] == b[i + 1]);
        }
        law_texts_are_ordered_by_characters(c, d, k - 1);
    }
}

} // verus!
