//! What a copy makes of an entry: a file with its contents, permissions and time, a symlink with
//! its target, a directory with all that is in it.

use vstd::prelude::*;
use vstd::utf8::encode_utf8;

use crate::copy::{
    copy_step, copy_told, leaf_step, list_step, next_entry, plus, sift_step, sorted_listing,
    start_step, ActionView, CopierView, FrameView, LineView, PhaseView, ReportView, Thing,
    ToldView,
};
use crate::disk::{type_bits, Inode};
use crate::error::ErrorKind;
use crate::fs::{FsView, StopView};
use crate::lookup::{inode_at, snapshot_of};
use crate::names::{folded, host_name_of};
use crate::number_laws::is_numeral;
use crate::text::utf8_lossy;

verus! {

/// The number that the mode gives for the type of a file.
pub open spec fn type_number(mode: u32) -> int {
    (mode as int / 4096) % 16
}

pub proof fn lemma_type_number(mode: u32)
    ensures
        type_bits(mode) == 4096 * type_number(mode),
{
    assert(mode & 0xf000 == 4096 * ((mode / 4096) % 16)) by (bit_vector);
}

/// The inode that goes with what is being done.
pub open spec fn inode_in(phase: PhaseView) -> Option<Inode> {
    match phase {
        PhaseView::Into(i) => Some(i),
        PhaseView::Enter(i) => Some(i),
        PhaseView::LookDir(i) => Some(i),
        PhaseView::MakeDir(i) => Some(i),
        PhaseView::NoteDir(i) => Some(i),
        PhaseView::List(i) => Some(i),
        PhaseView::LookLeaf(i) => Some(i),
        PhaseView::Clear(i) => Some(i),
        PhaseView::Leaf(i) => Some(i),
        PhaseView::LookPart(i) => Some(i),
        PhaseView::ClearPart(i) => Some(i),
        PhaseView::Target(i) => Some(i),
        PhaseView::NoteLink(i, _) => Some(i),
        PhaseView::Write(i) => Some(i),
        PhaseView::Move(i) => Some(i),
        PhaseView::Stamp(i) => Some(i),
        PhaseView::NoteFile(i) => Some(i),
        _ => None,
    }
}

/// What the copy goes by is what the filesystem holds: the inode of the entry at hand, and that
/// of each directory it is in.
pub open spec fn is_informed(f: FsView, c: CopierView) -> bool {
    &&& inode_in(c.phase) matches Some(i) ==> inode_at(f, c.job.loc) == Ok::<Inode, StopView>(i)
    &&& forall|k: int|
        0 <= k < c.stack.len() ==> inode_at(f, (#[trigger] c.stack[k]).job.loc) == Ok::<
            Inode,
            StopView,
        >(c.stack[k].inode)
}

/// The directories that a copy is in are known, and stay so where none is added and none changes
/// its place.
proof fn lemma_same_frames(f: FsView, a: Seq<FrameView>, b: Seq<FrameView>)
    requires
        forall|k: int|
            0 <= k < a.len() ==> inode_at(f, (#[trigger] a[k]).job.loc) == Ok::<Inode, StopView>(
                a[k].inode,
            ),
        b.len() <= a.len(),
        forall|k: int|
            0 <= k < b.len() ==> (#[trigger] b[k]).job == a[k].job && b[k].inode == a[k].inode,
    ensures
        forall|k: int|
            0 <= k < b.len() ==> inode_at(f, (#[trigger] b[k]).job.loc) == Ok::<Inode, StopView>(
                b[k].inode,
            ),
{
    assert forall|k: int| 0 <= k < b.len() implies inode_at(f, (#[trigger] b[k]).job.loc) == Ok::<
        Inode,
        StopView,
    >(b[k].inode) by {
        assert(a[k].job == b[k].job);
    }
}

proof fn lemma_next_informed(f: FsView, c: CopierView)
    requires
        is_informed(f, c),
        c.phase is Next,
    ensures
        is_informed(f, copy_step(f, c).copier),
{
    reveal(next_entry);
    let d = copy_step(f, c).copier;
    lemma_same_frames(f, c.stack, d.stack);
}

proof fn lemma_list_informed(f: FsView, c: CopierView)
    requires
        is_informed(f, c),
        c.phase is List,
    ensures
        is_informed(f, copy_step(f, c).copier),
{
    reveal(list_step);
}

proof fn lemma_start_informed(f: FsView, c: CopierView)
    requires
        is_informed(f, c),
        c.phase is Start || c.phase is Sift || c.phase is Leaf,
    ensures
        is_informed(f, copy_step(f, c).copier),
{
    reveal(start_step);
    reveal(sift_step);
    reveal(leaf_step);
}

/// Every step keeps it so.
pub proof fn law_steps_are_informed(f: FsView, c: CopierView)
    requires
        is_informed(f, c),
    ensures
        is_informed(f, copy_step(f, c).copier),
{
    match c.phase {
        PhaseView::Next => lemma_next_informed(f, c),
        PhaseView::List(_) => lemma_list_informed(f, c),
        PhaseView::Start => lemma_start_informed(f, c),
        PhaseView::Sift(_) => lemma_start_informed(f, c),
        PhaseView::Leaf(_) => lemma_start_informed(f, c),
        _ => {},
    }
}

/// Whatever the host says keeps it so.
pub proof fn law_replies_are_informed(f: FsView, c: CopierView, t: ToldView)
    requires
        is_informed(f, c),
    ensures
        is_informed(f, copy_told(c, t)),
{
    lemma_same_frames(f, c.stack, copy_told(c, t).stack);
}

/// The line of the manifest says what the inode says: its type, its permissions in octal, whose
/// it is, how large it is and when it was changed.
pub open spec fn tells(l: LineView, i: Inode) -> bool {
    &&& is_numeral(l.mode, (i.mode % 4096) as nat, 8)
    &&& l.uid == i.uid
    &&& l.gid == i.gid
    &&& l.size == i.size
    &&& l.mtime == i.mtime_sec
    &&& l.ty == if type_number(i.mode) == 4 {
        "dir"@
    } else if type_number(i.mode) == 8 {
        "file"@
    } else if type_number(i.mode) == 10 {
        "symlink"@
    } else if type_number(i.mode) == 2 {
        "chardev"@
    } else if type_number(i.mode) == 6 {
        "blockdev"@
    } else if type_number(i.mode) == 1 {
        "fifo"@
    } else if type_number(i.mode) == 12 {
        "socket"@
    } else {
        "unknown"@
    }
}

proof fn lemma_tells(job: crate::copy::JobView, i: Inode, target: Option<Seq<char>>)
    ensures
        tells(crate::copy::line_of(job, i, target), i),
{
    let mode = i.mode;
    lemma_type_number(mode);
    assert(mode & 0xfff == mode % 4096) by (bit_vector);
    crate::number_laws::law_numerals(mode as nat % 4096, 8);
}

/// Whatever is asked for while an entry is copied carries the attributes of that entry: a file is
/// written from where the entry is, with the size and the permissions of its inode; the time that
/// is set is that of its inode; and the line of the manifest tells what the inode does.
pub proof fn law_entries_keep_their_attributes(f: FsView, c: CopierView)
    requires
        is_informed(f, c),
    ensures
        match copy_step(f, c).action {
            ActionView::Write { loc, dest, part, size, mode } => {
                &&& loc == c.job.loc
                &&& dest == c.job.dest
                &&& part == c.job.part
                &&& inode_at(f, loc) matches Ok(i) && size == i.size && mode % 4096 == i.mode % 4096
                    && type_number(mode) == type_number(i.mode)
            },
            ActionView::SetTime { dest, sec, nsec } => {
                ||| dest == c.job.dest && (inode_at(f, c.job.loc) matches Ok(i) && sec
                    == i.mtime_sec && nsec == i.mtime_nsec) && c.phase is Stamp
                ||| c.stack.len() > 0 && dest == c.stack.last().job.dest && (inode_at(
                    f,
                    c.stack.last().job.loc,
                ) matches Ok(i) && sec == i.mtime_sec && nsec == i.mtime_nsec) && c.phase is StampDir
            },
            ActionView::Manifest(l) => {
                &&& l.path == c.job.src
                &&& l.dest == c.job.dest
                &&& inode_at(f, c.job.loc) matches Ok(i) && tells(l, i)
                &&& l.target is Some <==> c.phase is NoteLink
            },
            ActionView::Target(loc) => loc == c.job.loc,
            ActionView::Symlink { dest, src, .. } => dest == c.job.dest && src == c.job.src,
            ActionView::Rename { dest, part } => dest == c.job.dest && part == c.job.part,
            ActionView::Examine(d) => d == c.job.dest,
            ActionView::ExaminePart { dest, part } => dest == c.job.dest && part == c.job.part,
            ActionView::Remove(d) => d == c.job.dest,
            ActionView::RemovePart { dest, part } => dest == c.job.dest && part == c.job.part,
            ActionView::MakeDir(d) => d == c.job.dest,
            ActionView::IsDir(d) => d == c.job.dest,
            ActionView::Confirm(d) => d == c.job.dest,
            _ => true,
        },
{
    reveal(start_step);
    reveal(sift_step);
    reveal(leaf_step);
    reveal(list_step);
    match c.phase {
        PhaseView::NoteDir(i) => lemma_tells(c.job, i, None),
        PhaseView::NoteFile(i) => lemma_tells(c.job, i, None),
        PhaseView::NoteLink(i, t) => lemma_tells(c.job, i, Some(t)),
        _ => {},
    }
}

/// The host found nothing in a place.
pub open spec fn nothing(shown: Seq<char>) -> ToldView {
    ToldView::Found { thing: Thing::Nothing, shown }
}

/// The copy goes on with the next entry, or is over where there was only one.
pub open spec fn goes_on(c: CopierView, report: ReportView) -> CopierView {
    CopierView {
        report,
        phase: if c.stack.len() == 0 {
            PhaseView::Over(None)
        } else {
            PhaseView::Next
        },
        ..c
    }
}

/// What an entry is made into is told by the type in its inode: a directory is entered; a file
/// or symlink, and what is neither, is a leaf.
pub proof fn law_what_an_entry_is(f: FsView, c: CopierView, i: Inode)
    requires
        c.phase == PhaseView::Start,
        inode_at(f, c.job.loc) == Ok::<Inode, StopView>(i),
        c.stack.len() > 0,
    ensures
        ({
            let d = copy_step(f, c);
            &&& d.action == ActionView::Again
            &&& d.copier == (CopierView {
                phase: if type_number(i.mode) == 4 {
                    PhaseView::Enter(i)
                } else {
                    PhaseView::LookLeaf(i)
                },
                ..c
            })
        }),
{
    reveal(start_step);
    lemma_type_number(i.mode);
}

/// A leaf whose place is empty is taken up by its type: a file looks for a temporary place, a
/// symlink for its target.
pub proof fn law_leaves_are_taken_up(f: FsView, c: CopierView, i: Inode, shown: Seq<char>)
    requires
        c.phase == PhaseView::LookLeaf(i),
        type_number(i.mode) == 8 || type_number(i.mode) == 10,
    ensures
        copy_step(f, c).action == ActionView::Examine(c.job.dest),
        ({
            let d = copy_step(f, copy_told(c, nothing(shown)));
            &&& d.action == ActionView::Again
            &&& d.copier == (CopierView {
                phase: if type_number(i.mode) == 8 {
                    PhaseView::LookPart(i)
                } else {
                    PhaseView::Target(i)
                },
                ..c
            })
        }),
{
    reveal(leaf_step);
    lemma_type_number(i.mode);
}

/// A file whose temporary place is empty is written there, with the contents, the size and the
/// permissions that it has, and then moved into its place.
pub proof fn law_a_file_is_written(f: FsView, c: CopierView, i: Inode, shown: Seq<char>)
    requires
        c.phase == PhaseView::LookPart(i),
    ensures
        copy_step(f, c).action == (ActionView::ExaminePart {
            dest: c.job.dest,
            part: c.job.part,
        }),
        ({
            let d = copy_told(c, nothing(shown));
            &&& copy_step(f, d).action == (ActionView::Write {
                loc: c.job.loc,
                dest: c.job.dest,
                part: c.job.part,
                size: i.size,
                mode: i.mode,
            })
            &&& copy_told(d, ToldView::Done) == (CopierView { phase: PhaseView::Move(i), ..c })
        }),
{
}

/// A file that was written is moved from the temporary place into its own, given its time and
/// counted with its size.
pub proof fn law_a_file_is_finished(f: FsView, c: CopierView, i: Inode)
    requires
        c.phase == PhaseView::Move(i),
    ensures
        copy_step(f, c).action == (ActionView::Rename { dest: c.job.dest, part: c.job.part }),
        ({
            let d = copy_told(c, ToldView::Done);
            &&& copy_step(f, d).action == (ActionView::SetTime {
                dest: c.job.dest,
                sec: i.mtime_sec,
                nsec: i.mtime_nsec,
            })
            &&& copy_told(d, ToldView::Done) == (CopierView {
                phase: PhaseView::NoteFile(i),
                report: ReportView {
                    files: plus(c.report.files, 1),
                    bytes: plus(c.report.bytes, i.size),
                    ..c.report
                },
                ..c
            })
        }),
{
}

/// It is noted where a manifest is kept, and the copy goes on.
pub proof fn law_a_file_is_noted(f: FsView, c: CopierView, i: Inode)
    requires
        c.phase == PhaseView::NoteFile(i),
    ensures
        c.opts.manifest ==> copy_step(f, c).action is Manifest && copy_told(c, ToldView::Done)
            == goes_on(c, c.report),
        !c.opts.manifest ==> copy_step(f, c).action == ActionView::Again && copy_step(f, c).copier
            == goes_on(c, c.report),
{
}

/// A symlink is noted with the target that it has, as text, where a manifest is kept.
pub proof fn law_a_symlink_is_noted(f: FsView, c: CopierView, i: Inode, target: Seq<u8>)
    requires
        c.phase == PhaseView::Target(i),
    ensures
        copy_step(f, c).action == ActionView::Target(c.job.loc),
        ({
            let d = copy_told(c, ToldView::Target(target));
            let next = CopierView { phase: PhaseView::Link(utf8_lossy(target)), ..c };
            &&& c.opts.manifest ==> (copy_step(f, d).action matches ActionView::Manifest(l)
                && l.target == Some(utf8_lossy(target))) && copy_told(d, ToldView::Done) == next
            &&& !c.opts.manifest ==> copy_step(f, d).action == ActionView::Again && copy_step(
                f,
                d,
            ).copier == next
        }),
{
}

/// It is made with that target in its place, and counted.
pub proof fn law_a_symlink_is_made(f: FsView, c: CopierView, target: Seq<char>)
    requires
        c.phase == PhaseView::Link(target),
    ensures
        copy_step(f, c).action == (ActionView::Symlink {
            target,
            dest: c.job.dest,
            src: c.job.src,
        }),
        copy_told(c, ToldView::Done) == goes_on(
            c,
            ReportView { symlinks: plus(c.report.symlinks, 1), ..c.report },
        ),
{
}

/// What is neither a file, a symlink nor a directory is passed over with a warning.
pub proof fn law_special_files_are_passed_over(
    f: FsView,
    c: CopierView,
    i: Inode,
    shown: Seq<char>,
)
    requires
        c.phase == PhaseView::LookLeaf(i),
        type_number(i.mode) != 8,
        type_number(i.mode) != 10,
    ensures
        ({
            let c1 = copy_told(c, nothing(shown));
            let d = copy_step(f, c1);
            &&& d.action == ActionView::Again
            &&& d.copier == goes_on(c, d.copier.report)
            &&& d.copier.report.warnings.len() == c.report.warnings.len() + 1
            &&& d.copier.report == (ReportView {
                warnings: d.copier.report.warnings,
                ..c.report
            })
        }),
{
    reveal(leaf_step);
    lemma_type_number(i.mode);
}

/// A leaf whose place is taken is not copied, unless `force` is on: then what is there is
/// removed, and it goes on as if nothing had been there.
pub proof fn law_taken_places(f: FsView, c: CopierView, i: Inode, thing: Thing, shown: Seq<char>)
    requires
        c.phase == PhaseView::LookLeaf(i),
        thing != Thing::Nothing,
    ensures
        ({
            let c1 = copy_told(c, ToldView::Found { thing, shown });
            &&& c.opts.force ==> copy_step(f, c1).action == ActionView::Remove(c.job.dest)
                && copy_told(c1, ToldView::Done) == copy_told(c, nothing(shown))
            &&& !c.opts.force && c.stack.len() > 0 ==> c1.phase == PhaseView::Next && c1.stack
                == c.stack && c1.report.failures == plus(c.report.failures, 1)
            &&& !c.opts.force && c.stack.len() == 0 ==> (c1.phase matches PhaseView::Over(Some(e))
                && e.kind == ErrorKind::DestExists)
        }),
{
}

/// A directory is made where it goes and counted. Where a symlink stands in its place, it is not
/// followed.
pub proof fn law_a_directory_is_made(f: FsView, c: CopierView, i: Inode, thing: Thing, shown: Seq<char>)
    requires
        c.phase == PhaseView::LookDir(i),
    ensures
        copy_step(f, c).action == ActionView::Examine(c.job.dest),
        ({
            let d = copy_told(c, ToldView::Found { thing, shown });
            &&& thing == Thing::Symlink ==> has_failed(c, d)
            &&& thing != Thing::Symlink ==> copy_step(f, d).action == ActionView::MakeDir(
                c.job.dest,
            ) && copy_told(d, ToldView::Done) == (CopierView {
                phase: PhaseView::NoteDir(i),
                report: ReportView { dirs: plus(c.report.dirs, 1), ..c.report },
                ..c
            })
        }),
{
    lemma_has_failed(c, crate::error::about(ErrorKind::DestSymlink, shown));
}

/// It is noted where a manifest is kept.
pub proof fn law_a_directory_is_noted(f: FsView, c: CopierView, i: Inode)
    requires
        c.phase == PhaseView::NoteDir(i),
    ensures
        ({
            let next = CopierView { phase: PhaseView::List(i), ..c };
            &&& c.opts.manifest ==> copy_step(f, c).action is Manifest && copy_told(
                c,
                ToldView::Done,
            ) == next
            &&& !c.opts.manifest ==> copy_step(f, c).action == ActionView::Again && copy_step(
                f,
                c,
            ).copier == next
        }),
{
}

/// It is listed: all of its entries are then to be copied, from the first on, none of their names
/// taken yet.
pub proof fn law_a_directory_is_listed(f: FsView, c: CopierView, i: Inode)
    requires
        c.phase == PhaseView::List(i),
        sorted_listing(f, c.job.loc) is Ok,
    ensures
        copy_step(f, c).action == ActionView::Again,
        copy_step(f, c).copier == (CopierView {
            phase: PhaseView::Next,
            stack: c.stack.push(
                FrameView {
                    job: c.job,
                    inode: i,
                    entries: sorted_listing(f, c.job.loc)->Ok_0,
                    next: 0,
                    taken: Set::empty(),
                },
            ),
            ..c
        }),
{
    reveal(list_step);
}

/// A directory is given its time once all that is in it was copied, and is then left for the one
/// it is in.
pub proof fn law_a_directory_is_left(f: FsView, c: CopierView)
    requires
        c.phase == PhaseView::Next,
        c.stack.len() > 0,
        c.stack.last().next >= c.stack.last().entries.len(),
    ensures
        ({
            let c1 = copy_step(f, c).copier;
            let top = c.stack.last();
            &&& copy_step(f, c).action == ActionView::Again
            &&& copy_step(f, c1).action == (ActionView::SetTime {
                dest: top.job.dest,
                sec: top.inode.mtime_sec,
                nsec: top.inode.mtime_nsec,
            })
            &&& copy_told(c1, ToldView::Done) == (CopierView {
                stack: c.stack.drop_last(),
                phase: if c.stack.len() == 1 {
                    PhaseView::Over(None)
                } else {
                    PhaseView::Next
                },
                ..c
            })
        }),
{
    reveal(next_entry);
}

/// The path of an entry below the source: its name, after that of its directory and a slash where
/// that is not the source itself.
pub open spec fn is_below(rel: Seq<char>, dir: Seq<char>, name: Seq<char>) -> bool {
    rel == if dir.len() == 0 {
        name
    } else {
        dir + seq!['/'] + name
    }
}

/// The next entry of a directory is left out if and only if a pattern matches its name or its
/// path below the source. Otherwise it is taken up: what it leads to, shown as the path of the
/// directory and its name, goes into the directory on the host, under its own name where the host
/// can have that and no entry before it has.
#[verifier::rlimit(40)]
pub proof fn law_the_next_entry(f: FsView, c: CopierView, rel: Seq<char>)
    requires
        c.phase == PhaseView::Next,
        c.stack.len() > 0,
        c.stack.last().next < c.stack.last().entries.len(),
        ({
            let top = c.stack.last();
            is_below(rel, top.job.rel, utf8_lossy(top.entries[top.next].name))
        }),
    ensures
        ({
            let top = c.stack.last();
            let e = top.entries[top.next];
            let name = utf8_lossy(e.name);
            let d = copy_step(f, c).copier;
            let excluded = c.opts.exclude.contains(name) || c.opts.exclude.contains(rel);
            let base = host_name_of(name, c.opts.host);
            &&& copy_step(f, c).action == ActionView::Again
            &&& excluded ==> d.phase is Next && d.report == (ReportView {
                excluded: plus(c.report.excluded, 1),
                ..c.report
            })
            &&& !excluded && d.phase is Next ==> d.report.failures == plus(c.report.failures, 1)
            &&& d.phase is Confirm ==> {
                &&& !excluded
                &&& d.phase == PhaseView::Confirm(e.subvol)
                &&& d.job.loc == e.loc
                &&& d.job.src == top.job.src + seq!['/'] + name
                &&& d.job.rel == rel
                &&& d.job.dest.drop_last() == top.job.dest
                &&& !top.taken.contains(folded(base, c.opts.host)) ==> d.job.dest.last() == base
                &&& d.report.failures == c.report.failures
                &&& d.report.excluded == c.report.excluded
                &&& d.stack.last().taken == top.taken.insert(
                    folded(d.job.dest.last(), c.opts.host),
                )
                &&& encode_utf8(base) == e.name && !top.taken.contains(folded(base, c.opts.host))
                    ==> d.report.warnings == c.report.warnings
                &&& encode_utf8(base) != e.name || top.taken.contains(folded(base, c.opts.host))
                    ==> d.report.warnings.len() == c.report.warnings.len() + 1
                &&& !d.stack.last().taken.contains(
                    folded(d.job.dest.last() + ".btrfs-peek-partial"@, c.opts.host),
                ) ==> d.job.part == d.job.dest.last() + ".btrfs-peek-partial"@
            }
            &&& d.phase is Confirm || d.phase is Next
            &&& !excluded && !top.taken.contains(folded(base, c.opts.host)) && !top.taken.insert(
                folded(base, c.opts.host),
            ).contains(folded(base + ".btrfs-peek-partial"@, c.opts.host)) ==> d.phase is Confirm
            &&& d.stack.len() == c.stack.len()
            &&& d.stack.last().next == top.next + 1
            &&& d.stack.last().entries == top.entries
        }),
{
    reveal(next_entry);
    reveal_strlit("/");
    assert("/"@ =~= seq!['/']);
    let top = c.stack.last();
    let e = top.entries[top.next];
    let base = host_name_of(utf8_lossy(e.name), c.opts.host);
    assert(crate::names::candidate(base, 0) == base);
    assert forall|b: Seq<char>| #[trigger] crate::names::candidate(b, 0) == b by {}
    let d = copy_step(f, c).copier;
    if d.phase is Confirm {
        assert(d.job.dest.drop_last() =~= top.job.dest);
    }
}

/// An entry whose place was found inside the destination is copied, unless it is another
/// subvolume that is left out: under `one_subvolume` every one of another tree than the
/// directory it is in, under `no_snapshots` every snapshot.
pub proof fn law_subvolumes_are_copied_or_left_out(f: FsView, c: CopierView, subvol: bool)
    requires
        c.phase == PhaseView::Sift(subvol),
        c.stack.len() > 0,
        snapshot_of(f, c.job.loc.tree) is Ok,
    ensures
        ({
            let d = copy_step(f, c);
            let other = c.opts.one_subvolume && c.job.loc.tree != c.stack.last().job.loc.tree;
            let snapshot = c.opts.no_snapshots && snapshot_of(f, c.job.loc.tree) == Ok::<
                bool,
                StopView,
            >(true);
            let left_out = subvol && c.job.loc.tree != 0 && (other || snapshot);
            &&& d.action == ActionView::Again
            &&& left_out ==> d.copier == (CopierView {
                phase: PhaseView::Next,
                report: ReportView { excluded: plus(c.report.excluded, 1), ..c.report },
                ..c
            })
            &&& !left_out ==> d.copier == (CopierView { phase: PhaseView::Start, ..c })
        }),
{
    reveal(sift_step);
}

/// An entry is copied only where its place is directly inside the directory it goes into.
pub proof fn law_places_are_confirmed(c: CopierView, subvol: bool, inside: bool, shown: Seq<char>)
    requires
        c.phase == PhaseView::Confirm(subvol),
    ensures
        ({
            let d = copy_told(c, ToldView::Placed { inside, shown });
            &&& inside ==> d == (CopierView { phase: PhaseView::Sift(subvol), ..c })
            &&& !inside ==> d.phase == PhaseView::Next && d.report.failures == plus(
                c.report.failures,
                1,
            ) && d.stack == c.stack
        }),
{
}

/// A directory that is all there is to copy is entered, shown without the slashes at the end of
/// its path; of anything else it is asked first whether it goes into a directory.
pub proof fn law_what_is_copied(f: FsView, c: CopierView, i: Inode)
    requires
        c.phase == PhaseView::Start,
        inode_at(f, c.job.loc) == Ok::<Inode, StopView>(i),
        c.stack.len() == 0,
    ensures
        ({
            let d = copy_step(f, c);
            &&& d.action == ActionView::Again
            &&& type_number(i.mode) == 4 ==> {
                let src = d.copier.job.src;
                &&& d.copier.phase == PhaseView::Enter(i)
                &&& d.copier.report == c.report
                &&& d.copier.stack == c.stack
                &&& d.copier.job == (crate::copy::JobView { src, ..c.job })
                &&& src.len() <= c.job.src.len()
                &&& c.job.src.take(src.len() as int) == src
                &&& src.len() > 0 ==> src.last() != '/'
                &&& forall|k: int| src.len() <= k < c.job.src.len() ==> #[trigger] c.job.src[k] == '/'
            }
            &&& type_number(i.mode) != 4 ==> d.copier == (CopierView {
                phase: PhaseView::Into(i),
                ..c
            })
        }),
{
    reveal(start_step);
    lemma_type_number(i.mode);
    crate::find_laws::lemma_unslashed(c.job.src);
}

/// A file or symlink goes into the destination under its own name, where that is a directory, and
/// else becomes the destination.
pub proof fn law_into_a_directory(c: CopierView, i: Inode, dir: Seq<char>, leaf: Seq<char>)
    requires
        c.phase == PhaseView::Into(i),
        c.job.src == dir + seq!['/'] + leaf,
        forall|k: int| 0 <= k < leaf.len() ==> #[trigger] leaf[k] != '/',
    ensures
        copy_told(c, ToldView::Yes(false)) == (CopierView { phase: PhaseView::LookLeaf(i), ..c }),
        ({
            let name = host_name_of(leaf, c.opts.host);
            copy_told(c, ToldView::Yes(true)) == (CopierView {
                phase: PhaseView::LookLeaf(i),
                job: crate::copy::JobView {
                    dest: c.job.dest.push(name),
                    part: name + ".btrfs-peek-partial"@,
                    ..c.job
                },
                ..c
            })
        }),
{
    lemma_last_segment(dir, leaf);
}

proof fn lemma_last_segment(dir: Seq<char>, leaf: Seq<char>)
    requires
        forall|k: int| 0 <= k < leaf.len() ==> #[trigger] leaf[k] != '/',
    ensures
        crate::copy::last_segment(dir + seq!['/'] + leaf) == leaf,
    decreases leaf.len(),
{
    let s = dir + seq!['/'] + leaf;
    if leaf.len() == 0 {
        assert(s.last() == '/');
        assert(leaf =~= seq![]);
    } else {
        let front = leaf.drop_last();
        assert forall|k: int| 0 <= k < front.len() implies #[trigger] front[k] != '/' by {
            assert(front[k] == leaf[k]);
        }
        lemma_last_segment(dir, front);
        assert(leaf[leaf.len() - 1] != '/');
        assert(s.drop_last() =~= dir + seq!['/'] + front);
        assert(front.push(leaf.last()) =~= leaf);
    }
}

/// A directory is gone into where it is no deeper than 256 below the first and is none of those
/// it is in; otherwise it fails.
pub proof fn law_entering(f: FsView, c: CopierView, i: Inode)
    requires
        c.phase == PhaseView::Enter(i),
    ensures
        ({
            let d = copy_step(f, c);
            let inside = exists|k: int|
                0 <= k < c.stack.len() && (#[trigger] c.stack[k]).job.loc == c.job.loc;
            &&& d.action == ActionView::Again
            &&& c.stack.len() <= 256 && !inside ==> d.copier == (CopierView {
                phase: PhaseView::LookDir(i),
                ..c
            })
            &&& c.stack.len() > 256 || inside ==> has_failed(c, d.copier)
        }),
{
    lemma_has_failed(c, crate::error::plain(ErrorKind::CopyTooDeep));
    lemma_has_failed(c, crate::error::plain(ErrorKind::CopyLoop));
}

/// The entry failed: that is counted and told, and the copy goes on with the next; or, where it
/// is all there is to copy, the copy ends with an error.
pub open spec fn has_failed(c: CopierView, d: CopierView) -> bool {
    &&& d.stack == c.stack && d.job == c.job && d.opts == c.opts
    &&& c.stack.len() == 0 ==> (d.phase matches PhaseView::Over(Some(_))) && d.report == c.report
    &&& c.stack.len() > 0 ==> d.phase == PhaseView::Next && d.report == (ReportView {
        failures: plus(c.report.failures, 1),
        warnings: d.report.warnings,
        ..c.report
    }) && d.report.warnings.len() == c.report.warnings.len() + 1
        && d.report.warnings.drop_last() == c.report.warnings && c.job.src.is_prefix_of(
        d.report.warnings.last(),
    )
}

proof fn lemma_has_failed(c: CopierView, e: crate::error::ErrorView)
    ensures
        has_failed(c, c.failed(e)),
        c.stack.len() == 0 ==> c.failed(e).phase == PhaseView::Over(Some(e)),
{
    if c.stack.len() > 0 {
        let d = c.failed(e);
        let text = c.job.src + ": "@ + crate::error::error_text(e);
        assert(text.take(c.job.src.len() as int) =~= c.job.src);
        assert(d.report.warnings.drop_last() =~= c.report.warnings);
    }
}

/// Whatever the host cannot do for an entry makes it fail, but for a symlink that cannot be made,
/// which is only told, and a time that cannot be set, which is nothing.
pub proof fn law_refusals_of_the_host(c: CopierView, e: crate::error::ErrorView)
    ensures
        ({
            let d = copy_told(c, ToldView::Failed(e));
            match c.phase {
                PhaseView::MakeDir(_) => has_failed(c, d),
                PhaseView::NoteDir(_) => has_failed(c, d),
                PhaseView::Clear(_) => has_failed(c, d),
                PhaseView::ClearPart(_) => has_failed(c, d),
                PhaseView::Target(_) => has_failed(c, d),
                PhaseView::NoteLink(_, _) => has_failed(c, d),
                PhaseView::Write(_) => has_failed(c, d),
                PhaseView::Move(_) => has_failed(c, d),
                PhaseView::NoteFile(_) => has_failed(c, d),
                PhaseView::Link(_) => d == goes_on(c, d.report) && d.report == (ReportView {
                    warnings: d.report.warnings,
                    ..c.report
                }) && d.report.warnings.len() == c.report.warnings.len() + 1,
                PhaseView::Stamp(_) => d == copy_told(c, ToldView::Done),
                PhaseView::StampDir => d == copy_told(c, ToldView::Done),
                _ => d == c,
            }
        }),
{
    lemma_has_failed(c, e);
}

/// What the filesystem cannot tell of an entry makes it fail as well; and where a read is needed
/// for it, that is asked for, and nothing is changed.
pub proof fn law_stops_of_the_filesystem(f: FsView, c: CopierView, s: StopView)
    requires
        match c.phase {
            PhaseView::Start => inode_at(f, c.job.loc) == Err::<Inode, StopView>(s),
            PhaseView::List(_) => sorted_listing(f, c.job.loc) == Err::<
                Seq<crate::lookup::EntryView>,
                StopView,
            >(s),
            PhaseView::Sift(subvol) => subvol && c.stack.len() > 0 && c.job.loc.tree != 0
                && !c.opts.one_subvolume && c.opts.no_snapshots && snapshot_of(f, c.job.loc.tree)
                == Err::<bool, StopView>(s),
            _ => false,
        },
    ensures
        match s {
            StopView::Read(r) => copy_step(f, c).action == ActionView::Read(r) && copy_step(
                f,
                c,
            ).copier == c,
            StopView::Error(_) => copy_step(f, c).action == ActionView::Again && has_failed(
                c,
                copy_step(f, c).copier,
            ),
        },
{
    reveal(start_step);
    reveal(list_step);
    reveal(sift_step);
    if let StopView::Error(e) = s {
        lemma_has_failed(c, e);
    }
}

/// What stands in the temporary place is removed before the file is written there, but a symlink
/// only where `force` is on.
pub proof fn law_taken_temporary_places(
    f: FsView,
    c: CopierView,
    i: Inode,
    thing: Thing,
    shown: Seq<char>,
)
    requires
        c.phase == PhaseView::LookPart(i),
        thing != Thing::Nothing,
    ensures
        ({
            let d = copy_told(c, ToldView::Found { thing, shown });
            if thing == Thing::Symlink && !c.opts.force {
                has_failed(c, d)
            } else {
                &&& copy_step(f, d).action == (ActionView::RemovePart {
                    dest: c.job.dest,
                    part: c.job.part,
                })
                &&& copy_told(d, ToldView::Done) == copy_told(c, nothing(shown))
            }
        }),
{
    if thing == Thing::Symlink && !c.opts.force {
        lemma_has_failed(c, crate::error::about(ErrorKind::DestExists, shown));
    }
}

/// A copy that is over stays so, and says how it ended.
pub proof fn law_the_end_of_a_copy(f: FsView, c: CopierView)
    requires
        c.phase is Over,
    ensures
        copy_step(f, c).copier == c,
        copy_step(f, c).action matches ActionView::Finished(e) && c.phase == PhaseView::Over(e),
{
}

/// A count goes up by one, or by as much as was copied, and stays at the highest number.
pub proof fn law_counts_go_up(n: u64, more: u64)
    ensures
        n + more <= u64::MAX ==> plus(n, more) == n + more,
        n + more > u64::MAX ==> plus(n, more) == u64::MAX,
{
}

} // verus!
