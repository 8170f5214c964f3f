//! What a copy promises, whatever the filesystem holds and whatever the host says.

use vstd::prelude::*;

use crate::copy::{
    child_rel, copy_step, copy_told, leaf_step, list_step, loops, next_entry, plus, sift_step,
    start_step, verdict_of, ActionView, CopierView, FrameView, PhaseView, ReportView, Thing,
    ToldView, MAX_DEPTH,
};
use crate::disk::Inode;
use crate::error::exit_code_of;
use crate::fs::{FsView, StopView};
use crate::lookup::{placeholder, snapshot_of};
use crate::names::{
    candidate, first_free, folded, host_name_of, is_free, is_safe, law_chosen_name_is_free,
    law_host_name_is_safe, law_numbered_names_are_safe, law_partial_names_are_safe, partial_of,
    Host,
};
use crate::text::utf8_lossy;

verus! {

/// Every component is a safe one: no component leads out of the directory before it.
pub open spec fn is_inside(dest: Seq<Seq<char>>, host: Host) -> bool {
    forall|i: int| 0 <= i < dest.len() ==> is_safe(#[trigger] dest[i], host)
}

/// The job is being worked on.
pub open spec fn has_job(phase: PhaseView) -> bool {
    match phase {
        PhaseView::Next | PhaseView::StampDir | PhaseView::Over(_) => false,
        _ => true,
    }
}

/// The job is a directory that is about to be entered.
pub open spec fn is_entering(phase: PhaseView) -> bool {
    match phase {
        PhaseView::LookDir(_) | PhaseView::MakeDir(_) | PhaseView::NoteDir(_) | PhaseView::List(
            _,
        ) => true,
        _ => false,
    }
}

/// `dest` is directly inside `dir`.
pub open spec fn is_directly_inside(dest: Seq<Seq<char>>, dir: Seq<Seq<char>>) -> bool {
    dest.len() > 0 && dest.drop_last() == dir
}

/// The directories being copied: every destination lies inside the one that the user named,
/// each directly inside the one below it; no directory is inside itself; and the nesting is
/// bounded.
pub open spec fn stack_in_hand(stack: Seq<FrameView>, host: Host) -> bool {
    &&& stack.len() <= MAX_DEPTH + 1
    &&& forall|i: int| 0 <= i < stack.len() ==> is_inside((#[trigger] stack[i]).job.dest, host)
    &&& forall|i: int, j: int|
        0 <= i < stack.len() && 0 <= j < stack.len() && j == i + 1 ==> is_directly_inside(
            (#[trigger] stack[j]).job.dest,
            (#[trigger] stack[i]).job.dest,
        )
    &&& forall|i: int, j: int|
        0 <= i < j < stack.len() ==> (#[trigger] stack[i]).job.loc != (
        #[trigger] stack[j]).job.loc
}

/// What holds of a copy at every point: its directories are in hand, and what is at work
/// goes to a place inside the directory on top.
pub open spec fn in_hand(c: CopierView) -> bool {
    &&& stack_in_hand(c.stack, c.opts.host)
    &&& is_inside(c.job.dest, c.opts.host)
    &&& c.job.dest.len() > 0 ==> is_safe(c.job.part, c.opts.host)
    &&& has_job(c.phase) && c.stack.len() > 0 ==> is_directly_inside(
        c.job.dest,
        c.stack.last().job.dest,
    )
    &&& is_entering(c.phase) ==> c.stack.len() <= MAX_DEPTH && !loops(c.stack, c.job.loc)
    &&& c.phase is Into ==> c.stack.len() == 0
}

/// Directories with the same jobs are in hand alike.
proof fn lemma_same_jobs(s: Seq<FrameView>, t: Seq<FrameView>, host: Host)
    requires
        stack_in_hand(s, host),
        t.len() <= s.len(),
        forall|i: int| 0 <= i < t.len() ==> (#[trigger] t[i]).job == s[i].job,
    ensures
        stack_in_hand(t, host),
{
    assert forall|i: int, j: int|
        0 <= i < t.len() && 0 <= j < t.len() && j == i + 1 implies is_directly_inside(
        (#[trigger] t[j]).job.dest,
        (#[trigger] t[i]).job.dest,
    ) by {
        assert(t[i].job == s[i].job && t[j].job == s[j].job);
    }
    assert forall|i: int, j: int| 0 <= i < j < t.len() implies (#[trigger] t[i]).job.loc != (
    #[trigger] t[j]).job.loc by {
        assert(t[i].job == s[i].job && t[j].job == s[j].job);
    }
}

/// A directory inside the one on top, and inside none of itself, may come on top of it.
proof fn lemma_push_job(s: Seq<FrameView>, x: FrameView, host: Host)
    requires
        stack_in_hand(s, host),
        is_inside(x.job.dest, host),
        s.len() <= MAX_DEPTH,
        s.len() > 0 ==> is_directly_inside(x.job.dest, s.last().job.dest),
        !loops(s, x.job.loc),
    ensures
        stack_in_hand(s.push(x), host),
{
    let t = s.push(x);
    assert forall|i: int, j: int|
        0 <= i < t.len() && 0 <= j < t.len() && j == i + 1 implies is_directly_inside(
        (#[trigger] t[j]).job.dest,
        (#[trigger] t[i]).job.dest,
    ) by {
        if j < s.len() {
            assert(t[i] == s[i] && t[j] == s[j]);
        }
    }
    assert forall|i: int, j: int| 0 <= i < j < t.len() implies (#[trigger] t[i]).job.loc != (
    #[trigger] t[j]).job.loc by {
        assert(t[i] == s[i]);
        if j < s.len() {
            assert(t[j] == s[j]);
        }
    }
}

/// A copy starts in hand.
pub proof fn law_copy_starts_in_hand(c: CopierView)
    requires
        c.stack.len() == 0,
        c.job.dest.len() == 0,
        c.phase == PhaseView::Start,
    ensures
        in_hand(c),
{
}

/// The first free name made from a safe one is safe.
proof fn lemma_free_name_is_safe(base: Seq<char>, taken: Set<Seq<char>>, host: Host, n: u64)
    requires
        is_safe(base, host),
    ensures
        first_free(base, taken, host, n) matches Some(s) ==> is_safe(s, host),
    decreases u64::MAX - n,
{
    law_numbered_names_are_safe(base, host, n);
    if !is_free(candidate(base, n), taken, host) && n < u64::MAX {
        lemma_free_name_is_safe(base, taken, host, (n + 1) as u64);
    }
}

proof fn lemma_next_in_hand(c: CopierView)
    requires
        in_hand(c),
        c.phase == PhaseView::Next,
        c.stack.len() > 0,
    ensures
        in_hand(next_entry(c)),
{
    reveal(next_entry);
    let top = c.stack.last();
    let name = utf8_lossy(top.entries[top.next].name);
    let base = host_name_of(name, c.opts.host);
    law_host_name_is_safe(name, c.opts.host);
    lemma_free_name_is_safe(base, top.taken, c.opts.host, 0);
    if let Some(chosen) = first_free(base, top.taken, c.opts.host, 0) {
        let taken = top.taken.insert(folded(chosen, c.opts.host));
        law_partial_names_are_safe(chosen, c.opts.host);
        lemma_free_name_is_safe(partial_of(chosen), taken, c.opts.host, 0);
    }
    let d = next_entry(c);
    lemma_same_jobs(c.stack, d.stack, c.opts.host);
    if d.phase is Confirm {
        let dest = d.job.dest;
        assert(dest.drop_last() =~= top.job.dest);
        assert forall|i: int| 0 <= i < dest.len() implies is_safe(
            #[trigger] dest[i],
            c.opts.host,
        ) by {
            if i < dest.len() - 1 {
                assert(dest[i] == top.job.dest[i]);
            }
        }
    }
}

/// Every step keeps a copy in hand.
pub proof fn law_step_stays_in_hand(f: FsView, c: CopierView)
    requires
        in_hand(c),
    ensures
        in_hand(copy_step(f, c).copier),
{
    match c.phase {
        PhaseView::Start => {
            reveal(start_step);
        },
        PhaseView::Next => {
            if c.stack.len() > 0 {
                lemma_next_in_hand(c);
            }
        },
        PhaseView::List(_) => {
            reveal(list_step);
            let d = copy_step(f, c).copier;
            if d.stack.len() > c.stack.len() {
                lemma_push_job(c.stack, d.stack.last(), c.opts.host);
                assert(d.stack =~= c.stack.push(d.stack.last()));
            }
        },
        PhaseView::Sift(_) => {
            reveal(sift_step);
        },
        PhaseView::Leaf(_) => {
            reveal(leaf_step);
        },
        _ => {},
    }
}

/// So does whatever the host says.
pub proof fn law_told_stays_in_hand(c: CopierView, t: ToldView)
    requires
        in_hand(c),
    ensures
        in_hand(copy_told(c, t)),
{
    let d = copy_told(c, t);
    if c.phase is StampDir {
        lemma_same_jobs(c.stack, d.stack, c.opts.host);
    }
    if c.phase is Into && t is Yes {
        let dest = d.job.dest;
        let segment = crate::copy::last_segment(c.job.src);
        law_host_name_is_safe(segment, c.opts.host);
        law_partial_names_are_safe(host_name_of(segment, c.opts.host), c.opts.host);
        assert forall|i: int| 0 <= i < dest.len() implies is_safe(
            #[trigger] dest[i],
            c.opts.host,
        ) by {
            if i < c.job.dest.len() {
                assert(dest[i] == c.job.dest[i]);
            }
        }
    }
}

/// The temporary place beside a place, with the name `part`. That of the destination itself
/// stands beside the destination, under the name that goes with the one the user gave.
pub open spec fn part_of(dest: Seq<Seq<char>>, part: Seq<char>) -> Seq<Seq<Seq<char>>> {
    if dest.len() == 0 {
        seq![]
    } else {
        seq![dest.drop_last().push(part)]
    }
}

/// The places below the destination that an action is about.
pub open spec fn places_of(a: ActionView) -> Seq<Seq<Seq<char>>> {
    match a {
        ActionView::IsDir(d) => seq![d],
        ActionView::Examine(d) => seq![d],
        ActionView::MakeDir(d) => seq![d],
        ActionView::Remove(d) => seq![d],
        ActionView::ExaminePart { dest, part } => part_of(dest, part),
        ActionView::RemovePart { dest, part } => part_of(dest, part),
        ActionView::Confirm(d) => seq![d],
        ActionView::Symlink { dest, .. } => seq![dest],
        ActionView::Write { dest, part, .. } => part_of(dest, part),
        ActionView::Rename { dest, part } => part_of(dest, part).push(dest),
        ActionView::SetTime { dest, .. } => seq![dest],
        _ => seq![],
    }
}

proof fn lemma_part_is_inside(dest: Seq<Seq<char>>, part: Seq<char>, host: Host)
    requires
        is_inside(dest, host),
        dest.len() > 0 ==> is_safe(part, host),
    ensures
        forall|i: int|
            0 <= i < part_of(dest, part).len() ==> is_inside(
                #[trigger] part_of(dest, part)[i],
                host,
            ),
{
    if dest.len() > 0 {
        let place = part_of(dest, part)[0];
        assert forall|i: int| 0 <= i < place.len() implies is_safe(#[trigger] place[i], host) by {
            if i < place.len() - 1 {
                assert(place[i] == dest[i]);
            }
        }
    }
}

/// Nothing is ever done outside the destination that the user named, whatever names the
/// filesystem holds: neither in the place of an entry nor in the temporary one beside it.
pub proof fn law_nothing_is_done_outside(f: FsView, c: CopierView)
    requires
        in_hand(c),
    ensures
        forall|i: int|
            0 <= i < places_of(copy_step(f, c).action).len() ==> is_inside(
                #[trigger] places_of(copy_step(f, c).action)[i],
                c.opts.host,
            ),
{
    reveal(start_step);
    reveal(sift_step);
    reveal(leaf_step);
    reveal(list_step);
    lemma_part_is_inside(c.job.dest, c.job.part, c.opts.host);
}

/// No two entries of a directory get names that the host takes for the same: a name given
/// to an entry was not taken, and is from then on. The temporary name of an entry is neither its
/// own nor that of an entry before it, so nothing that was copied is written over.
pub proof fn law_names_do_not_collide(c: CopierView)
    requires
        c.stack.len() > 0,
        next_entry(c).phase is Confirm,
        !(c.phase is Confirm),
    ensures
        ({
            let d = next_entry(c);
            let top = c.stack.last();
            let name = folded(d.job.dest.last(), c.opts.host);
            let part = folded(d.job.part, c.opts.host);
            &&& d.job.dest == top.job.dest.push(d.job.dest.last())
            &&& !top.taken.contains(name)
            &&& d.stack.last().taken == top.taken.insert(name)
            &&& !top.taken.contains(part)
            &&& part != name
        }),
{
    reveal(next_entry);
    let top = c.stack.last();
    let base = host_name_of(utf8_lossy(top.entries[top.next].name), c.opts.host);
    law_chosen_name_is_free(base, top.taken, c.opts.host, 0);
    if let Some(chosen) = first_free(base, top.taken, c.opts.host, 0) {
        let taken = top.taken.insert(folded(chosen, c.opts.host));
        law_chosen_name_is_free(partial_of(chosen), taken, c.opts.host, 0);
    }
}

/// A file is moved into its place only after it was written whole: no step leads there, and
/// being told leads there only from a write that is done.
pub proof fn law_only_whole_files_are_moved(f: FsView, c: CopierView, t: ToldView)
    requires
        !(c.phase is Move),
    ensures
        !(copy_step(f, c).copier.phase is Move),
        copy_told(c, t).phase is Move ==> c.phase is Write && t == ToldView::Done,
{
    reveal(start_step);
    reveal(sift_step);
    reveal(leaf_step);
    reveal(list_step);
    reveal(next_entry);
}

/// The action that was asked for is one whose failure loses the entry.
pub open spec fn is_vital(phase: PhaseView) -> bool {
    match phase {
        PhaseView::MakeDir(_)
        | PhaseView::NoteDir(_)
        | PhaseView::Clear(_)
        | PhaseView::ClearPart(_)
        | PhaseView::Target(_)
        | PhaseView::NoteLink(_, _)
        | PhaseView::Write(_)
        | PhaseView::Move(_)
        | PhaseView::NoteFile(_) => true,
        _ => false,
    }
}

/// Failures are never forgotten: their number only grows, and an entry that cannot be
/// copied is counted and warned of, while the copy goes on with the next.
pub proof fn law_failures_are_counted(f: FsView, c: CopierView, t: ToldView)
    ensures
        copy_step(f, c).copier.report.failures >= c.report.failures,
        copy_told(c, t).report.failures >= c.report.failures,
        is_vital(c.phase) && t is Failed && c.stack.len() > 0 ==> {
            let d = copy_told(c, t);
            &&& d.report.failures == plus(c.report.failures, 1)
            &&& d.report.warnings.len() == c.report.warnings.len() + 1
            &&& d.phase == PhaseView::Next
        },
{
    reveal(start_step);
    reveal(sift_step);
    reveal(leaf_step);
    reveal(list_step);
    reveal(next_entry);
}

/// A copy with failures never ends as a success: it ends on an error with an exit code of
/// its own.
pub proof fn law_incomplete_copies_do_not_pass(r: ReportView)
    ensures
        r.failures > 0 <==> verdict_of(r) is Err,
        verdict_of(r) matches Err(e) ==> exit_code_of(e.kind) == 5,
{
}

/// What is in a place is about to be removed only where the user allowed it.
pub open spec fn is_permitted(c: CopierView) -> bool {
    c.phase is Clear ==> c.opts.force
}

/// The host found a link in the place that was asked about.
pub open spec fn is_link(t: ToldView) -> bool {
    t matches ToldView::Found { thing, .. } && thing == Thing::Symlink
}

/// The host found nothing in the place that was asked about.
pub open spec fn is_nothing(t: ToldView) -> bool {
    t matches ToldView::Found { thing, .. } && thing == Thing::Nothing
}

/// Nothing on the host is overwritten without leave: the removal of what is in a place is only
/// ever asked for under `force`, and how a file is copied is decided only once its place was
/// found empty or was emptied. Nothing is written through a link: a file is written only once
/// its temporary place was found empty or was emptied, and a link there is removed only under
/// `force`. What an earlier run may have left there is taken over.
#[verifier::rlimit(40)]
pub proof fn law_nothing_is_overwritten(f: FsView, c: CopierView, t: ToldView)
    requires
        is_permitted(c),
    ensures
        is_permitted(copy_step(f, c).copier),
        is_permitted(copy_told(c, t)),
        copy_step(f, c).action is Remove ==> c.opts.force,
        copy_step(f, c).action is RemovePart ==> c.phase is ClearPart,
        !(c.phase is ClearPart) ==> !(copy_step(f, c).copier.phase is ClearPart),
        copy_told(c, t).phase is ClearPart && !(c.phase is ClearPart) ==> c.phase is LookPart && (
        is_link(t) ==> c.opts.force),
        copy_told(c, t).phase is Leaf && !(c.phase is Leaf) ==> c.phase is LookLeaf && is_nothing(t)
            || c.phase is Clear && t == ToldView::Done,
        !(c.phase is Leaf) ==> !(copy_step(f, c).copier.phase is Leaf),
        copy_step(f, c).copier.phase is LookPart && !(c.phase is LookPart) ==> c.phase is Leaf,
        copy_told(c, t).phase is LookPart ==> c.phase is LookPart,
        copy_told(c, t).phase is Write && !(c.phase is Write) ==> c.phase is LookPart && is_nothing(
            t,
        ) || c.phase is ClearPart && t == ToldView::Done,
        !(c.phase is Write) ==> !(copy_step(f, c).copier.phase is Write),
{
    reveal(start_step);
    reveal(sift_step);
    reveal(leaf_step);
    reveal(list_step);
    reveal(next_entry);
}

/// What is to be known of the entry is known before anything of the user's is removed: from
/// its start on, the same inode goes with the job until the file stands in its place.
pub proof fn law_the_inode_is_kept(f: FsView, c: CopierView, t: ToldView, i: Inode)
    requires
        c.phase == PhaseView::LookLeaf(i) || c.phase == PhaseView::Clear(i) || c.phase
            == PhaseView::Leaf(i) || c.phase == PhaseView::LookPart(i) || c.phase
            == PhaseView::ClearPart(i) || c.phase == PhaseView::Write(i),
    ensures
        !(copy_step(f, c).action is Read),
        match copy_told(c, t).phase {
            PhaseView::Clear(j) => j == i,
            PhaseView::Leaf(j) => j == i,
            PhaseView::LookPart(j) => j == i,
            PhaseView::ClearPart(j) => j == i,
            PhaseView::Write(j) => j == i,
            PhaseView::Move(j) => j == i,
            _ => true,
        },
{
    reveal(leaf_step);
}

/// An entry that a pattern excludes, by its name or by its path below the source, is counted
/// and passed over: no place is given to it.
pub proof fn law_excluded_entries_are_left_out(f: FsView, c: CopierView)
    requires
        c.phase == PhaseView::Next,
        c.stack.len() > 0,
        c.stack.last().next < c.stack.last().entries.len(),
        ({
            let top = c.stack.last();
            let name = utf8_lossy(top.entries[top.next].name);
            c.opts.exclude.contains(name) || c.opts.exclude.contains(
                child_rel(top.job.rel, name),
            )
        }),
    ensures
        ({
            let d = copy_step(f, c).copier;
            &&& d.phase == PhaseView::Next
            &&& d.job == c.job
            &&& d.report == (ReportView { excluded: plus(c.report.excluded, 1), ..c.report })
            &&& d.stack.last().next == c.stack.last().next + 1
        }),
{
    reveal(next_entry);
}

/// Under `one_subvolume` another subvolume is passed over, and under `no_snapshots` a
/// snapshot is: such an entry is counted, and the copy goes on with the next.
pub proof fn law_other_subvolumes_are_left_out(f: FsView, c: CopierView)
    requires
        c.phase == PhaseView::Sift(true),
        c.stack.len() > 0,
        !placeholder(c.job.loc),
        ({
            ||| c.opts.one_subvolume && c.job.loc.tree != c.stack.last().job.loc.tree
            ||| c.opts.no_snapshots && snapshot_of(f, c.job.loc.tree) == Ok::<bool, StopView>(true)
        }),
    ensures
        ({
            let d = copy_step(f, c).copier;
            &&& d.phase == PhaseView::Next
            &&& d.stack == c.stack
            &&& d.report == (ReportView { excluded: plus(c.report.excluded, 1), ..c.report })
        }),
{
    reveal(sift_step);
}

/// The job has been taken up, and nothing is said of it in the report yet.
pub open spec fn is_uncounted(phase: PhaseView) -> bool {
    match phase {
        PhaseView::Start | PhaseView::Enter(_) | PhaseView::LookDir(_) | PhaseView::MakeDir(_)
        | PhaseView::Confirm(_) | PhaseView::Sift(_) | PhaseView::LookLeaf(_) | PhaseView::Clear(_)
        | PhaseView::Leaf(_) | PhaseView::LookPart(_) | PhaseView::ClearPart(_) | PhaseView::Target(_) | PhaseView::NoteLink(_, _) | PhaseView::Link(_)
        | PhaseView::Write(_) | PhaseView::Move(_) | PhaseView::Stamp(_) => true,
        _ => false,
    }
}

/// The counters have room.
pub open spec fn has_room(r: ReportView) -> bool {
    &&& r.files < u64::MAX
    &&& r.dirs < u64::MAX
    &&& r.symlinks < u64::MAX
    &&& r.excluded < u64::MAX
    &&& r.failures < u64::MAX
}

/// How much a report says.
pub open spec fn said(r: ReportView) -> int {
    r.files + r.dirs + r.symlinks + r.excluded + r.failures + r.warnings.len()
}

/// No entry is dropped in silence. The next entry of a directory is taken up, or counted as
/// excluded or failed; and a job that was taken up is left for the next only with something
/// said of it: that it was copied, that it was excluded, that it failed, or a warning.
pub proof fn law_no_entry_is_dropped_in_silence(f: FsView, c: CopierView, t: ToldView)
    requires
        has_room(c.report),
    ensures
        c.phase == PhaseView::Next && c.stack.len() > 0 && c.stack.last().next
            < c.stack.last().entries.len() ==> {
            let d = copy_step(f, c).copier;
            let top = c.stack.last();
            &&& d.stack.last().next == top.next + 1
            &&& {
                ||| d.phase is Confirm && d.job.loc == top.entries[top.next].loc
                ||| d.phase is Next && d.report.excluded == c.report.excluded + 1
                ||| d.phase is Next && d.report.failures == c.report.failures + 1
            }
        },
        is_uncounted(c.phase) ==> {
            let d = copy_step(f, c).copier;
            said(d.report) > said(c.report) || is_uncounted(d.phase) || d.phase is Into
                || d.phase is Over
        },
        is_uncounted(c.phase) ==> {
            let d = copy_told(c, t);
            said(d.report) > said(c.report) || is_uncounted(d.phase) || d.phase is Over
        },
{
    reveal(start_step);
    reveal(sift_step);
    reveal(leaf_step);
    reveal(list_step);
    reveal(next_entry);
}

} // verus!
