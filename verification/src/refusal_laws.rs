//! What is refused: trees that do not hang together, extents and symlinks that cannot be, frames
//! that are cut off, patterns that are nested too deep.

use globset::Glob;
use vstd::prelude::*;

use crate::decompress::{lzo_of, HaltView, SegmentView};
use crate::disk::{ExtentKindView, ExtentView, Inode, Key};
use crate::error::{ErrorKind, ErrorView};
use crate::format_laws::{holds, law_the_numbers_of_the_format};
use crate::fs::{nritems_of, FsView, StopView};
use crate::glob::{all_parsed, first_deep, nesting, open_groups};
use crate::lookup::{inode_at, span, Loc, TreeRoot};
use crate::range::{entered, reader_of, target_reader, Packed};
use crate::sound::{asked, contents, law_contents_ascend, law_walk_finds_the_range, sound, spans};
use crate::subvol::{first_ref, parent_of, ref_name};
use crate::tree::{inner_walk, node_walk, ptr_of, ItemView, Query};

verus! {

/// A child that does not stand one level below the block that points to it is an error, and
/// nothing of it is taken.
pub proof fn law_levels_must_descend(
    f: FsView,
    logical: u64,
    q: Query,
    depth: int,
    b: Seq<u8>,
    expected: u8,
)
    requires
        f.node(logical) == Ok::<Seq<u8>, StopView>(b),
        b[100] != expected,
    ensures
        ({
            let w = node_walk(f, logical, q, depth, Some(expected));
            &&& w.items.len() == 0
            &&& w.end matches Err(StopView::Error(e)) && e.kind == (ErrorKind::WrongLevel {
                logical,
                level: b[100] as u64,
                expected: expected as u64,
            })
        }),
{
}

/// So it is wherever the walk of a block comes to such a child: what a block of one level points to
/// must be of the level below. Below the eighth level nothing is walked any more, and a child that
/// cannot be had is an error too.
pub proof fn law_children_must_be_one_level_lower(
    f: FsView,
    b: Seq<u8>,
    q: Query,
    depth: int,
    i: int,
    key: Key,
    child: u64,
)
    requires
        b.len() > 100,
        0 <= i < nritems_of(b),
        b[100] > 0,
        ptr_of(b, i) == Ok::<(Key, u64), ErrorView>((key, child)),
        !q.max.precedes(key),
        i + 1 < nritems_of(b) ==> (ptr_of(b, i + 1) matches Ok((k, _)) && q.min.precedes(k)),
    ensures
        depth >= 8 ==> (inner_walk(f, b, q, depth, i).end matches Err(StopView::Error(e)) && e.kind
            == ErrorKind::TooDeep),
        depth < 8 ==> match f.node(child) {
            Ok(c) => c[100] != b[100] - 1 ==> (inner_walk(f, b, q, depth, i).end matches Err(
                StopView::Error(e),
            ) && e.kind == (ErrorKind::WrongLevel {
                logical: child,
                level: c[100] as u64,
                expected: (b[100] - 1) as u64,
            })),
            Err(s) => inner_walk(f, b, q, depth, i).end == Err::<bool, StopView>(s),
        },
{
    let expected = (b[100] - 1) as u8;
    match f.node(child) {
        Ok(c) => if c[100] != b[100] - 1 {
            law_levels_must_descend(f, child, q, depth + 1, c, expected);
        },
        Err(s) => law_missing_blocks_end_the_walk(f, child, q, depth + 1, Some(expected), s),
    }
}

/// A block that cannot be had ends the walk with the reason.
pub proof fn law_missing_blocks_end_the_walk(
    f: FsView,
    logical: u64,
    q: Query,
    depth: int,
    expect: Option<u8>,
    s: StopView,
)
    requires
        f.node(logical) == Err::<Seq<u8>, StopView>(s),
    ensures
        node_walk(f, logical, q, depth, expect).items.len() == 0,
        node_walk(f, logical, q, depth, expect).end == Err::<bool, StopView>(s),
{
}

/// An inline extent cannot be larger than the block it is in, and a compressed one, packed or
/// unpacked, not larger than 2 to the 30th bytes. An address cannot be past the highest.
pub proof fn law_implausible_extents_are_refused(
    f: FsView,
    last: Option<(Packed, Seq<u8>)>,
    e: ExtentView,
)
    ensures
        match e.kind {
            ExtentKindView::Inline(_) => entered(f, last, e) is Err <==> e.ram_bytes > f.sb.nodesize,
            ExtentKindView::Regular { disk_bytenr, disk_num_bytes, offset } => entered(
                f,
                last,
                e,
            ) is Err <==> disk_bytenr != 0 && (if e.compression == 0 {
                disk_bytenr + offset >= 0x1_0000_0000_0000_0000
            } else {
                e.ram_bytes > 1024 * 1024 * 1024 || disk_num_bytes > 1024 * 1024 * 1024
            }),
            ExtentKindView::Prealloc => entered(f, last, e) is Ok,
        },
{
}

/// The target of a symlink is all that its inode says it is, from the start, unless that is more
/// than 4096 bytes.
pub proof fn law_targets_are_read_whole(f: FsView, loc: Loc, i: Inode)
    requires
        inode_at(f, loc) == Ok::<Inode, StopView>(i),
    ensures
        i.size > 4096 ==> (target_reader(f, loc) matches Err(StopView::Error(e)) && e.kind
            == (ErrorKind::SymlinkSize { size: i.size })),
        i.size <= 4096 ==> (target_reader(f, loc) matches Ok(r) ==> r.pos == 0 && r.end == i.size),
        i.size <= 4096 ==> target_reader(f, loc) == reader_of(f, loc, 0, i.size),
{
}

/// A frame that is too short for its length, or that says it is longer than the bytes there are
/// or shorter than its own length, is an error.
pub proof fn law_broken_frames_are_errors(
    src: Seq<u8>,
    size: int,
    sectorsize: int,
    segs: Seq<SegmentView>,
    total: int,
)
    requires
        src.len() < 4 || (holds(src, 0, 4, total) && 0 <= total <= u32::MAX && (total < 4 || total
            > src.len())),
    ensures
        lzo_of(src, size, sectorsize, segs) matches Err(HaltView::Error(_)),
{
    if src.len() >= 4 {
        reveal_with_fuel(crate::format_laws::beyond, 5);
        crate::format_laws::law_numbers_read_as_written(src, 0, 4, total as nat);
    }
}

/// So is a frame whose first segment has no bytes, or reaches past its end, or does not decode, or
/// decodes to more than a sector.
pub proof fn law_broken_segments_are_errors(
    src: Seq<u8>,
    size: int,
    sectorsize: int,
    segs: Seq<SegmentView>,
    total: int,
    len: int,
)
    requires
        sectorsize >= 8,
        size >= 0,
        holds(src, 0, 4, total),
        8 <= total <= src.len(),
        total <= u32::MAX,
        holds(src, 4, 4, len),
        0 <= len <= u32::MAX,
        len == 0 || 8 + len > total || (segs.len() > 0 && match segs[0] {
            SegmentView::Plain(b) => b.len() > sectorsize,
            _ => true,
        }),
    ensures
        lzo_of(src, size, sectorsize, segs) matches Err(HaltView::Error(_)),
{
    reveal_with_fuel(crate::format_laws::beyond, 5);
    crate::format_laws::law_numbers_read_as_written(src, 0, 4, total as nat);
    crate::format_laws::law_numbers_read_as_written(src, 4, 4, len as nat);
    assert(4int % sectorsize == 4) by (nonlinear_arith)
        requires
            sectorsize >= 8,
    ;
}

/// How often the character stands in the text.
pub open spec fn count_of(s: Seq<char>, c: char) -> int
    decreases s.len(),
{
    if s.len() == 0 {
        0
    } else {
        count_of(s.drop_last(), c) + if s.last() == c {
            1int
        } else {
            0
        }
    }
}

/// Groups are nested no deeper than there are opening braces, and at least as deep as there are
/// more of them than closing ones; a pattern without any is not nested at all.
pub proof fn law_nesting_goes_by_braces(p: Seq<char>)
    ensures
        nesting(p) <= count_of(p, '{'),
        nesting(p) >= count_of(p, '{') - count_of(p, '}'),
        p.len() > 0 ==> nesting(p) >= nesting(p.drop_last()),
    decreases p.len(),
{
    lemma_open_groups(p);
    if p.len() > 0 {
        law_nesting_goes_by_braces(p.drop_last());
    }
}

proof fn lemma_open_groups(p: Seq<char>)
    ensures
        open_groups(p) <= count_of(p, '{'),
        open_groups(p) >= count_of(p, '{') - count_of(p, '}'),
    decreases p.len(),
{
    if p.len() > 0 {
        lemma_open_groups(p.drop_last());
    }
}

proof fn lemma_first_kept(s: Seq<ItemView>, pred: spec_fn(ItemView) -> bool, x: ItemView)
    requires
        forall|i: int, j: int|
            0 <= i < j < s.len() ==> (#[trigger] s[i]).key.precedes((#[trigger] s[j]).key),
        s.contains(x),
        pred(x),
        forall|i: int|
            0 <= i < s.len() && pred(#[trigger] s[i]) ==> !s[i].key.precedes(x.key),
    ensures
        s.filter(pred).len() > 0,
        s.filter(pred)[0] == x,
    decreases s.len(),
{
    reveal(Seq::filter);
    let k = s.index_of(x);
    let n = s.len() - 1;
    let front = s.drop_last();
    assert(s[k] == x);
    if k < n {
        assert(front[k] == x);
        assert forall|i: int, j: int| 0 <= i < j < front.len() implies (
        #[trigger] front[i]).key.precedes((#[trigger] front[j]).key) by {
            assert(front[i] == s[i] && front[j] == s[j]);
        }
        assert forall|i: int| 0 <= i < front.len() && pred(#[trigger] front[i]) implies
            !front[i].key.precedes(x.key) by {
            assert(front[i] == s[i]);
        }
        lemma_first_kept(front, pred, x);
    } else {
        assert forall|i: int| 0 <= i < front.len() implies !pred(#[trigger] front[i]) by {
            assert(s[i].key.precedes(s[n].key));
        }
        crate::object_laws::lemma_none_kept(front, pred);
    }
}

/// The directory that an inode is in is told by the first of its items of type 12: their keys
/// give the directory, and their bytes the name.
pub proof fn law_parents_are_found(
    f: FsView,
    root: TreeRoot,
    tree: u64,
    ino: u64,
    r: Query,
    parent: u64,
    d: Seq<u8>,
)
    requires
        sound(f, root.bytenr, r),
        spans(r, span(ino, 12)),
        contents(f, root.bytenr, r).contains(
            ItemView { key: Key { objectid: ino, ty: 12, offset: parent }, data: d },
        ),
        forall|i: int|
            0 <= i < contents(f, root.bytenr, r).len() && (#[trigger] contents(
                f,
                root.bytenr,
                r,
            )[i]).key.objectid == ino && contents(f, root.bytenr, r)[i].key.ty == 12 ==> contents(
                f,
                root.bytenr,
                r,
            )[i].key.offset >= parent,
    ensures
        match ref_name(d) {
            Ok(name) => parent_of(f, root, tree, ino) == Ok::<(u64, Seq<char>), StopView>(
                (parent, name),
            ),
            Err(e) => parent_of(f, root, tree, ino) == Err::<(u64, Seq<char>), StopView>(
                StopView::Error(e),
            ),
        },
{
    law_the_numbers_of_the_format();
    let q = first_ref(ino);
    let all = contents(f, root.bytenr, r);
    let pred = |x: ItemView| asked(q, x.key);
    let x = ItemView { key: Key { objectid: ino, ty: 12, offset: parent }, data: d };
    law_walk_finds_the_range(f, root.bytenr, r, q);
    law_contents_ascend(f, root.bytenr, r);
    lemma_first_kept(all, pred, x);
    if all.filter(pred).len() > 1 {
        assert(all.filter(pred).take(1)[0] == x);
    }
}

/// The first pattern that cannot be parsed is the error, under its own name and with what was said
/// of it; where all can, they are taken in their order.
pub proof fn law_bad_patterns_are_named(
    parsed: Seq<Result<Glob, Seq<char>>>,
    patterns: Seq<Seq<char>>,
    k: int,
)
    requires
        0 <= k <= parsed.len(),
        forall|i: int| 0 <= i < k ==> (#[trigger] parsed[i]) is Ok,
        k < parsed.len() ==> parsed[k] is Err,
    ensures
        k < parsed.len() ==> (all_parsed(parsed, patterns) matches Err(e) && e.kind
            == ErrorKind::BadGlob && e.detail == parsed[k]->Err_0 && e.context == "--exclude "@
            + patterns[k]),
        k == parsed.len() ==> (all_parsed(parsed, patterns) matches Ok(globs) && globs.len() == k
            && forall|i: int| 0 <= i < k ==> parsed[i] == Ok::<Glob, Seq<char>>(#[trigger] globs[i])),
    decreases parsed.len(),
{
    if parsed.len() > 0 {
        let front = parsed.drop_last();
        let n = parsed.len() - 1;
        if k < parsed.len() {
            assert forall|i: int| 0 <= i < k implies (#[trigger] front[i]) is Ok by {
                assert(front[i] == parsed[i]);
            }
            if k < n {
                assert(front[k] == parsed[k]);
            }
            law_bad_patterns_are_named(front, patterns, k);
        } else {
            assert forall|i: int| 0 <= i < n implies (#[trigger] front[i]) is Ok by {
                assert(front[i] == parsed[i]);
            }
            law_bad_patterns_are_named(front, patterns, n);
            let a = all_parsed(front, patterns)->Ok_0;
            let b = all_parsed(parsed, patterns)->Ok_0;
            assert(parsed[n] is Ok);
            assert forall|i: int| 0 <= i < k implies parsed[i] == Ok::<Glob, Seq<char>>(
                #[trigger] b[i],
            ) by {
                if i < n {
                    assert(b[i] == a[i] && front[i] == parsed[i]);
                }
            }
        }
    }
}

/// The first pattern nested deeper than 256 is the one refused; where none is, none is.
pub proof fn law_deep_patterns_are_named(patterns: Seq<Seq<char>>, from: int, k: int)
    requires
        0 <= from <= k <= patterns.len(),
        forall|i: int| from <= i < k ==> nesting(#[trigger] patterns[i]) <= 256,
        k < patterns.len() ==> nesting(patterns[k]) > 256,
    ensures
        first_deep(patterns, from) == if k < patterns.len() {
            Some(patterns[k])
        } else {
            None
        },
    decreases k - from,
{
    if from < k {
        assert(nesting(patterns[from]) <= 256);
        law_deep_patterns_are_named(patterns, from + 1, k);
    }
}

} // verus!
