//! Paths within the filesystem.

use vstd::prelude::*;
use vstd::string::*;
use vstd::utf8::*;

use crate::disk::{mode_is_dir, mode_is_symlink};
use crate::error::{about, Error, ErrorKind, ErrorView, NotFound};
use crate::fs::{Fs, FsView, Stop, StopView};
use crate::lookup::{inode_at, lookup_of, placeholder, root_of, Loc};
use crate::text::{chars_of, debug_text, lossy, quoted, string_of, utf8_lossy};

verus! {

/// A character that parts the components of a path.
pub open spec fn is_separator(c: char) -> bool {
    c == '/' || c == '\\'
}

/// The text between separators, empty texts too.
pub open spec fn split(path: Seq<char>) -> Seq<Seq<char>>
    decreases path.len(),
{
    if path.len() == 0 {
        seq![seq![]]
    } else {
        let front = split(path.drop_last());
        if is_separator(path.last()) {
            front.push(seq![])
        } else {
            front.drop_last().push(front.last().push(path.last()))
        }
    }
}

/// A component that leads somewhere: not empty, and not `.`.
pub open spec fn is_step(part: Seq<char>) -> bool {
    part.len() > 0 && part != seq!['.']
}

/// The components of a path.
pub open spec fn components(path: Seq<char>) -> Seq<Seq<char>> {
    split(path).filter(|p: Seq<char>| is_step(p))
}

/// What a path leads to.
pub enum Resolved {
    At(Loc),
    /// A symlink stands where a directory is needed; `path` is where.
    Link { loc: Loc, path: String },
}

#[verifier::ext_equal]
pub enum ResolvedView {
    At(Loc),
    Link { loc: Loc, path: Seq<char> },
}

impl View for Resolved {
    type V = ResolvedView;

    open spec fn view(&self) -> ResolvedView {
        match self {
            Resolved::At(loc) => ResolvedView::At(*loc),
            Resolved::Link { loc, path } => ResolvedView::Link { loc: *loc, path: path@ },
        }
    }
}

/// Where the components from number `k` on lead, from the directory on top of `stack`,
/// below which are the directories it was reached by. `walked` is the path so far.
pub open spec fn resolved_from(
    f: FsView,
    parts: Seq<Seq<char>>,
    k: int,
    stack: Seq<Loc>,
    walked: Seq<char>,
) -> Result<ResolvedView, StopView>
    decreases parts.len() - k,
{
    let dir = stack.last();
    let part = parts[k];
    let path = walked + seq!['/'] + part;
    if k >= parts.len() {
        Ok(ResolvedView::At(dir))
    } else if part == seq!['.', '.'] {
        resolved_from(
            f,
            parts,
            k + 1,
            if stack.len() > 1 {
                stack.drop_last()
            } else {
                stack
            },
            walked,
        )
    } else if !placeholder(dir) && inode_at(f, dir) is Err {
        Err(inode_at(f, dir)->Err_0)
    } else if !placeholder(dir) && mode_is_symlink((inode_at(f, dir)->Ok_0).mode) {
        Ok(ResolvedView::Link { loc: dir, path: walked })
    } else if !placeholder(dir) && !mode_is_dir((inode_at(f, dir)->Ok_0).mode) {
        Err(StopView::Error(about(ErrorKind::NotADirectory, walked)))
    } else {
        match lookup_of(f, dir, encode_utf8(part)) {
            Err(s) => Err(s),
            Ok(None) => Err(StopView::Error(about(ErrorKind::NotFound, path))),
            Ok(Some(e)) => resolved_from(f, parts, k + 1, stack.push(e.loc), path),
        }
    }
}

/// Where a path leads, from the top-level subvolume, in which every other subvolume appears
/// as a directory. Symlinks are not followed.
pub open spec fn resolved(f: FsView, path: Seq<char>) -> Result<ResolvedView, StopView> {
    match root_of(f) {
        Err(s) => Err(s),
        Ok(root) => resolved_from(f, components(path), 0, seq![root], seq![]),
    }
}

/// What is said of a symlink on the way: its path and the target it has.
pub open spec fn link_error(path: Seq<char>, target: Seq<u8>) -> ErrorView {
    ErrorView {
        kind: ErrorKind::IsSymlink,
        subject: path,
        detail: debug_text(utf8_lossy(target)),
        context: seq![],
    }
}

fn step(part: &Vec<char>) -> (r: bool)
    ensures
        r == is_step(part@),
{
    if part.len() == 1 && part[0] == '.' {
        assert(part@ =~= seq!['.']);
        return false;
    }
    part.len() > 0
}

fn parent(part: &Vec<char>) -> (r: bool)
    ensures
        r == (part@ == seq!['.', '.']),
{
    let r = part.len() == 2 && part[0] == '.' && part[1] == '.';
    proof {
        if r {
            assert(part@ =~= seq!['.', '.']);
        }
    }
    r
}

/// The components of each of a list of texts.
pub open spec fn char_views(s: Seq<Vec<char>>) -> Seq<Seq<char>> {
    Seq::new(s.len(), |i: int| s[i]@)
}

/// The components of `path`.
pub fn parts(path: &str) -> (r: Vec<Vec<char>>)
    ensures
        char_views(r@) == components(path@),
{
    let all = chars_of(path);
    let ghost pred = |p: Seq<char>| is_step(p);
    let ghost mut done: Seq<Seq<char>> = seq![];
    let mut out: Vec<Vec<char>> = Vec::new();
    let mut cur: Vec<char> = Vec::new();
    let mut i: usize = 0;
    proof {
        assert(all@.take(0) =~= seq![]);
        assert(done.push(cur@) =~= seq![seq![]]);
        reveal(Seq::filter);
        assert(char_views(out@) =~= done.filter(pred));
    }
    while i < all.len()
        invariant
            i <= all@.len(),
            pred == |p: Seq<char>| is_step(p),
            split(all@.take(i as int)) == done.push(cur@),
            char_views(out@) == done.filter(pred),
        decreases all@.len() - i,
    {
        let c = all[i];
        let ghost part = all@.take(i + 1);
        assert(part.drop_last() =~= all@.take(i as int));
        assert(part.last() == c);
        if c == '/' || c == '\\' {
            let ghost sofar = char_views(out@);
            let ghost v = cur@;
            proof {
                lemma_filter_push(done, v, pred);
            }
            if step(&cur) {
                out.push(cur);
                assert(char_views(out@) =~= sofar.push(v));
            }
            proof {
                done = done.push(v);
            }
            cur = Vec::new();
            assert(cur@ =~= seq![]);
        } else {
            let ghost v = cur@;
            cur.push(c);
            assert(done.push(v).drop_last() =~= done);
        }
        i += 1;
    }
    assert(all@.take(i as int) =~= path@);
    let ghost sofar = char_views(out@);
    let ghost v = cur@;
    proof {
        lemma_filter_push(done, v, pred);
    }
    if step(&cur) {
        out.push(cur);
        assert(char_views(out@) =~= sofar.push(v));
    }
    out
}

proof fn lemma_filter_push<A>(s: Seq<A>, x: A, pred: spec_fn(A) -> bool)
    ensures
        s.push(x).filter(pred) == if pred(x) {
            s.filter(pred).push(x)
        } else {
            s.filter(pred)
        },
{
    reveal(Seq::filter);
    assert(s.push(x).drop_last() =~= s);
}

/// The error for a symlink on the way, once its target has been read.
pub fn symlink_error(path: String, target: &[u8]) -> (e: Error)
    ensures
        e@ == link_error(path@, target@),
{
    let detail = quoted(lossy(target).as_str());
    Error { kind: ErrorKind::IsSymlink, subject: path, detail, context: String::new() }
}

impl Fs {
    /// Resolves a path from the top-level subvolume, where every other subvolume appears as
    /// a directory. Symlinks are not followed: their targets refer to a mount layout that
    /// cannot be known here.
    pub fn resolve(&self, path: &str) -> (r: Result<Resolved, Stop>)
        requires
            self@.wf(),
        ensures
            match r {
                Ok(x) => resolved(self@, path@) == Ok::<ResolvedView, StopView>(x@),
                Err(s) => resolved(self@, path@) == Err::<ResolvedView, StopView>(s@),
            },
    {
        let root = self.root()?;
        let all = parts(path);
        let ghost comps = char_views(all@);
        let mut stack: Vec<Loc> = Vec::new();
        stack.push(root);
        let mut walked = String::new();
        let mut k: usize = 0;
        assert(stack@ =~= seq![root]);
        assert(walked@ =~= seq![]);
        while k < all.len()
            invariant
                self@.wf(),
                k <= all@.len(),
                stack@.len() > 0,
                comps == char_views(all@),
                resolved(self@, path@) == resolved_from(
                    self@,
                    comps,
                    k as int,
                    stack@,
                    walked@,
                ),
            decreases all@.len() - k,
        {
            let part = &all[k];
            assert(comps[k as int] == part@);
            if parent(part) {
                if stack.len() > 1 {
                    let ghost before = stack@;
                    stack.pop();
                    assert(stack@ =~= before.drop_last());
                }
                k += 1;
                continue;
            }
            let dir = stack[stack.len() - 1];
            if !Self::is_placeholder(dir) {
                let inode = self.inode(dir)?;
                if inode.is_symlink() {
                    return Ok(Resolved::Link { loc: dir, path: walked });
                }
                if !inode.is_dir() {
                    return Err(Stop::Error(Error::about(ErrorKind::NotADirectory, walked)));
                }
            }
            let ghost before = walked@;
            let name = string_of(part);
            walked.push('/');
            walked.append(name.as_str());
            assert(walked@ =~= before + seq!['/'] + part@);
            match self.lookup(dir, name.as_str().as_bytes())? {
                Some(e) => {
                    stack.push(e.loc);
                },
                None => {
                    return Err(Stop::Error(NotFound(walked).error()));
                },
            }
            k += 1;
        }
        Ok(Resolved::At(stack[stack.len() - 1]))
    }
}

/// A path that climbs above the top stays at the top: leading `..` change nothing.
pub proof fn law_parent_of_the_top_is_the_top(f: FsView, parts: Seq<Seq<char>>, root: Loc)
    requires
        parts.len() > 0,
        parts[0] == seq!['.', '.'],
    ensures
        resolved_from(f, parts, 0, seq![root], seq![]) == resolved_from(
            f,
            parts,
            1,
            seq![root],
            seq![],
        ),
{
}

proof fn lemma_split_join(a: Seq<char>, b: Seq<char>)
    ensures
        split(a + seq!['/'] + b) == split(a) + split(b),
        split(b).len() > 0,
    decreases b.len(),
{
    let s = a + seq!['/'] + b;
    if b.len() == 0 {
        assert(s.drop_last() =~= a);
        assert(s.last() == '/');
        assert(split(a).push(seq![]) =~= split(a) + split(b));
    } else {
        lemma_split_join(a, b.drop_last());
        assert(s.drop_last() =~= a + seq!['/'] + b.drop_last());
        assert(s.last() == b.last());
        let front = split(b.drop_last());
        let c = b.last();
        if is_separator(c) {
            assert((split(a) + front).push(seq![]) =~= split(a) + front.push(seq![]));
        } else {
            assert((split(a) + front).drop_last().push((split(a) + front).last().push(c))
                =~= split(a) + front.drop_last().push(front.last().push(c)));
        }
    }
}

/// Two paths joined by a slash have the components of the first, then those of the second:
/// repeated separators and `.` make no difference.
pub proof fn law_joined_paths(a: Seq<char>, b: Seq<char>)
    ensures
        components(a + seq!['/'] + b) == components(a) + components(b),
{
    lemma_split_join(a, b);
    Seq::filter_distributes_over_add(split(a), split(b), |p: Seq<char>| is_step(p));
}

proof fn lemma_split_parts(path: Seq<char>, i: int, k: int)
    requires
        0 <= i < split(path).len(),
        0 <= k < split(path)[i].len(),
    ensures
        !is_separator(split(path)[i][k]),
    decreases path.len(),
{
    if path.len() > 0 {
        let front = split(path.drop_last());
        lemma_split_join(seq![], path.drop_last());
        if i < front.len() && (is_separator(path.last()) || i < front.len() - 1) {
            lemma_split_parts(path.drop_last(), i, k);
        } else if !is_separator(path.last()) && k < front.last().len() {
            lemma_split_parts(path.drop_last(), i, k);
        }
    }
}

/// No component is empty or `.`, and none holds a separator.
pub proof fn law_components_are_names(path: Seq<char>)
    ensures
        forall|i: int|
            0 <= i < components(path).len() ==> is_step(#[trigger] components(path)[i]) && forall|
                k: int,
            |
                0 <= k < components(path)[i].len() ==> !is_separator(
                    #[trigger] components(path)[i][k],
                ),
{
    let pred = |p: Seq<char>| is_step(p);
    let all = split(path);
    assert forall|i: int| 0 <= i < components(path).len() implies is_step(
        #[trigger] components(path)[i],
    ) && forall|k: int|
        0 <= k < components(path)[i].len() ==> !is_separator(#[trigger] components(path)[i][k]) by {
        all.lemma_filter_pred(pred, i);
        lemma_filter_from(all, pred, i);
        let j = all.index_of(components(path)[i]);
        assert forall|k: int| 0 <= k < components(path)[i].len() implies !is_separator(
            #[trigger] components(path)[i][k],
        ) by {
            lemma_split_parts(path, j, k);
        }
    }
}

/// What is left after filtering was there before.
proof fn lemma_filter_from<A>(s: Seq<A>, pred: spec_fn(A) -> bool, i: int)
    requires
        0 <= i < s.filter(pred).len(),
    ensures
        s.contains(s.filter(pred)[i]),
    decreases s.len(),
{
    reveal(Seq::filter);
    if s.len() > 0 {
        let front = s.drop_last();
        if i < front.filter(pred).len() {
            lemma_filter_from(front, pred, i);
            let k = front.index_of(front.filter(pred)[i]);
            assert(s[k] == s.filter(pred)[i]);
        } else {
            assert(s[s.len() - 1] == s.filter(pred)[i]);
        }
    }
}

/// Everything that a path goes through below a directory is a directory: where a symlink
/// stands on the way, the path leads no further, and the link is reported in its place.
pub proof fn law_links_are_not_followed(
    f: FsView,
    parts: Seq<Seq<char>>,
    k: int,
    stack: Seq<Loc>,
    walked: Seq<char>,
)
    requires
        0 <= k < parts.len(),
        parts[k] != seq!['.', '.'],
        !placeholder(stack.last()),
        inode_at(f, stack.last()) matches Ok(i) && mode_is_symlink(i.mode),
    ensures
        resolved_from(f, parts, k, stack, walked) == Ok::<ResolvedView, StopView>(
            ResolvedView::Link { loc: stack.last(), path: walked },
        ),
{
}

} // verus!
