//! What the host is asked for when links and files are written.

use vstd::prelude::*;
use vstd::string::*;

use crate::disk::mode_is_dir;
use crate::fs::{Fs, FsView, Request, Stop, StopView};
use crate::lookup::inode_at;
use crate::path::{resolved, Resolved, ResolvedView};
use crate::text::{chars_of, string_of, Text};

verus! {

/// What comes before the last slash of a text, where it has one.
pub open spec fn before_last_slash(s: Seq<char>) -> Option<Seq<char>>
    decreases s.len(),
{
    if s.len() == 0 {
        None
    } else if s.last() == '/' {
        Some(s.drop_last())
    } else {
        before_last_slash(s.drop_last())
    }
}

/// The path that the symlink at `src` leads to: its target, taken from the directory that
/// the symlink is in unless it is absolute.
pub open spec fn link_path_of(src: Seq<char>, target: Seq<char>) -> Seq<char> {
    if target.len() > 0 && target[0] == '/' {
        target
    } else {
        (match before_last_slash(src) {
            Some(dir) => dir,
            None => "/"@,
        }) + "/"@ + target
    }
}

/// The path that the symlink at `src` leads to.
pub fn link_path(src: &str, target: &str) -> (r: String)
    ensures
        r@ == link_path_of(src@, target@),
{
    let t = chars_of(target);
    if t.len() > 0 && t[0] == '/' {
        return target.to_owned();
    }
    let mut all = chars_of(src);
    while all.len() > 0 && all[all.len() - 1] != '/'
        invariant
            before_last_slash(all@) == before_last_slash(src@),
        decreases all@.len(),
    {
        let ghost before = all@;
        all.pop();
        assert(all@ =~= before.drop_last());
    }
    let dir = if all.len() > 0 {
        let ghost before = all@;
        all.pop();
        assert(all@ =~= before.drop_last());
        string_of(&all)
    } else {
        "/".to_owned()
    };
    Text::of(dir.as_str()).lit("/").lit(target).done()
}

/// A link's target as Windows writes it.
pub open spec fn windows_target_of(target: Seq<char>) -> Seq<char> {
    Seq::new(
        target.len(),
        |i: int|
            if target[i] == '/' {
                '\\'
            } else {
                target[i]
            },
    )
}

/// A link's target as Windows writes it.
pub fn windows_target(target: &str) -> (r: String)
    ensures
        r@ == windows_target_of(target@),
{
    let all = chars_of(target);
    let mut r = String::new();
    let mut i: usize = 0;
    while i < all.len()
        invariant
            i <= all@.len(),
            r@ == windows_target_of(all@).take(i as int),
        decreases all@.len() - i,
    {
        let c = all[i];
        r.push(
            if c == '/' {
                '\\'
            } else {
                c
            },
        );
        assert(r@ =~= windows_target_of(all@).take(i + 1));
        i += 1;
    }
    assert(r@ =~= windows_target_of(all@));
    r
}

/// Whether a symlink leads to a directory of the filesystem. Where that cannot be told, it
/// is taken to lead elsewhere.
pub open spec fn leads_to_dir(f: FsView, src: Seq<char>, target: Seq<char>) -> Result<
    bool,
    Request,
> {
    match resolved(f, link_path_of(src, target)) {
        Err(StopView::Read(r)) => Err(r),
        Ok(ResolvedView::At(loc)) => match inode_at(f, loc) {
            Err(StopView::Read(r)) => Err(r),
            Err(StopView::Error(_)) => Ok(false),
            Ok(i) => Ok(mode_is_dir(i.mode)),
        },
        _ => Ok(false),
    }
}

impl Fs {
    /// Whether the symlink at `src` leads to a directory. The answer comes from this
    /// filesystem: asking the host would consult whatever happens to sit at that path there.
    pub fn link_is_dir(&self, src: &str, target: &str) -> (r: Result<bool, Request>)
        requires
            self@.wf(),
        ensures
            r == leads_to_dir(self@, src@, target@),
    {
        match self.resolve(link_path(src, target).as_str()) {
            Err(Stop::Read(r)) => Err(r),
            Err(Stop::Error(_)) => Ok(false),
            Ok(Resolved::Link { .. }) => Ok(false),
            Ok(Resolved::At(loc)) => match self.inode(loc) {
                Err(Stop::Read(r)) => Err(r),
                Err(Stop::Error(_)) => Ok(false),
                Ok(i) => Ok(i.is_dir()),
            },
        }
    }
}

/// How far to seek next over a hole of which `left` bytes are left: a seek offset is signed
/// and a hole need not be.
pub fn seek_step(left: u64) -> (n: i64)
    ensures
        n == if left < i64::MAX {
            left as int
        } else {
            i64::MAX as int
        },
{
    if left < i64::MAX as u64 {
        left as i64
    } else {
        i64::MAX
    }
}

} // verus!
