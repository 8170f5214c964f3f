//! An open filesystem: its superblock, its devices, its chunk map, and the tree blocks
//! that have been read so far.
//!
//! Nothing here touches a device. An operation that lacks a block stops with the
//! [`Request`] for it; the caller performs the read, hands the reply to [`Fs::supply`],
//! and starts the operation again.

use std::collections::HashMap;
use vstd::prelude::*;
use vstd::slice::*;
use vstd::std_specs::hash::*;
use vstd::string::*;

use crate::checksum::{crc32c, crc32c_value};
use crate::chunks::{add_chunk, ascending, mirrors, mirrors_of, with_chunks};
use crate::disk::{
    cut, le, lemma_le_fits, u32_at, u64_at, Chunk, ChunkView, Superblock, SuperblockView,
    HEADER_SIZE,
};
use crate::error::{because, plain, Error, ErrorKind, ErrorView};
use crate::model::views;

verus! {

broadcast use group_hash_axioms;

/// How many tree blocks are kept before all are dropped.
pub const MAX_NODES: usize = 8192;

/// A read of a device that an operation is waiting for.
#[derive(Clone, Copy, Debug, PartialEq, Eq, Structural)]
pub struct Request {
    /// The logical address of the bytes.
    pub logical: u64,
    pub devid: u64,
    /// The offset on the device.
    pub phys: u64,
    pub len: u64,
}

/// Why an operation gave no result.
pub enum Stop {
    Error(Error),
    Read(Request),
}

#[verifier::ext_equal]
pub enum StopView {
    Error(ErrorView),
    Read(Request),
}

impl View for Stop {
    type V = StopView;

    open spec fn view(&self) -> StopView {
        match self {
            Stop::Error(e) => StopView::Error(e@),
            Stop::Read(r) => StopView::Read(*r),
        }
    }
}

/// A result that can only be an error, as the result of an operation that may also wait.
pub open spec fn stopping<T>(r: Result<T, ErrorView>) -> Result<T, StopView> {
    match r {
        Ok(x) => Ok(x),
        Err(e) => Err(StopView::Error(e)),
    }
}

pub fn stop<T>(r: Result<T, Error>) -> (s: Result<T, Stop>)
    ensures
        match r {
            Ok(x) => s == Ok::<T, Stop>(x),
            Err(e) => s matches Err(f) && f@ == StopView::Error(e@),
        },
{
    match r {
        Ok(x) => Ok(x),
        Err(e) => Err(Stop::Error(e)),
    }
}

/// How far the mirrors of one tree block have been tried.
struct Attempt {
    logical: u64,
    tried: usize,
    /// A mirror was read and shows that the block cannot be used.
    fatal: bool,
    last: Error,
}

#[verifier::ext_equal]
pub struct AttemptView {
    pub logical: u64,
    pub tried: int,
    pub fatal: bool,
    pub last: ErrorView,
}

/// An open filesystem.
pub struct Fs {
    sb: Superblock,
    devs: Vec<u64>,
    paths: Vec<String>,
    chunks: Vec<Chunk>,
    nodes: HashMap<u64, Vec<u8>>,
    attempt: Option<Attempt>,
}

#[verifier::ext_equal]
pub struct FsView {
    pub sb: SuperblockView,
    /// The ids of the devices given, ascending.
    pub devs: Seq<u64>,
    /// Their paths.
    pub paths: Seq<Seq<char>>,
    pub chunks: Seq<ChunkView>,
    /// The tree blocks read so far.
    pub nodes: Map<u64, Seq<u8>>,
    pub attempt: Option<AttemptView>,
}

impl View for Fs {
    type V = FsView;

    closed spec fn view(&self) -> FsView {
        FsView {
            sb: self.sb@,
            devs: self.devs@,
            paths: views(self.paths@),
            chunks: views(self.chunks@),
            nodes: self.nodes@.map_values(|v: Vec<u8>| v@),
            attempt: match self.attempt {
                Some(a) => Some(
                    AttemptView {
                        logical: a.logical,
                        tried: a.tried as int,
                        fatal: a.fatal,
                        last: a.last@,
                    },
                ),
                None => None,
            },
        }
    }
}

/// How many items a tree block claims to hold.
pub open spec fn nritems_of(b: Seq<u8>) -> int {
    le(b, 96, 4) as int
}

/// A tree block fit to be walked: of full size, with no more items than have room.
pub open spec fn node_ok(b: Seq<u8>, nodesize: int) -> bool {
    b.len() == nodesize && nritems_of(b) <= (nodesize - 101) / 25
}

/// A tree block that is what it claims to be: its header names its address, and its checksum
/// is right where it can be checked. Only CRC-32C, type 0, can.
#[verifier::opaque]
pub open spec fn is_genuine(sb: SuperblockView, logical: u64, b: Seq<u8>) -> bool {
    &&& le(b, 48, 8) == logical
    &&& sb.csum_type == 0 ==> le(b, 0, 4) == crc32c_value(0, b.skip(32))
}

impl FsView {
    /// What holds of every open filesystem.
    pub open spec fn wf(self) -> bool {
        &&& 4096 <= self.sb.nodesize <= 65536
        &&& 512 <= self.sb.sectorsize <= 65536
        &&& self.devs.len() == self.paths.len()
        &&& forall|i: int, j: int| 0 <= i < j < self.devs.len() ==> self.devs[i] < self.devs[j]
        &&& ascending(self.chunks)
        &&& forall|a: u64| #[trigger]
            self.nodes.contains_key(a) ==> node_ok(self.nodes[a], self.sb.nodesize as int)
                && is_genuine(self.sb, a, self.nodes[a])
    }

    /// The places that hold `len` bytes at `logical`.
    pub open spec fn mirrors(self, logical: u64, len: u64) -> Result<Seq<(u64, u64)>, ErrorView> {
        mirrors_of(self.chunks, self.devs, self.sb.num_devices, logical, len)
    }

    /// How many mirrors of the block at `logical` have been tried in vain.
    pub open spec fn tried(self, logical: u64) -> int {
        match self.attempt {
            Some(a) if a.logical == logical => a.tried,
            _ => 0,
        }
    }

    /// The tree block at `logical`: the one that was read, an error, or the read to make.
    /// The mirrors are tried one after another, and when all fail the last failure counts.
    pub open spec fn node(self, logical: u64) -> Result<Seq<u8>, StopView> {
        let len = self.sb.nodesize as u64;
        if self.nodes.contains_key(logical) {
            Ok(self.nodes[logical])
        } else {
            match self.mirrors(logical, len) {
                Err(e) => Err(StopView::Error(e)),
                Ok(places) => match self.attempt {
                    Some(a) if a.logical == logical && (a.fatal || a.tried >= places.len()) => Err(
                        StopView::Error(a.last),
                    ),
                    _ => {
                        let (devid, phys) = places[self.tried(logical)];
                        Err(StopView::Read(Request { logical, devid, phys, len }))
                    },
                },
            }
        }
    }

    /// The state after `reply` came back for the read `req`. A reply to anything but the
    /// read that is waited for changes nothing.
    pub open spec fn supplied(self, req: Request, reply: Result<Seq<u8>, Seq<char>>) -> FsView {
        if self.node(req.logical) != Err::<Seq<u8>, StopView>(StopView::Read(req)) {
            self
        } else {
            let tried = self.tried(req.logical) + 1;
            match judged(self.sb, req.logical, reply) {
                Judged::Good(b) => FsView {
                    nodes: self.nodes.insert(req.logical, b),
                    attempt: None,
                    ..self
                },
                Judged::Next(last) => FsView {
                    attempt: Some(
                        AttemptView { logical: req.logical, tried, fatal: false, last },
                    ),
                    ..self
                },
                Judged::Fatal(last) => FsView {
                    attempt: Some(AttemptView { logical: req.logical, tried, fatal: true, last }),
                    ..self
                },
            }
        }
    }
}

/// What a reply to the read of a tree block comes to.
#[verifier::ext_equal]
pub enum Judged {
    /// The block.
    Good(Seq<u8>),
    /// This mirror is of no use; another may be.
    Next(ErrorView),
    /// The block is corrupt, whatever another mirror holds.
    Fatal(ErrorView),
}

/// A mirror is passed over when it cannot be read, when the block's header names another
/// address, or when its checksum is wrong. Only CRC-32C, type 0, is checked.
pub open spec fn judged(
    sb: SuperblockView,
    logical: u64,
    reply: Result<Seq<u8>, Seq<char>>,
) -> Judged {
    match reply {
        Err(message) => Judged::Next(because(ErrorKind::Host, message)),
        Ok(b) => if b.len() != sb.nodesize {
            Judged::Next(cut(b, 0, sb.nodesize as int))
        } else if le(b, 48, 8) != logical {
            Judged::Next(plain(ErrorKind::WrongAddress { logical }))
        } else if sb.csum_type == 0 && le(b, 0, 4) != crc32c_value(0, b.skip(32)) {
            Judged::Next(plain(ErrorKind::BadChecksum { logical }))
        } else if nritems_of(b) > (sb.nodesize - 101) / 25 {
            Judged::Fatal(plain(ErrorKind::TooManyItems { logical, items: nritems_of(b) as u64 }))
        } else {
            Judged::Good(b)
        },
    }
}

enum Outcome {
    Good,
    Next(Error),
    Fatal(Error),
}

impl Fs {
    /// A filesystem of which no block has been read yet.
    pub(crate) fn with(
        sb: Superblock,
        devs: Vec<u64>,
        paths: Vec<String>,
        chunks: Vec<Chunk>,
    ) -> (fs: Fs)
        ensures
            fs@ == (FsView {
                sb: sb@,
                devs: devs@,
                paths: views(paths@),
                chunks: views(chunks@),
                nodes: Map::empty(),
                attempt: None,
            }),
    {
        let fs = Fs {
            sb,
            devs,
            paths,
            chunks,
            nodes: HashMap::new(),
            attempt: None,
        };
        assert(fs@.nodes =~= Map::empty());
        fs
    }

    /// Puts chunks into the chunk map, in their order.
    pub(crate) fn add_chunks(&mut self, found: Vec<Chunk>)
        requires
            old(self)@.wf(),
        ensures
            final(self)@.wf(),
            final(self)@ == (FsView {
                chunks: with_chunks(old(self)@.chunks, views(found@)),
                ..old(self)@
            }),
    {
        let ghost before = self@;
        let ghost all = views(found@);
        assert(all.take(0) =~= seq![]);
        for c in it: found
            invariant
                before.wf(),
                ascending(self@.chunks),
                all == views(it.seq()),
                self@ == (FsView {
                    chunks: with_chunks(before.chunks, all.take(it.index())),
                    ..before
                }),
        {
            let ghost part = all.take(it.index() + 1);
            assert(part.drop_last() =~= all.take(it.index()));
            assert(part.last() == c@);
            add_chunk(&mut self.chunks, c);
        }
        assert(all.take(all.len() as int) =~= all);
    }

    /// The superblock that was taken: that of the highest generation.
    pub fn sb(&self) -> (sb: &Superblock)
        ensures
            sb@ == self@.sb,
    {
        &self.sb
    }

    /// The chunks, ascending.
    pub fn chunks(&self) -> (chunks: &Vec<Chunk>)
        ensures
            views(chunks@) == self@.chunks,
    {
        &self.chunks
    }

    /// The paths of the devices, in the order of their ids.
    pub fn device_paths(&self) -> (paths: &Vec<String>)
        ensures
            views(paths@) == self@.paths,
    {
        &self.paths
    }

    /// The places that hold the `len` bytes at `logical`, in the order they are tried.
    pub fn mirrors(&self, logical: u64, len: u64) -> (r: Result<Vec<(u64, u64)>, Error>)
        requires
            self@.wf(),
        ensures
            match r {
                Ok(v) => self@.mirrors(logical, len) == Ok::<Seq<(u64, u64)>, ErrorView>(v@),
                Err(e) => self@.mirrors(logical, len) == Err::<Seq<(u64, u64)>, ErrorView>(e@),
            },
    {
        mirrors(&self.chunks, &self.devs, self.sb.num_devices, logical, len)
    }

    /// The next read to make for the block at `logical`, and which mirror that is.
    fn next_read(&self, logical: u64) -> (r: Result<(usize, Request), Error>)
        requires
            self@.wf(),
            !self@.nodes.contains_key(logical),
        ensures
            match r {
                Ok((i, req)) => {
                    &&& self@.node(logical) == Err::<Seq<u8>, StopView>(StopView::Read(req))
                    &&& i == self@.tried(logical)
                    &&& i < usize::MAX
                },
                Err(e) => self@.node(logical) == Err::<Seq<u8>, StopView>(StopView::Error(e@)),
            },
    {
        let len: u64 = self.sb.nodesize as u64;
        let places = self.mirrors(logical, len)?;
        assert(places@.len() > 0);
        let mut next: usize = 0;
        match &self.attempt {
            Some(a) => {
                if a.logical == logical {
                    if a.fatal || a.tried >= places.len() {
                        return Err(a.last.copied());
                    }
                    next = a.tried;
                }
            },
            None => {},
        }
        let (devid, phys) = places[next];
        Ok((next, Request { logical, devid, phys, len }))
    }

    /// The tree block at `logical`, or why it is not there.
    pub fn read_node(&self, logical: u64) -> (r: Result<&Vec<u8>, Stop>)
        requires
            self@.wf(),
        ensures
            match r {
                Ok(b) => self@.node(logical) == Ok::<Seq<u8>, StopView>(b@),
                Err(s) => self@.node(logical) == Err::<Seq<u8>, StopView>(s@),
            },
    {
        match self.nodes.get(&logical) {
            Some(b) => Ok(b),
            None => match self.next_read(logical) {
                Ok((_, req)) => Err(Stop::Read(req)),
                Err(e) => Err(Stop::Error(e)),
            },
        }
    }

    fn judge(&self, logical: u64, reply: &Result<Vec<u8>, String>) -> (r: Outcome)
        requires
            self@.wf(),
        ensures
            match r {
                Outcome::Good => reply matches Ok(b) && judged(self@.sb, logical, Ok(b@))
                    == Judged::Good(b@),
                Outcome::Next(e) => judged(
                    self@.sb,
                    logical,
                    match *reply {
                        Ok(b) => Ok(b@),
                        Err(m) => Err(m@),
                    },
                ) == Judged::Next(e@),
                Outcome::Fatal(e) => judged(
                    self@.sb,
                    logical,
                    match *reply {
                        Ok(b) => Ok(b@),
                        Err(m) => Err(m@),
                    },
                ) == Judged::Fatal(e@),
            },
    {
        let size: usize = self.sb.nodesize as usize;
        match reply {
            Err(m) => Outcome::Next(Error::because(ErrorKind::Host, m.clone())),
            Ok(v) => {
                let b = v.as_slice();
                if b.len() != size {
                    return Outcome::Next(
                        Error::plain(
                            ErrorKind::Truncated { len: size as u64, off: 0, have: b.len() as u64 },
                        ),
                    );
                }
                proof {
                    lemma_le_fits(b@, 48);
                    lemma_le_fits(b@, 0);
                    lemma_le_fits(b@, 96);
                }
                match u64_at(b, 48) {
                    Ok(at) => {
                        if at != logical {
                            return Outcome::Next(
                                Error::plain(ErrorKind::WrongAddress { logical }),
                            );
                        }
                    },
                    Err(e) => {
                        return Outcome::Fatal(e);
                    },
                }
                if self.sb.csum_type == 0 {
                    match u32_at(b, 0) {
                        Ok(sum) => {
                            let body = slice_subrange(b, 32, b.len());
                            assert(body@ =~= b@.skip(32));
                            if sum != crc32c(body) {
                                return Outcome::Next(
                                    Error::plain(ErrorKind::BadChecksum { logical }),
                                );
                            }
                        },
                        Err(e) => {
                            return Outcome::Fatal(e);
                        },
                    }
                }
                match u32_at(b, 96) {
                    Ok(n) => {
                        if n as usize > (size - HEADER_SIZE) / 25 {
                            return Outcome::Fatal(
                                Error::plain(ErrorKind::TooManyItems { logical, items: n as u64 }),
                            );
                        }
                        Outcome::Good
                    },
                    Err(e) => Outcome::Fatal(e),
                }
            },
        }
    }

    /// Takes in what came back for the read `req`: the bytes, or what the host said.
    pub fn supply(&mut self, req: Request, reply: Result<Vec<u8>, String>)
        requires
            old(self)@.wf(),
        ensures
            final(self)@.wf(),
            final(self)@ == old(self)@.supplied(
                req,
                match reply {
                    Ok(b) => Ok(b@),
                    Err(m) => Err(m@),
                },
            ),
    {
        if self.nodes.contains_key(&req.logical) {
            return ;
        }
        let tried: usize = match self.next_read(req.logical) {
            Ok((i, asked)) => {
                if asked != req {
                    return ;
                }
                i
            },
            Err(_) => {
                return ;
            },
        };
        let ghost before = self@;
        reveal(is_genuine);
        match self.judge(req.logical, &reply) {
            Outcome::Good => {
                self.attempt = None;
                if let Ok(b) = reply {
                    self.nodes.insert(req.logical, b);
                    assert(self@.nodes =~= before.nodes.insert(req.logical, b@));
                }
            },
            Outcome::Next(last) => {
                self.attempt = Some(
                    Attempt { logical: req.logical, tried: tried + 1, fatal: false, last },
                );
                assert(self@.nodes =~= before.nodes);
            },
            Outcome::Fatal(last) => {
                self.attempt = Some(
                    Attempt { logical: req.logical, tried: tried + 1, fatal: true, last },
                );
                assert(self@.nodes =~= before.nodes);
            },
        }
    }

    /// Ends an operation: a block that could not be read may be asked for anew, and the
    /// blocks are dropped once there are [`MAX_NODES`] of them.
    pub fn settle(&mut self)
        requires
            old(self)@.wf(),
        ensures
            final(self)@.wf(),
            final(self)@ == (FsView {
                attempt: None,
                nodes: if old(self)@.nodes.dom().len() >= MAX_NODES {
                    Map::empty()
                } else {
                    old(self)@.nodes
                },
                ..old(self)@
            }),
    {
        let ghost before = self@;
        self.attempt = None;
        assert(self.nodes@.dom() =~= before.nodes.dom());
        if self.nodes.len() >= MAX_NODES {
            self.nodes.clear();
            assert(self@.nodes =~= Map::empty());
        } else {
            assert(self@.nodes =~= before.nodes);
        }
    }
}

} // verus!
