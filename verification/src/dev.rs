//! Reading a device in aligned steps. Raw devices on Windows reject reads that are not
//! sector-aligned, so every read is widened to 4 KiB boundaries.

use vstd::prelude::*;
use vstd::slice::*;
use vstd::string::*;

use crate::text::{dec, Text};

verus! {

pub const ALIGN: u64 = 4096;

/// No more than this is asked of a device at once.
pub const MAX_IO: usize = 0x40_0000;

/// A read of `len` bytes at `off` under way: the bytes got so far of the aligned range
/// `[start, start + total)` around them.
pub struct DeviceRead {
    off: u64,
    len: usize,
    start: u64,
    total: usize,
    buf: Vec<u8>,
    /// The device has no more bytes.
    ended: bool,
}

#[verifier::ext_equal]
pub struct DeviceReadView {
    pub off: int,
    pub len: int,
    pub start: int,
    pub total: int,
    pub buf: Seq<u8>,
    pub ended: bool,
}

impl View for DeviceRead {
    type V = DeviceReadView;

    closed spec fn view(&self) -> DeviceReadView {
        DeviceReadView {
            off: self.off as int,
            len: self.len as int,
            start: self.start as int,
            total: self.total as int,
            buf: self.buf@,
            ended: self.ended,
        }
    }
}

/// The last boundary at or before `x`.
pub open spec fn aligned_down(x: int) -> int {
    x - x % 4096
}

/// The first boundary at or after `x`.
pub open spec fn aligned_up(x: int) -> int {
    aligned_down(x + 4095)
}

impl DeviceReadView {
    /// What holds of every read.
    pub open spec fn wf(self) -> bool {
        &&& 0 <= self.start <= self.off
        &&& 0 <= self.len
        &&& self.off + self.len <= self.start + self.total <= u64::MAX
        &&& self.buf.len() <= self.total
    }

    /// The next read to make: where, and how much at most.
    pub open spec fn wanted(self) -> Option<(int, int)> {
        let left = self.total - self.buf.len();
        if self.ended || left == 0 {
            None
        } else {
            Some(
                (
                    self.start + self.buf.len(),
                    if left < MAX_IO {
                        left
                    } else {
                        MAX_IO as int
                    },
                ),
            )
        }
    }

    /// The read after the device gave `b`; nothing at all is its end. More than was wanted
    /// is not taken.
    pub open spec fn given(self, b: Seq<u8>) -> DeviceReadView {
        match self.wanted() {
            None => self,
            Some((_, most)) => DeviceReadView {
                buf: self.buf + if b.len() <= most {
                    b
                } else {
                    b.take(most)
                },
                ended: b.len() == 0,
                ..self
            },
        }
    }

    /// The bytes asked for, once no more is wanted. A file need not end on a boundary: only
    /// the bytes asked for must be there.
    pub open spec fn outcome(self, path: Seq<char>) -> Result<Seq<u8>, Seq<char>> {
        let skip = self.off - self.start;
        if self.buf.len() < skip + self.len {
            Err(past_end(path, self.len, self.off))
        } else {
            Ok(self.buf.subrange(skip, skip + self.len))
        }
    }
}

/// What is said of a read that goes past the end of a device.
pub open spec fn past_end(path: Seq<char>, len: int, off: int) -> Seq<char> {
    path + ": read of "@ + dec(len as nat) + " bytes at offset "@ + dec(off as nat)
        + " ran past the end of the device"@
}

/// A read of `len` bytes at `off` that has not begun. There is none where its range does
/// not fit the addresses of a device or of memory.
pub open spec fn planned(off: int, len: int) -> Option<DeviceReadView> {
    let start = aligned_down(off);
    let end = aligned_up(off + len);
    if end > u64::MAX || end - start > usize::MAX {
        None
    } else {
        Some(
            DeviceReadView {
                off,
                len,
                start,
                total: end - start,
                buf: seq![],
                ended: false,
            },
        )
    }
}

/// The text for a read that goes past the end of the device at `path`.
pub fn past_end_message(path: &str, len: usize, off: u64) -> (s: String)
    ensures
        s@ == past_end(path@, len as int, off as int),
{
    Text::of(path).lit(": read of ").num(len as u64).lit(" bytes at offset ").num(off).lit(
        " ran past the end of the device",
    ).done()
}

impl DeviceRead {
    /// Plans a read of `len` bytes at `off`.
    pub fn new(off: u64, len: usize) -> (r: Option<DeviceRead>)
        ensures
            match r {
                Some(d) => d@.wf() && planned(off as int, len as int) == Some(d@),
                None => planned(off as int, len as int) is None,
            },
    {
        let start: u64 = off - off % ALIGN;
        let end: u128 = off as u128 + len as u128 + 4095;
        let end: u128 = end - end % 4096;
        let total: u128 = end - start as u128;
        if end > u64::MAX as u128 || total > usize::MAX as u128 {
            return None;
        }
        let d = DeviceRead {
            off,
            len,
            start,
            total: total as usize,
            buf: Vec::new(),
            ended: false,
        };
        assert(d@.buf =~= seq![]);
        Some(d)
    }

    /// The next read to make of the device: where, and how many bytes at most. None is left
    /// once all are there or the device has ended.
    pub fn next(&self) -> (r: Option<(u64, usize)>)
        requires
            self@.wf(),
        ensures
            match r {
                Some((at, most)) => self@.wanted() == Some((at as int, most as int)),
                None => self@.wanted() is None,
            },
    {
        let left: usize = self.total - self.buf.len();
        if self.ended || left == 0 {
            return None;
        }
        let most: usize = if left < MAX_IO {
            left
        } else {
            MAX_IO
        };
        Some((self.start + self.buf.len() as u64, most))
    }

    /// Takes in what the device gave for the next read.
    pub fn give(&mut self, b: &[u8])
        requires
            old(self)@.wf(),
        ensures
            final(self)@.wf(),
            final(self)@ == old(self)@.given(b@),
    {
        if let Some((_, most)) = self.next() {
            let ghost before = self.buf@;
            let n: usize = if b.len() <= most {
                b.len()
            } else {
                most
            };
            let part = slice_subrange(b, 0, n);
            assert(part@ =~= if b@.len() <= most {
                b@
            } else {
                b@.take(most as int)
            });
            self.buf.extend_from_slice(part);
            assert(self.buf@ =~= before + part@);
            self.ended = b.len() == 0;
        }
    }

    /// The bytes asked for, from what the device at `path` gave.
    pub fn finish(&self, path: &str) -> (r: Result<Vec<u8>, String>)
        requires
            self@.wf(),
        ensures
            match r {
                Ok(v) => self@.outcome(path@) == Ok::<Seq<u8>, Seq<char>>(v@),
                Err(m) => self@.outcome(path@) == Err::<Seq<u8>, Seq<char>>(m@),
            },
    {
        let skip: usize = (self.off - self.start) as usize;
        let have: usize = self.buf.len();
        if have < skip || have - skip < self.len {
            return Err(past_end_message(path, self.len, self.off));
        }
        let v = slice_to_vec(slice_subrange(self.buf.as_slice(), skip, skip + self.len));
        assert(v@ =~= self@.buf.subrange(skip as int, skip + self.len));
        Ok(v)
    }
}

/// The range that is read starts and ends on boundaries, covers the bytes asked for, and is
/// less than two boundaries longer than they are.
pub proof fn law_reads_are_aligned(off: int, len: int)
    requires
        off >= 0,
        len >= 0,
    ensures
        planned(off, len) matches Some(d) ==> {
            &&& d.start % 4096 == 0
            &&& (d.start + d.total) % 4096 == 0
            &&& d.start <= off
            &&& off + len <= d.start + d.total
            &&& d.total < len + 2 * 4096
        },
{
}

/// What the device gave is what comes out: if it gave the bytes of `disk` from the start of
/// the range on, and all that were asked for, the outcome is those at the offset asked for.
pub proof fn law_outcome_is_what_the_device_holds(
    d: DeviceReadView,
    disk: Seq<u8>,
    path: Seq<char>,
)
    requires
        d.wf(),
        d.start + d.buf.len() <= disk.len(),
        d.buf == disk.subrange(d.start, d.start + d.buf.len()),
        d.off + d.len <= d.start + d.buf.len(),
    ensures
        d.outcome(path) == Ok::<Seq<u8>, Seq<char>>(disk.subrange(d.off, d.off + d.len)),
{
    let skip = d.off - d.start;
    assert(d.buf.subrange(skip, skip + d.len) =~= disk.subrange(d.off, d.off + d.len));
}

/// Every read that gives something brings the end nearer, and one that gives nothing is the
/// last.
pub proof fn law_reading_comes_to_an_end(d: DeviceReadView, b: Seq<u8>)
    requires
        d.wf(),
        d.wanted() is Some,
    ensures
        d.given(b).wf(),
        b.len() == 0 ==> d.given(b).wanted() is None,
        b.len() > 0 ==> d.given(b).buf.len() > d.buf.len(),
{
}

} // verus!
