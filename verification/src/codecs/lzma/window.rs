//! The dictionary: output on its way to the caller, with as much of the past
//! as matches can reach.
use crate::utils::error::{Error, Result};
use crate::utils::lz;
use vstd::prelude::*;

verus! {

const DRAIN_THRESHOLD: usize = 65_536;

/// Everything produced, of which the oldest part is let go once it was read
/// and is out of reach.
pub struct Window {
    buf: Vec<u8>,
    read: usize,
    total: u64,
    dict_size: usize,
    floor: usize,
    all: Ghost<Seq<u8>>,
    start: Ghost<int>,
}

impl Window {
    /// Everything ever produced.
    pub closed spec fn all(&self) -> Seq<u8> {
        self.all@
    }

    /// What was produced since the last dictionary reset.
    pub closed spec fn dictionary(&self) -> Seq<u8> {
        self.all@.skip(self.start@)
    }

    /// How many of those bytes are still held.
    pub closed spec fn reach(&self) -> int {
        self.buf@.len() - self.floor
    }

    /// How many bytes are kept within reach at least.
    pub closed spec fn kept(&self) -> int {
        self.dict_size as int
    }

    /// How many bytes are held.
    pub closed spec fn held(&self) -> int {
        self.buf@.len() as int
    }

    /// How many bytes the caller has not read.
    pub closed spec fn unread(&self) -> nat {
        (self.buf@.len() - self.read) as nat
    }

    /// The bytes the caller has read.
    pub open spec fn delivered(&self) -> Seq<u8> {
        self.all().take(self.all().len() - self.unread())
    }

    /// What is held is the end of what was produced, and covers the
    /// dictionary.
    pub closed spec fn wf(&self) -> bool {
        let n = self.all@.len();
        let held = self.buf@.len();
        &&& self.dict_size >= 1
        &&& self.read <= held
        &&& self.floor <= held <= n
        &&& self.total == n
        &&& 0 <= self.start@ <= n
        &&& self.buf@ == self.all@.skip(n - held)
        &&& n - (held - self.floor) == if self.start@ > n - held {
            self.start@
        } else {
            n - held
        }
        &&& held - self.floor == n - self.start@ || held - self.floor >= self.dict_size
    }

    /// The dictionary is within reach, or as much of it as is kept.
    pub proof fn lemma_reach(&self)
        requires
            self.wf(),
        ensures
            0 <= self.reach() <= self.dictionary().len(),
            self.reach() == self.dictionary().len() || self.reach() >= self.kept(),
            self.kept() >= 1,
            self.dictionary().len() <= self.all().len(),
            self.unread() <= self.held() <= self.all().len(),
            self.all().len() <= u64::MAX,
            self.dictionary() == self.all().skip(self.all().len() - self.dictionary().len()),
    {
        assert(self.dictionary() =~= self.all().skip(self.all().len() - self.dictionary().len()));
    }

    /// An empty window that keeps `dict_size` bytes within reach.
    pub fn new(dict_size: usize) -> (r: Self)
        requires
            dict_size >= 1,
        ensures
            r.wf(),
            r.all() == Seq::<u8>::empty(),
            r.dictionary() == Seq::<u8>::empty(),
            r.unread() == 0,
            r.kept() == dict_size,
    {
        let r: Window = Window {
            buf: Vec::with_capacity(DRAIN_THRESHOLD * 2),
            read: 0,
            total: 0,
            dict_size,
            floor: 0,
            all: Ghost(Seq::empty()),
            start: Ghost(0),
        };
        assert(r.dictionary() =~= Seq::<u8>::empty());
        assert(r.buf@ =~= r.all@.skip(0));
        r
    }

    /// How much was produced.
    pub fn total(&self) -> (r: u64)
        requires
            self.wf(),
        ensures
            r == self.all().len(),
    {
        self.total
    }

    /// How much the caller has not read.
    pub fn pending(&self) -> (r: usize)
        requires
            self.wf(),
        ensures
            r == self.unread(),
    {
        self.buf.len() - self.read
    }

    /// Whether nothing was produced since the last reset.
    pub fn is_empty(&self) -> (r: bool)
        requires
            self.wf(),
        ensures
            r == (self.dictionary().len() == 0),
    {
        self.history() == 0
    }

    /// Put everything produced so far out of reach.
    pub fn reset_dictionary(&mut self)
        requires
            old(self).wf(),
        ensures
            final(self).wf(),
            final(self).all() == old(self).all(),
            final(self).unread() == old(self).unread(),
            final(self).kept() == old(self).kept(),
            final(self).dictionary() == Seq::<u8>::empty(),
    {
        let ghost n = self.all@.len() as int;
        self.floor = self.buf.len();
        self.start = Ghost(n);
        assert(self.dictionary() =~= Seq::<u8>::empty());
    }

    /// How much output is reachable: bytes produced since the last dictionary
    /// reset, which is what bounds a match distance.
    pub fn history(&self) -> (r: usize)
        requires
            self.wf(),
        ensures
            r == self.reach(),
    {
        self.buf.len() - self.floor
    }

    /// Change how much history is kept when draining.
    ///
    /// A container whose members declare their own window sizes sets this as
    /// each one starts. What is already out of reach stays so.
    pub fn set_dictionary_size(&mut self, size: usize)
        requires
            old(self).wf(),
            size >= 1,
        ensures
            final(self).wf(),
            final(self).all() == old(self).all(),
            final(self).unread() == old(self).unread(),
            final(self).kept() == size,
            final(self).dictionary() == old(self).dictionary().skip(
                old(self).dictionary().len() - old(self).reach(),
            ),
    {
        let ghost n = self.all@.len() - (self.buf@.len() - self.floor);
        self.dict_size = size;
        self.start = Ghost(n);
        assert(self.dictionary() =~= old(self).dictionary().skip(
            old(self).dictionary().len() - old(self).reach(),
        ));
    }

    /// The bytes produced from absolute position `from` onward.
    ///
    /// Only valid before they are drained, which is what lets a caller checksum
    /// output it is about to hand on.
    pub fn since(&self, from: u64) -> (r: &[u8])
        requires
            self.wf(),
            from <= self.all().len(),
            self.all().len() - from <= self.held(),
        ensures
            r@ == self.all().skip(from as int),
    {
        let behind: usize = (self.total - from) as usize;
        let at: usize = self.buf.len() - behind;
        assert(self.buf@.subrange(at as int, self.buf@.len() as int) =~= self.all@.skip(from as int));
        &self.buf.as_slice()[at..self.buf.len()]
    }

    /// Read into `buf` as much as there is and as fits.
    pub fn take(&mut self, buf: &mut [u8]) -> (n: usize)
        requires
            old(self).wf(),
        ensures
            final(self).wf(),
            final(self).all() == old(self).all(),
            final(self).dictionary() == old(self).dictionary(),
            final(self).kept() == old(self).kept(),
            final(buf)@.len() == old(buf)@.len(),
            n == if old(self).unread() < old(buf)@.len() {
                old(self).unread()
            } else {
                old(buf)@.len()
            },
            final(self).unread() == old(self).unread() - n,
            final(self).delivered() == old(self).delivered() + final(buf)@.take(n as int),
            final(buf)@.skip(n as int) == old(buf)@.skip(n as int),
    {
        let available: usize = self.buf.len() - self.read;
        let n: usize = if available < buf.len() {
            available
        } else {
            buf.len()
        };
        let ghost before = buf@;
        let mut i: usize = 0;
        while i < n
            invariant
                i <= n <= buf@.len(),
                buf@.len() == before.len(),
                n <= self.buf.len() - self.read,
                self.read <= self.buf.len(),
                forall|k: int| 0 <= k < i ==> #[trigger] buf@[k] == self.buf@[self.read + k],
                forall|k: int| n <= k < buf@.len() ==> #[trigger] buf@[k] == before[k],
            decreases n - i,
        {
            buf[i] = self.buf[self.read + i];
            i = i + 1;
        }
        self.read = self.read + n;
        assert(self.delivered() =~= old(self).delivered() + buf@.take(n as int));
        assert(buf@.skip(n as int) =~= before.skip(n as int));
        n
    }

    /// Let go of what was read and is out of reach.
    pub fn drain(&mut self)
        requires
            old(self).wf(),
        ensures
            final(self).wf(),
            final(self).all() == old(self).all(),
            final(self).dictionary() == old(self).dictionary(),
            final(self).unread() == old(self).unread(),
            final(self).kept() == old(self).kept(),
    {
        let history: usize = self.buf.len() - self.floor;
        let keep: usize = if self.dict_size < history {
            self.dict_size
        } else {
            history
        };
        let droppable: usize = self.buf.len() - keep;
        let removable: usize = if self.read < droppable {
            self.read
        } else {
            droppable
        };
        if removable >= DRAIN_THRESHOLD {
            let end: usize = self.buf.len();
            let mut rest: Vec<u8> = Vec::with_capacity(end - removable + DRAIN_THRESHOLD);
            rest.extend_from_slice(&self.buf.as_slice()[removable..end]);
            self.buf = rest;
            self.read = self.read - removable;
            self.floor = if self.floor > removable {
                self.floor - removable
            } else {
                0
            };
            assert(self.buf@ =~= self.all@.skip(self.all@.len() - self.buf@.len()));
        }
    }

    /// Produce one byte.
    pub fn push(&mut self, byte: u8)
        requires
            old(self).wf(),
            old(self).all().len() < u64::MAX,
        ensures
            final(self).wf(),
            final(self).all() == old(self).all().push(byte),
            final(self).dictionary() == old(self).dictionary().push(byte),
            final(self).reach() == old(self).reach() + 1,
            final(self).unread() == old(self).unread() + 1,
            final(self).kept() == old(self).kept(),
            final(self).delivered() == old(self).delivered(),
    {
        let ghost all = self.all@.push(byte);
        self.buf.push(byte);
        self.total = self.total + 1;
        self.all = Ghost(all);
        assert(self.buf@ =~= all.skip(all.len() - self.buf@.len()));
        assert(self.dictionary() =~= old(self).dictionary().push(byte));
        assert(self.delivered() =~= old(self).delivered());
    }

    /// Produce some bytes.
    pub fn extend(&mut self, data: &[u8])
        requires
            old(self).wf(),
            old(self).all().len() + data@.len() <= u64::MAX,
        ensures
            final(self).wf(),
            final(self).all() == old(self).all() + data@,
            final(self).dictionary() == old(self).dictionary() + data@,
            final(self).unread() == old(self).unread() + data@.len(),
            final(self).kept() == old(self).kept(),
            final(self).delivered() == old(self).delivered(),
    {
        let ghost all = self.all@ + data@;
        self.buf.extend_from_slice(data);
        self.total = self.total + data.len() as u64;
        self.all = Ghost(all);
        assert(self.buf@ =~= all.skip(all.len() - self.buf@.len()));
        assert(self.dictionary() =~= old(self).dictionary() + data@);
        assert(self.delivered() =~= old(self).delivered());
    }

    /// The byte `distance` bytes back. It fails where that is out of reach.
    pub fn back(&self, distance: u32) -> (r: Result<u8>)
        requires
            self.wf(),
        ensures
            r is Ok <==> 1 <= distance <= self.reach(),
            r matches Ok(b) ==> b == self.dictionary()[self.dictionary().len() - distance],
            r matches Err(e) ==> e == Error::Malformed,
    {
        let distance: usize = distance as usize;
        if distance == 0 || distance > self.history() {
            return Err(Error::Malformed);
        }
        Ok(self.buf[self.buf.len() - distance])
    }

    /// The last byte produced since the last reset, or zero.
    pub fn last(&self) -> (r: u8)
        requires
            self.wf(),
        ensures
            r == if self.dictionary().len() == 0 {
                0
            } else {
                self.dictionary().last()
            },
    {
        if self.history() == 0 {
            0
        } else {
            self.buf[self.buf.len() - 1]
        }
    }

    /// Produce `len` bytes, each the one `distance` bytes back. It fails
    /// where that is out of reach.
    pub fn copy_match(&mut self, distance: u32, len: u32) -> (r: Result<()>)
        requires
            old(self).wf(),
            old(self).all().len() + len <= u64::MAX,
        ensures
            r is Ok <==> 1 <= distance <= old(self).reach(),
            r matches Err(e) ==> e == Error::Malformed && *final(self) == *old(self),
            r is Ok ==> final(self).wf() && final(self).all() == lz::copied(
                old(self).all(),
                distance as int,
                len as nat,
            ) && final(self).dictionary() == lz::copied(
                old(self).dictionary(),
                distance as int,
                len as nat,
            ) && final(self).unread() == old(self).unread() + len && final(self).kept() == old(
                self).kept() && final(self).delivered() == old(self).delivered(),
    {
        let back: usize = distance as usize;
        if back == 0 || back > self.history() {
            return Err(Error::Malformed);
        }
        let mut i: u32 = 0;
        while i < len
            invariant
                self.wf(),
                i <= len,
                back == distance,
                1 <= back <= self.reach(),
                old(self).all().len() + len <= u64::MAX,
                self.all() == lz::copied(old(self).all(), distance as int, i as nat),
                self.dictionary() == lz::copied(old(self).dictionary(), distance as int, i as nat),
                self.unread() == old(self).unread() + i,
                self.kept() == old(self).kept(),
                self.delivered() == old(self).delivered(),
                self.all().len() == old(self).all().len() + i,
                self.dictionary().len() == old(self).dictionary().len() + i,
            decreases len - i,
        {
            let b: u8 = self.buf[self.buf.len() - back];
            proof {
                lz::lemma_copied_step(old(self).all(), distance as int, i as nat);
                lz::lemma_copied_step(old(self).dictionary(), distance as int, i as nat);
                self.lemma_reach();
                assert(b == self.all@[self.all@.len() - back]);
                assert(b == self.dictionary()[self.dictionary().len() - back]);
            }
            self.push(b);
            i = i + 1;
        }
        Ok(())
    }
}

} // verus!
