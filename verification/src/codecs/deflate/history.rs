//! Output on its way to the caller, with as much of the past as copies can
//! reach.
use crate::utils::lz;
use vstd::prelude::*;

verus! {

/// How much output is gathered beyond the window.
pub const OUT_CHUNK: usize = 65_536;

/// The last bytes written, of which the caller has read some. Bytes that
/// were read and that no copy can reach are let go from time to time.
pub struct History {
    out: Vec<u8>,
    read: usize,
    window: usize,
    all: Ghost<Seq<u8>>,
}

impl History {
    /// Everything ever written.
    pub closed spec fn all(&self) -> Seq<u8> {
        self.all@
    }

    /// How many bytes the caller has not read.
    pub closed spec fn unread(&self) -> nat {
        (self.out@.len() - self.read) as nat
    }

    /// How far back a copy can reach.
    pub closed spec fn window(&self) -> int {
        self.window as int
    }

    /// How many bytes can be written before something has to go.
    pub closed spec fn room(&self) -> int {
        self.window + OUT_CHUNK - self.out@.len()
    }

    /// What is kept is the end of what was written, and covers the window.
    pub closed spec fn wf(&self) -> bool {
        &&& 1 <= self.window <= 65_536
        &&& self.read <= self.out@.len() <= self.window + OUT_CHUNK
        &&& self.out@.len() <= self.all@.len()
        &&& self.out@ == self.all@.skip(self.all@.len() - self.out@.len())
        &&& self.out@.len() == self.all@.len() || self.out@.len() >= self.window
    }

    /// The bytes the caller has read.
    pub open spec fn delivered(&self) -> Seq<u8> {
        self.all().take(self.all().len() - self.unread())
    }

    /// No more can be unread than was written.
    pub proof fn lemma_unread(&self)
        requires
            self.wf(),
        ensures
            self.unread() <= self.all().len(),
    {
    }

    /// Nothing written yet.
    pub fn new(window: usize) -> (r: Self)
        requires
            1 <= window <= 65_536,
        ensures
            r.wf(),
            r.all() == Seq::<u8>::empty(),
            r.unread() == 0,
            r.window() == window,
            r.room() == window + OUT_CHUNK,
    {
        let r: History = History {
            out: Vec::with_capacity(window + OUT_CHUNK),
            read: 0,
            window,
            all: Ghost(Seq::empty()),
        };
        assert(r.out@ =~= r.all@.skip(0));
        r
    }

    /// How many bytes can be written before something has to go.
    pub fn space(&self) -> (r: usize)
        requires
            self.wf(),
        ensures
            r == self.room(),
    {
        self.window + OUT_CHUNK - self.out.len()
    }

    /// Whether the caller has read everything.
    pub fn is_drained(&self) -> (r: bool)
        requires
            self.wf(),
        ensures
            r == (self.unread() == 0),
    {
        self.read == self.out.len()
    }

    /// How many bytes the caller has not read.
    pub fn available(&self) -> (r: usize)
        requires
            self.wf(),
        ensures
            r == self.unread(),
    {
        self.out.len() - self.read
    }

    /// Write one byte.
    pub fn push(&mut self, b: u8)
        requires
            old(self).wf(),
            old(self).room() > 0,
        ensures
            final(self).wf(),
            final(self).all() == old(self).all().push(b),
            final(self).unread() == old(self).unread() + 1,
            final(self).room() == old(self).room() - 1,
            final(self).window() == old(self).window(),
    {
        let ghost all = self.all@.push(b);
        self.out.push(b);
        self.all = Ghost(all);
        assert(self.out@ =~= all.skip(all.len() - self.out@.len()));
    }

    /// Write some bytes.
    pub fn append(&mut self, bytes: &Vec<u8>)
        requires
            old(self).wf(),
            bytes@.len() <= old(self).room(),
        ensures
            final(self).wf(),
            final(self).all() == old(self).all() + bytes@,
            final(self).unread() == old(self).unread() + bytes@.len(),
            final(self).room() == old(self).room() - bytes@.len(),
            final(self).window() == old(self).window(),
    {
        let ghost all = self.all@ + bytes@;
        self.out.extend_from_slice(bytes.as_slice());
        self.all = Ghost(all);
        assert(self.out@ =~= all.skip(all.len() - self.out@.len()));
    }

    /// Whether a copy can reach `dist` bytes back.
    pub fn reaches(&self, dist: usize) -> (r: bool)
        requires
            self.wf(),
            dist <= self.window(),
        ensures
            r == (dist <= self.all().len()),
    {
        dist <= self.out.len()
    }

    /// Write `n` bytes, each the one `dist` bytes back.
    pub fn copy(&mut self, dist: usize, n: usize)
        requires
            old(self).wf(),
            1 <= dist <= old(self).window(),
            dist <= old(self).all().len(),
            n <= old(self).room(),
        ensures
            final(self).wf(),
            final(self).all() == lz::copied(old(self).all(), dist as int, n as nat),
            final(self).unread() == old(self).unread() + n,
            final(self).room() == old(self).room() - n,
            final(self).window() == old(self).window(),
    {
        let mut i: usize = 0;
        while i < n
            invariant
                i <= n,
                self.wf(),
                1 <= dist <= self.window(),
                dist <= old(self).all().len(),
                old(self).all().len() <= self.all().len(),
                self.all() == lz::copied(old(self).all(), dist as int, i as nat),
                self.unread() == old(self).unread() + i,
                self.room() == old(self).room() - i,
                n <= old(self).room(),
                self.window() == old(self).window(),
            decreases n - i,
        {
            let b: u8 = self.out[self.out.len() - dist];
            proof {
                lz::lemma_copied_step(old(self).all(), dist as int, i as nat);
                lz::lemma_copied_len(old(self).all(), dist as int, i as nat);
                assert(b == self.all@[self.all@.len() - dist]);
            }
            self.push(b);
            i = i + 1;
        }
    }

    /// Let go of what was read and is out of reach.
    pub fn compact(&mut self)
        requires
            old(self).wf(),
            old(self).unread() == 0,
        ensures
            final(self).wf(),
            final(self).all() == old(self).all(),
            final(self).unread() == 0,
            final(self).room() >= OUT_CHUNK,
            final(self).window() == old(self).window(),
    {
        if self.out.len() <= self.window {
            return;
        }
        let from: usize = self.out.len() - self.window;
        let mut kept: Vec<u8> = Vec::with_capacity(self.window + OUT_CHUNK);
        let end: usize = self.out.len();
        kept.extend_from_slice(&self.out.as_slice()[from..end]);
        self.out = kept;
        self.read = self.out.len();
        assert(self.out@ =~= self.all@.skip(self.all@.len() - self.out@.len()));
    }

    /// Read into `buf` as much as there is and as fits.
    pub fn read_into(&mut self, buf: &mut [u8]) -> (n: usize)
        requires
            old(self).wf(),
        ensures
            final(self).wf(),
            final(self).all() == old(self).all(),
            final(self).window() == old(self).window(),
            final(buf)@.len() == old(buf)@.len(),
            n == if old(self).unread() < old(buf)@.len() {
                old(self).unread()
            } else {
                old(buf)@.len()
            },
            final(self).unread() == old(self).unread() - n,
            final(self).delivered() == old(self).delivered() + final(buf)@.take(n as int),
            final(buf)@.skip(n as int) == old(buf)@.skip(n as int),
    {
        let available: usize = self.out.len() - self.read;
        let n: usize = if available < buf.len() {
            available
        } else {
            buf.len()
        };
        let ghost before = buf@;
        let mut i: usize = 0;
        while i < n
            invariant
                i <= n <= buf@.len(),
                buf@.len() == before.len(),
                n <= self.out.len() - self.read,
                self.read <= self.out.len(),
                forall|k: int| 0 <= k < i ==> #[trigger] buf@[k] == self.out@[self.read + k],
                forall|k: int| n <= k < buf@.len() ==> #[trigger] buf@[k] == before[k],
            decreases n - i,
        {
            buf[i] = self.out[self.read + i];
            i = i + 1;
        }
        self.read = self.read + n;
        assert(self.delivered() =~= old(self).delivered() + buf@.take(n as int));
        assert(buf@.skip(n as int) =~= before.skip(n as int));
        n
    }
}

} // verus!
