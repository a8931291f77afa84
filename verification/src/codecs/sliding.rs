//! Input seen through a window that moves along.
use vstd::prelude::*;

verus! {

/// A stretch of a longer input, addressed by positions in that input.
pub struct Feed<'a> {
    bytes: &'a [u8],
    base: usize,
    all: Ghost<Seq<u8>>,
}

impl<'a> Feed<'a> {
    /// The input so far.
    pub closed spec fn all(&self) -> Seq<u8> {
        self.all@
    }

    /// Where the stretch starts.
    pub closed spec fn first(&self) -> int {
        self.base as int
    }

    /// The stretch is the end of the input so far.
    pub closed spec fn wf(&self) -> bool {
        &&& self.all@.len() == self.base + self.bytes@.len()
        &&& self.all@.len() <= usize::MAX
        &&& self.bytes@ == self.all@.skip(self.base as int)
    }

    /// The stretch lies within the input.
    pub proof fn lemma_wf(&self)
        requires
            self.wf(),
        ensures
            0 <= self.first() <= self.all().len() <= usize::MAX,
    {
    }

    /// The whole of an input.
    pub fn whole(bytes: &'a [u8]) -> (r: Self)
        ensures
            r.wf(),
            r.all() == bytes@,
            r.first() == 0,
    {
        let ghost all = bytes@;
        assert(all.skip(0) =~= all);
        assert(bytes.len() == all.len());
        Feed { bytes, base: 0, all: Ghost(all) }
    }

    /// What follows the first `base` bytes of an input.
    pub fn from(bytes: &'a [u8], base: usize) -> (r: Self)
        requires
            base + bytes@.len() <= usize::MAX,
        ensures
            r.wf(),
            r.all().len() == base + bytes@.len(),
            r.all().skip(base as int) == bytes@,
            r.first() == base,
    {
        let ghost all = Seq::new(base as nat, |i: int| 0u8) + bytes@;
        assert(all.skip(base as int) =~= bytes@);
        Feed { bytes, base, all: Ghost(all) }
    }

    /// Where the stretch starts.
    pub fn base(&self) -> (r: usize)
        ensures
            r == self.first(),
    {
        self.base
    }

    /// The byte at a position.
    pub fn get(&self, at: usize) -> (r: u8)
        requires
            self.wf(),
            self.first() <= at < self.all().len(),
        ensures
            r == self.all()[at as int],
    {
        self.bytes[at - self.base]
    }

    /// Where the stretch ends.
    pub fn end(&self) -> (r: usize)
        requires
            self.wf(),
        ensures
            r == self.all().len(),
    {
        self.base + self.bytes.len()
    }

    /// The bytes between two positions.
    pub fn slice(&self, from: usize, to: usize) -> (r: &[u8])
        requires
            self.wf(),
            self.first() <= from <= to <= self.all().len(),
        ensures
            r@ == self.all().subrange(from as int, to as int),
    {
        assert(self.bytes@.subrange(from - self.base, to - self.base) =~= self.all@.subrange(
            from as int,
            to as int,
        ));
        &self.bytes[from - self.base..to - self.base]
    }
}

/// Input that is taken piece by piece, of which the oldest part is let go.
pub struct Sliding {
    bytes: Vec<u8>,
    base: usize,
    all: Ghost<Seq<u8>>,
}

/// How much is gathered before anything is let go.
pub open spec fn slack_of(keep: int) -> int {
    if keep / 4 > 65_536 {
        keep / 4
    } else {
        65_536
    }
}

impl Sliding {
    /// The input so far.
    pub closed spec fn all(&self) -> Seq<u8> {
        self.all@
    }

    /// The oldest position still held.
    pub closed spec fn first(&self) -> int {
        self.base as int
    }

    /// What is held is the end of the input so far.
    pub closed spec fn wf(&self) -> bool {
        &&& self.all@.len() == self.base + self.bytes@.len()
        &&& self.all@.len() <= usize::MAX
        &&& self.bytes@ == self.all@.skip(self.base as int)
    }

    /// What is held lies within the input.
    pub proof fn lemma_wf(&self)
        requires
            self.wf(),
        ensures
            0 <= self.first() <= self.all().len() <= usize::MAX,
    {
    }

    /// No input yet; `keep` bytes will be kept.
    pub fn new(keep: usize) -> (r: Self)
        requires
            keep <= 0x7fff_0000,
        ensures
            r.wf(),
            r.all() == Seq::<u8>::empty(),
            r.first() == 0,
    {
        let r: Sliding = Sliding {
            bytes: Vec::with_capacity(slack(keep)),
            base: 0,
            all: Ghost(Seq::empty()),
        };
        assert(r.bytes@ =~= r.all@.skip(0));
        r
    }

    /// Take more input.
    pub fn push(&mut self, more: &[u8])
        requires
            old(self).wf(),
            old(self).all().len() + more@.len() <= usize::MAX,
        ensures
            final(self).wf(),
            final(self).all() == old(self).all() + more@,
            final(self).first() == old(self).first(),
    {
        let ghost all = self.all@ + more@;
        self.bytes.extend_from_slice(more);
        self.all = Ghost(all);
        assert(self.bytes@ =~= all.skip(self.base as int));
    }

    /// What is held.
    pub fn feed(&self) -> (r: Feed<'_>)
        requires
            self.wf(),
        ensures
            r.wf(),
            r.all() == self.all(),
            r.first() == self.first(),
    {
        let ghost all = self.all@;
        Feed { bytes: self.bytes.as_slice(), base: self.base, all: Ghost(all) }
    }

    /// How much input there was.
    pub fn end(&self) -> (r: usize)
        requires
            self.wf(),
        ensures
            r == self.all().len(),
    {
        self.base + self.bytes.len()
    }

    /// Let go of what lies more than `keep` bytes before `at`, once enough of
    /// it has gathered.
    pub fn retain(&mut self, at: usize, keep: usize)
        requires
            old(self).wf(),
            at <= old(self).all().len(),
            keep <= 0x7fff_0000,
        ensures
            final(self).wf(),
            final(self).all() == old(self).all(),
            final(self).first() == if at - keep <= old(self).first() || old(self).all().len() - old(
                self).first() < keep + slack_of(keep as int) {
                old(self).first()
            } else {
                at - keep
            },
    {
        let oldest: usize = if at > keep {
            at - keep
        } else {
            0
        };
        if oldest <= self.base || self.bytes.len() < keep + slack(keep) {
            return;
        }
        let from: usize = oldest - self.base;
        let end: usize = self.bytes.len();
        let mut rest: Vec<u8> = Vec::with_capacity(end - from);
        rest.extend_from_slice(&self.bytes.as_slice()[from..end]);
        self.bytes = rest;
        self.base = oldest;
        assert(self.bytes@ =~= self.all@.skip(oldest as int));
    }
}

fn slack(keep: usize) -> (r: usize)
    ensures
        r == slack_of(keep as int),
{
    if keep / 4 > 65_536 {
        keep / 4
    } else {
        65_536
    }
}

} // verus!
