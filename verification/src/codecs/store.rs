//! Data kept as it is.
use vstd::prelude::*;

verus! {

/// An encoder that changes nothing.
#[derive(Debug)]
pub struct StoreEncoder {
    inner: Vec<u8>,
    written: u64,
}

impl StoreEncoder {
    /// What was there before.
    pub closed spec fn before(&self) -> Seq<u8> {
        self.inner@.take(self.inner@.len() - self.written)
    }

    /// All data taken so far.
    pub closed spec fn taken(&self) -> Seq<u8> {
        self.inner@.skip(self.inner@.len() - self.written)
    }

    /// No more was taken than is held.
    pub closed spec fn wf(&self) -> bool {
        self.written <= self.inner@.len()
    }

    /// An encoder that adds to the end of `inner`.
    pub fn new(inner: Vec<u8>) -> (r: Self)
        ensures
            r.wf(),
            r.before() == inner@,
            r.taken() == Seq::<u8>::empty(),
    {
        let r: StoreEncoder = StoreEncoder { inner, written: 0 };
        assert(r.before() =~= inner@);
        assert(r.taken() =~= Seq::<u8>::empty());
        r
    }

    /// Take more data. All of it is taken.
    pub fn write(&mut self, buf: &[u8]) -> (r: usize)
        requires
            old(self).wf(),
        ensures
            final(self).wf(),
            final(self).before() == old(self).before(),
            final(self).taken() == old(self).taken() + buf@,
            r == buf@.len(),
    {
        let ghost before = self.before();
        let ghost taken = self.taken();
        self.inner.extend_from_slice(buf);
        assert(self.inner.len() <= usize::MAX);
        self.written = self.written + buf.len() as u64;
        assert(self.before() =~= before);
        assert(self.taken() =~= taken + buf@);
        buf.len()
    }

    /// Give back everything, and how many bytes of it were taken.
    pub fn finish(self) -> (r: (Vec<u8>, u64))
        requires
            self.wf(),
        ensures
            r.0@ == self.before() + self.taken(),
            r.1 == self.taken().len(),
    {
        assert(self.inner@ =~= self.before() + self.taken());
        (self.inner, self.written)
    }
}

} // verus!
