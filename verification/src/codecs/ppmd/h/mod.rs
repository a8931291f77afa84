//! PPMd var. H, as 7z uses it.
pub mod blocks;
pub mod learning;
pub mod model;
pub mod range;
pub mod rules;
pub mod scaling;

use crate::codecs::ppmd::h::model::{Ppmd7, MIN_ORDER};
use crate::codecs::ppmd::h::rules::{Model, MAX_ORDER};
use crate::utils::error;
use crate::utils::error::{Error, Result, Unsupported};
use crate::utils::limits::{codec_memory, MAX_CODEC_MEMORY};
use vstd::prelude::*;

verus! {

/// The least memory that a model can have.
pub const MIN_MEM_SIZE: u32 = 2048;

/// What `n` symbols decode to, and the code is used up with the last.
pub open spec fn run(m: Model, n: nat) -> std::result::Result<Seq<u8>, Error>
    decreases n,
{
    if n == 0 {
        if m.rc.code == 0 {
            Ok(Seq::empty())
        } else {
            Err(Error::Malformed)
        }
    } else {
        let (next, symbol) = rules::decoded(m);
        if symbol < 0 || next.rc.dry {
            Err(Error::Malformed)
        } else {
            error::joined(seq![symbol as u8], run(next, (n - 1) as nat))
        }
    }
}

/// What `n` symbols hold, up to the first that cannot be decoded.
pub open spec fn held_from(m: Model, n: nat) -> Seq<u8>
    decreases n,
{
    if n == 0 {
        Seq::empty()
    } else {
        let (next, symbol) = rules::decoded(m);
        if symbol < 0 || next.rc.dry {
            Seq::empty()
        } else {
            seq![symbol as u8] + held_from(next, (n - 1) as nat)
        }
    }
}

/// What data decodes to, `expected` bytes of it.
pub open spec fn decoded(data: Seq<u8>, expected: nat, order: u32, mem_size: u32) -> std::result::Result<
    Seq<u8>,
    Error,
> {
    if !(MIN_ORDER <= order <= MAX_ORDER) || mem_size < MIN_MEM_SIZE {
        Err(Error::Malformed)
    } else if mem_size > MAX_CODEC_MEMORY {
        Err(Error::Unsupported(Unsupported::Other))
    } else {
        match range::started(data) {
            None => Err(Error::Malformed),
            Some(rc) => run(rules::fresh(rc, mem_size, order), expected),
        }
    }
}

/// What data holds up to its end or up to the first fault.
pub open spec fn held(data: Seq<u8>, expected: nat, order: u32, mem_size: u32) -> Seq<u8> {
    match range::started(data) {
        None => Seq::empty(),
        Some(rc) => held_from(rules::fresh(rc, mem_size, order), expected),
    }
}

/// The order and the memory that 7z properties give.
pub open spec fn properties_of(p: Seq<u8>) -> Option<(u32, u32)> {
    if p.len() != 5 {
        None
    } else {
        Some(
            (
                p[0] as u32,
                (p[1] + 0x100 * p[2] + 0x1_0000 * p[3] + 0x100_0000 * p[4]) as u32,
            ),
        )
    }
}

/// Decodes var. H data of a known length.
pub struct Reader {
    model: Option<Ppmd7>,
    expected: u64,
    produced: u64,
    outcome: Ghost<std::result::Result<Seq<u8>, Error>>,
    whole: Ghost<Seq<u8>>,
    out: Ghost<Seq<u8>>,
}

/// Decode what a 7z coder with these properties wrote.
pub fn from_properties(inner: Vec<u8>, properties: &[u8], expected: u64) -> (r: Result<Reader>)
    ensures
        match properties_of(properties@) {
            None => r matches Err(e) && e == Error::Malformed,
            Some((order, mem_size)) => match r {
                Ok(x) => x.wf() && x.stream() == decoded(
                    inner@,
                    expected as nat,
                    order,
                    mem_size,
                ) && x.delivered() == Seq::<u8>::empty() && x.left() == expected && x.held() == held(
                    inner@,
                    expected as nat,
                    order,
                    mem_size,
                ),
                Err(e) => decoded(inner@, expected as nat, order, mem_size) == Err::<
                    Seq<u8>,
                    Error,
                >(e),
            },
        },
{
    if properties.len() != 5 {
        return Err(Error::Malformed);
    }
    let order: u32 = properties[0] as u32;
    let mem_size: u32 = properties[1] as u32 + 0x100 * properties[2] as u32 + 0x1_0000
        * properties[3] as u32 + 0x100_0000 * properties[4] as u32;
    Reader::new(inner, expected, order, mem_size)
}

impl Reader {
    /// What the data decodes to.
    pub closed spec fn stream(&self) -> std::result::Result<Seq<u8>, Error> {
        self.outcome@
    }

    /// What the data holds, or where it cannot be decoded to its end, what it
    /// holds before the fault.
    pub closed spec fn held(&self) -> Seq<u8> {
        self.whole@
    }

    /// What was read so far.
    pub closed spec fn delivered(&self) -> Seq<u8> {
        self.out@
    }

    /// How many bytes are still to come.
    pub closed spec fn left(&self) -> nat {
        (self.expected - self.produced) as nat
    }

    /// Whether everything was read.
    pub closed spec fn done(&self) -> bool {
        self.model is None
    }

    /// The reader stands somewhere in the data that it was given.
    pub closed spec fn wf(&self) -> bool {
        &&& self.produced <= self.expected
        &&& match self.model {
            Some(m) => m.wf() && self.outcome@ == error::joined(self.out@, run(m@, self.left()))
                && self.held() == self.out@ + held_from(m@, self.left()),
            None => self.outcome@ == Ok::<Seq<u8>, Error>(self.out@) && self.held() == self.out@,
        }
    }

    /// What was read is a start of what the data decodes to; at the end it is
    /// all of it.
    pub proof fn lemma_delivered(&self)
        requires
            self.wf(),
        ensures
            self.stream() matches Ok(all) ==> self.delivered().is_prefix_of(all),
            self.delivered().is_prefix_of(self.held()),
            self.done() ==> self.stream() == Ok::<Seq<u8>, Error>(self.delivered()),
    {
        assert(self.held().take(self.out@.len() as int) =~= self.out@);
        if let Ok(all) = self.stream() {
            assert(all.take(self.out@.len() as int) =~= self.out@);
        }
    }

    /// Decode `expected` bytes with a model of order `order` in `mem_size`
    /// bytes.
    pub fn new(inner: Vec<u8>, expected: u64, order: u32, mem_size: u32) -> (r: Result<Self>)
        ensures
            match r {
                Ok(x) => x.wf() && x.stream() == decoded(
                    inner@,
                    expected as nat,
                    order,
                    mem_size,
                ) && x.delivered() == Seq::<u8>::empty() && x.left() == expected && x.held() == held(
                    inner@,
                    expected as nat,
                    order,
                    mem_size,
                ),
                Err(e) => decoded(inner@, expected as nat, order, mem_size) == Err::<
                    Seq<u8>,
                    Error,
                >(e),
            },
            MIN_ORDER <= order <= MAX_ORDER && MIN_MEM_SIZE <= mem_size <= MAX_CODEC_MEMORY
                && range::started(inner@) is Some ==> r is Ok,
    {
        let ghost data = inner@;
        if order < MIN_ORDER || order > MAX_ORDER {
            return Err(Error::Malformed);
        }
        if mem_size < MIN_MEM_SIZE {
            return Err(Error::Malformed);
        }
        if let Err(e) = codec_memory(mem_size) {
            return Err(e);
        }
        match Ppmd7::new(inner, mem_size, order) {
            Err(e) => Err(e),
            Ok(m) => {
                let ghost all = decoded(data, expected as nat, order, mem_size);
                let ghost whole = held(data, expected as nat, order, mem_size);
                proof {
                    if let Ok(s) = all {
                        assert(Seq::<u8>::empty() + s =~= s);
                    }
                    assert(Seq::<u8>::empty() + whole =~= whole);
                }
                Ok(
                    Reader {
                        model: Some(m),
                        expected,
                        produced: 0,
                        outcome: Ghost(all),
                        whole: Ghost(whole),
                        out: Ghost(Seq::empty()),
                    },
                )
            },
        }
    }

    /// Read the next bytes of the output into `buf`. Nothing is read only at
    /// the end.
    #[verifier::spinoff_prover]
    pub fn read(&mut self, buf: &mut [u8]) -> (r: Result<usize>)
        requires
            old(self).wf(),
        ensures
            final(buf)@.len() == old(buf)@.len(),
            r matches Ok(n) ==> {
                &&& final(self).wf()
                &&& final(self).stream() == old(self).stream()
                &&& final(self).held() == old(self).held()
                &&& n <= old(buf)@.len()
                &&& final(self).delivered() == old(self).delivered() + final(buf)@.take(n as int)
                &&& final(buf)@.skip(n as int) == old(buf)@.skip(n as int)
                &&& final(self).left() == old(self).left() - n
                &&& n == 0 && old(buf)@.len() > 0 ==> final(self).done()
            },
            r matches Err(e) ==> old(self).stream() == Err::<Seq<u8>, Error>(e) && old(
                self,
            ).delivered().is_prefix_of(old(self).held()),
    {
        proof {
            self.lemma_delivered();
        }
        let ghost before = buf@;
        let ghost start = self.out@;
        let mut taken: Option<Ppmd7> = None;
        if buf.len() == 0 {
            assert(start + buf@.take(0) =~= start);
            return Ok(0);
        }
        std::mem::swap(&mut taken, &mut self.model);
        let mut model: Ppmd7 = match taken {
            None => {
                assert(start + buf@.take(0) =~= start);
                return Ok(0);
            },
            Some(m) => m,
        };
        let mut filled: usize = 0;
        assert(start + buf@.take(0) =~= start);
        while filled < buf.len() && self.produced < self.expected
            invariant
                filled <= buf@.len(),
                buf@.len() == before.len(),
                before == old(buf)@,
                start == old(self).out@,
                self.model is None,
                forall|k: int| filled <= k < buf@.len() ==> #[trigger] buf@[k] == before[k],
                model.wf(),
                self.produced <= self.expected,
                self.expected == old(self).expected,
                self.produced == old(self).produced + filled,
                self.outcome == old(self).outcome,
                self.out@ == start + buf@.take(filled as int),
                self.outcome@ == error::joined(self.out@, run(model@, self.left())),
                self.whole == old(self).whole,
                self.held() == self.out@ + held_from(model@, self.left()),
                old(self).delivered().is_prefix_of(old(self).held()),
            decreases self.expected - self.produced,
        {
            let ghost m = model@;
            let ghost had = self.out@;
            let symbol: i32 = model.decode_symbol();
            if symbol < 0 || model.ran_dry() {
                return Err(Error::Malformed);
            }
            let byte: u8 = #[verifier::truncate] (symbol as u8);
            buf[filled] = byte;
            filled = filled + 1;
            self.produced = self.produced + 1;
            self.out = Ghost(had.push(byte));
            proof {
                assert(self.out@ =~= start + buf@.take(filled as int));
                let rest = run(model@, self.left());
                if let Ok(more) = rest {
                    assert(had + (seq![byte] + more) =~= had.push(byte) + more);
                }
                let more = held_from(model@, self.left());
                assert(had + (seq![byte] + more) =~= had.push(byte) + more);
            }
        }
        if self.produced >= self.expected {
            if !model.is_finished() {
                return Err(Error::Malformed);
            }
            assert(self.out@ + Seq::<u8>::empty() =~= self.out@);
        } else {
            self.model = Some(model);
        }
        assert(buf@.skip(filled as int) =~= before.skip(filled as int));
        Ok(filled)
    }
}

} // verus!
