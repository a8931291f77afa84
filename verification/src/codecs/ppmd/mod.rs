//! PPMd var. I, as ZIP uses it, and var. H.
pub mod arena;
pub mod blocks;
pub mod forgetting;
pub mod h;
pub mod learning;
pub mod model;
pub mod range;
pub mod rules;
pub mod scaling;
pub mod states;

use crate::codecs::ppmd::model::Ppmd8;
use crate::codecs::ppmd::rules::{Model, MAX_ORDER, RESTORE_CUT_OFF};
use crate::utils::error;
use crate::utils::error::{Error, Result, Unsupported};
use vstd::prelude::*;

verus! {

/// The shortest maximal context.
pub const MIN_ORDER: u32 = 2;

/// What up to `n` symbols decode to: fewer where the data ends.
pub open spec fn run(m: Model, n: nat) -> std::result::Result<Seq<u8>, Error>
    decreases n,
{
    if n == 0 {
        Ok(Seq::empty())
    } else {
        let (next, symbol) = rules::decoded(m);
        if symbol < 0 {
            if symbol == rules::SYM_ERROR {
                Err(Error::Malformed)
            } else {
                Ok(Seq::empty())
            }
        } else {
            error::joined(seq![symbol as u8], run(next, (n - 1) as nat))
        }
    }
}

/// What up to `n` symbols hold, up to the first that cannot be decoded.
pub open spec fn held_from(m: Model, n: nat) -> Seq<u8>
    decreases n,
{
    if n == 0 {
        Seq::empty()
    } else {
        let (next, symbol) = rules::decoded(m);
        if symbol < 0 {
            Seq::empty()
        } else {
            seq![symbol as u8] + held_from(next, (n - 1) as nat)
        }
    }
}

/// The parameters before the data: the order, the memory in bytes, and what
/// is done once it is used up.
pub open spec fn parameters(data: Seq<u8>) -> (u32, u32, u32) {
    let word = data[0] + 0x100 * data[1];
    (
        (word % 16 + 1) as u32,
        ((word / 16 % 256 + 1) * 0x10_0000) as u32,
        (word / 4096) as u32,
    )
}

/// A model at the start of an entry.
pub open spec fn started(data: Seq<u8>) -> std::result::Result<Model, Error> {
    if data.len() < 2 {
        Err(Error::Malformed)
    } else {
        let (order, memory, restore) = parameters(data);
        if order < MIN_ORDER {
            Err(Error::Malformed)
        } else if restore > RESTORE_CUT_OFF {
            Err(Error::Unsupported(Unsupported::Other))
        } else {
            match range::started(data.skip(2)) {
                None => Err(Error::Malformed),
                Some(rc) => Ok(rules::fresh(rc, memory, order, restore)),
            }
        }
    }
}

/// What an entry decodes to, `expected` bytes of it at most.
pub open spec fn decoded(data: Seq<u8>, expected: nat) -> std::result::Result<Seq<u8>, Error> {
    match started(data) {
        Err(e) => Err(e),
        Ok(m) => run(m, expected),
    }
}

/// What an entry holds up to its end or up to the first fault.
pub open spec fn held(data: Seq<u8>, expected: nat) -> Seq<u8> {
    match started(data) {
        Err(_) => Seq::empty(),
        Ok(m) => held_from(m, expected),
    }
}

fn start(inner: Vec<u8>) -> (r: Result<Ppmd8>)
    ensures
        match started(inner@) {
            Ok(m) => r matches Ok(x) && x.wf() && x@ == m,
            Err(e) => r matches Err(f) && f == e,
        },
{
    if inner.len() < 2 {
        return Err(Error::Malformed);
    }
    let word: u32 = inner[0] as u32 + 0x100 * inner[1] as u32;
    let order: u32 = word % 16 + 1;
    let memory: u32 = (word / 16 % 256 + 1) * 0x10_0000;
    let restore: u32 = word / 4096;
    if order < MIN_ORDER || order > MAX_ORDER {
        return Err(Error::Malformed);
    }
    if restore > RESTORE_CUT_OFF {
        return Err(Error::Unsupported(Unsupported::Other));
    }
    let n: usize = inner.len();
    let mut rest: Vec<u8> = Vec::with_capacity(n - 2);
    rest.extend_from_slice(&inner.as_slice()[2..n]);
    assert(rest@ =~= inner@.skip(2));
    Ppmd8::new(rest, memory, order, restore)
}

/// Where a reader stands.
enum Stage {
    Start(Vec<u8>),
    Running(Ppmd8),
    Done,
}

/// A PPMd entry decoded as it is read.
///
/// The decoded output passes through a symbol at a time. The model itself is
/// as large as the entry asked for, up to 256 MiB, and is held for as long as
/// the entry is being read.
pub struct Reader {
    stage: Stage,
    expected: u64,
    produced: u64,
    data: Ghost<Seq<u8>>,
    out: Ghost<Seq<u8>>,
}

impl Reader {
    /// What the entry decodes to.
    pub closed spec fn stream(&self) -> std::result::Result<Seq<u8>, Error> {
        decoded(self.data@, self.expected as nat)
    }

    /// The entry.
    pub closed spec fn input(&self) -> Seq<u8> {
        self.data@
    }

    /// How many bytes the entry has.
    pub closed spec fn length(&self) -> nat {
        self.expected as nat
    }

    /// What the entry holds, or where it cannot be decoded to its end, what it
    /// holds before the fault.
    pub open spec fn held(&self) -> Seq<u8> {
        held(self.input(), self.length())
    }

    /// What was read so far.
    pub closed spec fn delivered(&self) -> Seq<u8> {
        self.out@
    }

    /// How many bytes may still come.
    pub closed spec fn left(&self) -> nat {
        (self.expected - self.produced) as nat
    }

    /// Whether everything was read.
    pub closed spec fn done(&self) -> bool {
        self.stage is Done
    }

    /// The reader stands somewhere in the entry that it was given.
    pub closed spec fn wf(&self) -> bool {
        &&& self.produced <= self.expected
        &&& match self.stage {
            Stage::Start(v) => v@ == self.data@ && self.out@.len() == 0 && self.produced == 0,
            Stage::Running(m) => m.wf() && self.stream() == error::joined(
                self.out@,
                run(m@, self.left()),
            ) && self.held() == self.out@ + held_from(m@, self.left()),
            Stage::Done => self.stream() == Ok::<Seq<u8>, Error>(self.out@) && self.held()
                == self.out@,
        }
    }

    /// What was read is a start of what the entry decodes to; at the end it
    /// is all of it.
    pub proof fn lemma_delivered(&self)
        requires
            self.wf(),
        ensures
            self.stream() == decoded(self.input(), self.length()),
            self.stream() matches Ok(all) ==> self.delivered().is_prefix_of(all),
            self.delivered().is_prefix_of(self.held()),
            self.done() ==> self.stream() == Ok::<Seq<u8>, Error>(self.delivered()),
    {
        assert(self.held().take(self.out@.len() as int) =~= self.out@);
        if let Ok(all) = self.stream() {
            assert(all.take(self.out@.len() as int) =~= self.out@);
        }
    }

    /// Wrap `inner` at the start of a PPMd entry `expected` bytes long.
    pub fn new(inner: Vec<u8>, expected: u64) -> (r: Self)
        ensures
            r.wf(),
            r.input() == inner@,
            r.length() == expected,
            r.delivered() == Seq::<u8>::empty(),
            r.left() == expected,
    {
        let ghost data = inner@;
        Reader {
            stage: Stage::Start(inner),
            expected,
            produced: 0,
            data: Ghost(data),
            out: Ghost(Seq::empty()),
        }
    }

    /// Read the next bytes of the output into `buf`.
    #[verifier::spinoff_prover]
    pub fn read(&mut self, buf: &mut [u8]) -> (r: Result<usize>)
        requires
            old(self).wf(),
        ensures
            final(buf)@.len() == old(buf)@.len(),
            r matches Ok(n) ==> {
                &&& final(self).wf()
                &&& final(self).input() == old(self).input()
                &&& final(self).length() == old(self).length()
                &&& n <= old(buf)@.len()
                &&& final(self).delivered() == old(self).delivered() + final(buf)@.take(n as int)
                &&& final(buf)@.skip(n as int) == old(buf)@.skip(n as int)
                &&& final(self).left() == old(self).left() - n
                &&& n < old(buf)@.len() ==> final(self).done()
            },
            r matches Err(e) ==> old(self).stream() == Err::<Seq<u8>, Error>(e) && old(
                self,
            ).delivered().is_prefix_of(old(self).held()),
    {
        proof {
            self.lemma_delivered();
        }
        let ghost before = buf@;
        let ghost from = self.out@;
        assert(from + buf@.take(0) =~= from);
        if buf.len() == 0 {
            return Ok(0);
        }
        let mut stage: Stage = Stage::Done;
        std::mem::swap(&mut stage, &mut self.stage);
        let mut model: Ppmd8 = match stage {
            Stage::Done => {
                return Ok(0);
            },
            Stage::Running(m) => m,
            Stage::Start(inner) => match start(inner) {
                Err(e) => {
                    return Err(e);
                },
                Ok(m) => {
                    proof {
                        if let Ok(s) = run(m@, self.left()) {
                            assert(self.out@ + s =~= s);
                        }
                        let h = held_from(m@, self.left());
                        assert(self.out@ + h =~= h);
                    }
                    m
                },
            },
        };
        let mut filled: usize = 0;
        while filled < buf.len() && self.produced < self.expected
            invariant
                filled <= buf@.len(),
                buf@.len() == before.len(),
                before == old(buf)@,
                from == old(self).out@,
                forall|k: int| filled <= k < buf@.len() ==> #[trigger] buf@[k] == before[k],
                model.wf(),
                self.stage is Done,
                self.produced <= self.expected,
                self.expected == old(self).expected,
                self.produced == old(self).produced + filled,
                self.data == old(self).data,
                self.out@ == from + buf@.take(filled as int),
                self.stream() == old(self).stream(),
                self.stream() == error::joined(self.out@, run(model@, self.left())),
                self.held() == old(self).held(),
                self.held() == self.out@ + held_from(model@, self.left()),
                old(self).delivered().is_prefix_of(old(self).held()),
            decreases self.expected - self.produced,
        {
            let ghost had = self.out@;
            let symbol: i32 = model.decode_symbol();
            if symbol < 0 {
                if symbol == rules::SYM_ERROR {
                    return Err(Error::Malformed);
                }
                proof {
                    assert(had + Seq::<u8>::empty() =~= had);
                    assert(buf@.skip(filled as int) =~= before.skip(filled as int));
                }
                return Ok(filled);
            }
            let byte: u8 = #[verifier::truncate] (symbol as u8);
            buf[filled] = byte;
            filled = filled + 1;
            self.produced = self.produced + 1;
            self.out = Ghost(had.push(byte));
            proof {
                assert(self.out@ =~= from + buf@.take(filled as int));
                let rest = run(model@, self.left());
                if let Ok(more) = rest {
                    assert(had + (seq![byte] + more) =~= had.push(byte) + more);
                }
                let more = held_from(model@, self.left());
                assert(had + (seq![byte] + more) =~= had.push(byte) + more);
            }
        }
        if self.produced < self.expected {
            self.stage = Stage::Running(model);
        } else {
            assert(self.out@ + Seq::<u8>::empty() =~= self.out@);
        }
        assert(buf@.skip(filled as int) =~= before.skip(filled as int));
        Ok(filled)
    }
}

/// Decode a PPMd entry of `expected` bytes.
pub fn decompress(data: &[u8], expected: u64) -> (r: Result<Vec<u8>>)
    ensures
        match decoded(data@, expected as nat) {
            Ok(all) => r matches Ok(out) && out@ == all,
            Err(e) => r matches Err(f) && f == e,
        },
{
    let mut input: Vec<u8> = Vec::with_capacity(data.len());
    input.extend_from_slice(data);
    assert(input@ =~= data@);
    let mut reader: Reader = Reader::new(input, expected);
    let mut out: Vec<u8> = Vec::new();
    let mut chunk: Vec<u8> = vec![0u8; 4096];
    loop
        invariant
            reader.wf(),
            reader.input() == data@,
            reader.length() == expected,
            out@ == reader.delivered(),
            chunk@.len() == 4096,
        decreases reader.left(),
    {
        proof {
            reader.lemma_delivered();
        }
        match reader.read(chunk.as_mut_slice()) {
            Err(e) => {
                return Err(e);
            },
            Ok(n) => {
                out.extend_from_slice(&chunk.as_slice()[0..n]);
                assert(out@ =~= reader.delivered());
                if n == 0 {
                    proof {
                        reader.lemma_delivered();
                    }
                    return Ok(out);
                }
            },
        }
    }
}

} // verus!
