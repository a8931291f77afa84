//! LZW as `compress(1)` writes it.
use crate::utils::bits;
use crate::utils::error::{Error, Result};
use vstd::arithmetic::power2::*;
use vstd::prelude::*;

verus! {

/// The bytes a stream starts with.
pub const MAGIC: [u8; 2] = [0x1f, 0x9d];

const INIT_BITS: u32 = 9;

const MAX_MAX_BITS: u32 = 16;

const CLEAR: u16 = 256;

const FIRST_FREE: u16 = 257;

/// Whether a byte string can be the start of a `compress(1)` stream.
pub fn is_compress(prefix: &[u8]) -> (r: bool)
    ensures
        r == (prefix@.len() >= 2 && prefix@[0] == 0x1f && prefix@[1] == 0x9d),
{
    prefix.len() >= 2 && prefix[0] == MAGIC[0] && prefix[1] == MAGIC[1]
}

/// Where decoding stands.
#[verifier::ext_equal]
pub struct Codes {
    /// What comes before the last byte of each code.
    pub prefix: Seq<u16>,
    /// The last byte of each code.
    pub suffix: Seq<u8>,
    /// The first code that is not known.
    pub next: int,
    /// How many bits the next code has.
    pub width: nat,
    /// The last code.
    pub previous: Option<u16>,
    /// The bit that groups of eight codes are counted from.
    pub base: int,
}

/// What the header says: the most bits of a code, and whether a code clears
/// the table.
pub struct Kind {
    pub max_bits: nat,
    pub block: bool,
}

/// What the third byte of a stream says.
pub open spec fn kind_of(flags: u8) -> Option<Kind> {
    let most = (flags % 32) as nat;
    if 9 <= most <= 16 {
        Some(Kind { max_bits: most, block: flags >= 128 })
    } else {
        None
    }
}

/// The codes at the start.
pub open spec fn start_codes(k: Kind) -> Codes {
    Codes {
        prefix: Seq::new(pow2(k.max_bits), |i: int| 0u16),
        suffix: Seq::new(
            pow2(k.max_bits),
            |i: int|
                if i < 256 {
                    i as u8
                } else {
                    0
                },
        ),
        next: if k.block {
            257
        } else {
            256
        },
        width: 9,
        previous: None,
        base: 0,
    }
}

/// Whether a code stands for a byte, and not for an earlier code and a byte.
/// Where a code clears the table, that one has no entry either.
pub open spec fn is_single(k: Kind, code: int) -> bool {
    code < 256 || k.block && code == 256
}

/// The bytes of a code.
pub open spec fn expanded(c: Codes, k: Kind, code: int) -> Seq<u8>
    decreases code,
{
    if is_single(k, code) || c.prefix[code] >= code {
        seq![c.suffix[code]]
    } else {
        expanded(c, k, c.prefix[code] as int).push(c.suffix[code])
    }
}

/// The bytes that the next code stands for, if it can come next. The first
/// unknown code is the last one and its first byte again.
pub open spec fn piece(c: Codes, k: Kind, code: int) -> Option<Seq<u8>> {
    if code < c.next {
        Some(expanded(c, k, code))
    } else if code > c.next {
        None
    } else {
        match c.previous {
            None => None,
            Some(p) => {
                let s = expanded(c, k, p as int);
                Some(s.push(s[0]))
            },
        }
    }
}

/// The codes after one more: the last one with the first byte of this one is a
/// new code.
pub open spec fn learned(c: Codes, k: Kind, code: int, first: u8) -> Codes {
    let known = match c.previous {
        None => c,
        Some(p) => if c.next < pow2(k.max_bits) {
            Codes {
                prefix: c.prefix.update(c.next, p),
                suffix: c.suffix.update(c.next, first),
                next: c.next + 1,
                width: if c.next + 1 >= pow2(c.width) && c.width < k.max_bits {
                    c.width + 1
                } else {
                    c.width
                },
                ..c
            }
        } else {
            c
        },
    };
    Codes { previous: Some(code as u16), ..known }
}

/// The codes after a clear.
pub open spec fn cleared(c: Codes) -> Codes {
    Codes { width: 9, next: 257, previous: None, ..c }
}

/// The end of the group of eight codes that bit `p` lies in, groups being
/// counted from `base`.
pub open spec fn group_end(base: int, p: int, width: nat) -> int {
    let group = 8 * width as int;
    if (p - base) % group == 0 {
        p
    } else {
        p + (group - (p - base) % group)
    }
}

/// Where the next code stands. Codes of another width start a group.
pub open spec fn moved(c: Codes, width: nat, p: int) -> (Codes, int) {
    if c.width == width {
        (c, p)
    } else {
        let q = group_end(c.base, p, width);
        (Codes { base: q, ..c }, q)
    }
}

/// What the next code does.
pub enum Step {
    /// It stands for these bytes.
    Bytes(Seq<u8>, Codes, int),
    /// It clears the table.
    Cleared(Codes, int),
    /// There is none.
    Stop,
    /// It names nothing.
    Bad,
}

/// What the code at bit `p` does.
#[verifier::opaque]
pub open spec fn step(data: Seq<u8>, k: Kind, c: Codes, p: int) -> Step {
    if p + c.width > 8 * data.len() {
        Step::Stop
    } else {
        let code = bits::peek(data, p, c.width) as int;
        let q = p + c.width;
        if k.block && code == 256 {
            let end = group_end(c.base, q, c.width);
            Step::Cleared(Codes { base: end, ..cleared(c) }, end)
        } else {
            match piece(c, k, code) {
                None => Step::Bad,
                Some(s) => {
                    let (d, next) = moved(learned(c, k, code, s[0]), c.width, q);
                    Step::Bytes(s, d, next)
                },
            }
        }
    }
}

/// Everything from bit `p` on, after `out`.
pub open spec fn run(data: Seq<u8>, k: Kind, c: Codes, p: int, out: Seq<u8>) -> Option<Seq<u8>>
    decreases (if p < 8 * data.len() { 8 * data.len() - p } else { 0 }),
{
    match step(data, k, c, p) {
        Step::Stop => Some(out),
        Step::Bad => None,
        Step::Cleared(d, q) => if p < q && p < 8 * data.len() {
            run(data, k, d, q, out)
        } else {
            None
        },
        Step::Bytes(s, d, q) => if p < q && p < 8 * data.len() {
            run(data, k, d, q, out + s)
        } else {
            None
        },
    }
}

/// What a stream decodes to.
pub open spec fn decoded(data: Seq<u8>) -> Option<Seq<u8>> {
    if data.len() < 3 || data[0] != 0x1f || data[1] != 0x9d {
        None
    } else {
        match kind_of(data[2]) {
            None => None,
            Some(k) => run(data.skip(3), k, start_codes(k), 0, Seq::empty()),
        }
    }
}

/// What is held from bit `p` on, after `out`, up to the end or up to the first
/// code that stands for nothing.
pub open spec fn held_from(data: Seq<u8>, k: Kind, c: Codes, p: int, out: Seq<u8>) -> Seq<u8>
    decreases (if p < 8 * data.len() { 8 * data.len() - p } else { 0 }),
{
    match step(data, k, c, p) {
        Step::Stop => out,
        Step::Bad => out,
        Step::Cleared(d, q) => if p < q && p < 8 * data.len() {
            held_from(data, k, d, q, out)
        } else {
            out
        },
        Step::Bytes(s, d, q) => if p < q && p < 8 * data.len() {
            held_from(data, k, d, q, out + s)
        } else {
            out
        },
    }
}

/// What a stream holds up to its end or up to the first fault.
pub open spec fn held(data: Seq<u8>) -> Seq<u8> {
    if data.len() < 3 || data[0] != 0x1f || data[1] != 0x9d {
        Seq::empty()
    } else {
        match kind_of(data[2]) {
            None => Seq::empty(),
            Some(k) => held_from(data.skip(3), k, start_codes(k), 0, Seq::empty()),
        }
    }
}

proof fn lemma_run_extends(data: Seq<u8>, k: Kind, c: Codes, p: int, out: Seq<u8>)
    ensures
        run(data, k, c, p, out) matches Some(all) ==> out.is_prefix_of(all) && held_from(
            data,
            k,
            c,
            p,
            out,
        ) == all,
        out.is_prefix_of(held_from(data, k, c, p, out)),
    decreases (if p < 8 * data.len() { 8 * data.len() - p } else { 0 }),
{
    assert(out.take(out.len() as int) =~= out);
    match step(data, k, c, p) {
        Step::Stop => {
            assert(out.take(out.len() as int) =~= out);
        },
        Step::Bad => {},
        Step::Cleared(d, q) => {
            if p < q && p < 8 * data.len() {
                lemma_run_extends(data, k, d, q, out);
            }
        },
        Step::Bytes(s, d, q) => {
            if p < q && p < 8 * data.len() {
                lemma_run_extends(data, k, d, q, out + s);
                let h = held_from(data, k, d, q, out + s);
                assert(h.take(out.len() as int) =~= h.take((out + s).len() as int).take(
                    out.len() as int,
                ));
                assert((out + s).take(out.len() as int) =~= out);
                if let Some(all) = run(data, k, d, q, out + s) {
                    assert(all.take(out.len() as int) =~= all.take((out + s).len() as int).take(
                        out.len() as int,
                    ));
                    assert((out + s).take(out.len() as int) =~= out);
                }
            }
        },
    }
}

proof fn lemma_expanded_some(c: Codes, k: Kind, code: int)
    ensures
        expanded(c, k, code).len() > 0,
    decreases code,
{
    if !is_single(k, code) && c.prefix[code] < code {
        lemma_expanded_some(c, k, c.prefix[code] as int);
    }
}

struct Lzw {
    prefix: Vec<u16>,
    suffix: Vec<u8>,
    next: usize,
    width: u32,
    max_bits: u32,
    limit: usize,
    block_mode: bool,
    previous: Option<u16>,
    base: u128,
}

impl Lzw {
    spec fn kind(&self) -> Kind {
        Kind { max_bits: self.max_bits as nat, block: self.block_mode }
    }

    spec fn codes(&self) -> Codes {
        Codes {
            prefix: self.prefix@,
            suffix: self.suffix@,
            next: self.next as int,
            width: self.width as nat,
            previous: self.previous,
            base: self.base as int,
        }
    }

    spec fn wf(&self) -> bool {
        &&& 9 <= self.width <= self.max_bits <= 16
        &&& self.limit == pow2(self.max_bits as nat)
        &&& self.limit <= 65536
        &&& self.prefix@.len() == self.limit
        &&& self.suffix@.len() == self.limit
        &&& 256 <= self.next <= self.limit
        &&& self.previous matches Some(p) ==> p < self.next
        &&& forall|i: int|
            256 <= i < self.next && !is_single(self.kind(), i) ==> #[trigger] self.prefix@[i] < i
    }

    fn new(flags: u8) -> (r: Result<Self>)
        ensures
            match kind_of(flags) {
                Some(k) => r matches Ok(z) && z.wf() && z.kind() == k && z.codes() == start_codes(k),
                None => r matches Err(e) && e == Error::Malformed,
            },
    {
        let max_bits: u32 = (flags % 32) as u32;
        let block_mode: bool = flags >= 128;
        if max_bits < INIT_BITS || max_bits > MAX_MAX_BITS {
            return Err(Error::Malformed);
        }
        proof {
            lemma2_to64();
            if max_bits > 9 {
                lemma_pow2_strictly_increases(9, max_bits as nat);
            }
            if max_bits < 16 {
                lemma_pow2_strictly_increases(max_bits as nat, 16);
            }
        }
        let limit: usize = bits::power_of_two(max_bits) as usize;
        let mut suffix: Vec<u8> = vec![0u8; limit];
        let mut code: usize = 0;
        while code < 256
            invariant
                code <= 256,
                limit >= 512,
                suffix@.len() == limit,
                forall|i: int|
                    0 <= i < limit ==> #[trigger] suffix@[i] == if i < code {
                        i as u8
                    } else {
                        0
                    },
            decreases 256 - code,
        {
            suffix.set(code, code as u8);
            code = code + 1;
        }
        let z: Lzw = Lzw {
            prefix: vec![0u16; limit],
            suffix,
            next: if block_mode {
                257
            } else {
                256
            },
            width: INIT_BITS,
            max_bits,
            limit,
            block_mode,
            previous: None,
            base: 0,
        };
        proof {
            let k = z.kind();
            assert(z.prefix@ =~= start_codes(k).prefix);
            assert(z.suffix@ =~= start_codes(k).suffix);
        }
        Ok(z)
    }

    /// The bytes of a code, the last one first.
    fn unwind(&self, code: u16, stack: &mut Vec<u8>)
        requires
            self.wf(),
            code < self.next,
        ensures
            final(stack)@ == old(stack)@ + turned(
                expanded(self.codes(), self.kind(), code as int),
            ),
    {
        let ghost c = self.codes();
        let ghost kind = self.kind();
        let lowest: u16 = if self.block_mode {
            FIRST_FREE
        } else {
            CLEAR
        };
        let mut current: u16 = code;
        let ghost target = stack@ + turned(expanded(c, kind, code as int));
        while current >= lowest
            invariant
                self.wf(),
                c == self.codes(),
                kind == self.kind(),
                lowest == if kind.block {
                    257
                } else {
                    256int
                },
                current < self.next,
                target == stack@ + turned(expanded(c, kind, current as int)),
            decreases current,
        {
            let ghost before = stack@;
            let ghost rest = expanded(c, kind, self.prefix@[current as int] as int);
            let b: u8 = self.suffix[current as usize];
            stack.push(b);
            proof {
                assert(turned(rest.push(b)) =~= seq![b] + turned(rest));
                assert(before + turned(rest.push(b)) =~= stack@ + turned(rest));
            }
            current = self.prefix[current as usize];
        }
        let b: u8 = self.suffix[current as usize];
        let ghost before = stack@;
        stack.push(b);
        assert(turned(seq![b]) =~= seq![b]);
        assert(stack@ =~= before + seq![b]);
    }

    /// Take a code. It is an error where the code cannot come next.
    fn step(&mut self, code: u16, out: &mut Vec<u8>) -> (r: Result<()>)
        requires
            old(self).wf(),
            code < old(self).limit,
        ensures
            match piece(old(self).codes(), old(self).kind(), code as int) {
                Some(s) => r is Ok && final(self).wf() && final(self).kind() == old(self).kind()
                    && final(out)@ == old(out)@ + s && final(self).codes() == learned(
                    old(self).codes(),
                    old(self).kind(),
                    code as int,
                    s[0],
                ),
                None => r == Err::<(), Error>(Error::Malformed),
            },
    {
        let ghost c = self.codes();
        let ghost kind = self.kind();
        if code as usize > self.next {
            return Err(Error::Malformed);
        }
        let mut stack: Vec<u8> = Vec::new();
        if code as usize == self.next {
            match self.previous {
                None => {
                    return Err(Error::Malformed);
                },
                Some(first) => {
                    proof {
                        lemma_expanded_some(c, kind, first as int);
                    }
                    let mut rest: Vec<u8> = Vec::new();
                    self.unwind(first, &mut rest);
                    let ghost s = expanded(c, kind, first as int);
                    assert(rest@ =~= turned(s));
                    stack.push(rest[rest.len() - 1]);
                    stack.extend_from_slice(rest.as_slice());
                    assert(stack@ =~= turned(s.push(s[0])));
                },
            }
        } else {
            proof {
                lemma_expanded_some(c, kind, code as int);
            }
            self.unwind(code, &mut stack);
            assert(stack@ =~= turned(expanded(c, kind, code as int)));
        }
        let ghost s = piece(c, kind, code as int)->Some_0;
        assert(stack@ == turned(s) && s.len() > 0);
        let mut k: usize = stack.len();
        assert(s.take(0) =~= Seq::<u8>::empty());
        while k > 0
            invariant
                k <= stack@.len(),
                stack@ == turned(s),
                out@ == old(out)@ + s.take(stack@.len() - k),
            decreases k,
        {
            k = k - 1;
            out.push(stack[k]);
            assert(s.take(stack@.len() - k) =~= s.take(stack@.len() - k - 1).push(
                stack@[k as int],
            ));
        }
        assert(s.take(stack@.len() as int) =~= s);
        let first: u8 = stack[stack.len() - 1];
        if let Some(earlier) = self.previous {
            if self.next < self.limit {
                let at: usize = self.next;
                self.prefix.set(at, earlier);
                self.suffix.set(at, first);
                self.next = at + 1;
                proof {
                    lemma2_to64();
                    lemma_pow2_strictly_increases(self.width as nat, 17);
                }
                if self.next as u64 >= bits::power_of_two(self.width) && self.width
                    < self.max_bits {
                    self.width = self.width + 1;
                }
            }
        }
        self.previous = Some(code);
        assert(self.codes() =~= learned(c, old(self).kind(), code as int, s[0]));
        Ok(())
    }

    fn clear(&mut self)
        requires
            old(self).wf(),
            old(self).block_mode,
        ensures
            final(self).wf(),
            final(self).kind() == old(self).kind(),
            final(self).codes() == cleared(old(self).codes()),
    {
        proof {
            lemma2_to64();
            if self.max_bits > 9 {
                lemma_pow2_strictly_increases(9, self.max_bits as nat);
            }
        }
        self.width = INIT_BITS;
        self.next = FIRST_FREE as usize;
        self.previous = None;
    }
}

spec fn turned(s: Seq<u8>) -> Seq<u8> {
    Seq::new(s.len(), |i: int| s[s.len() - 1 - i])
}

const PRODUCE: usize = 65_536;

/// LZW as `compress(1)` writes it, decoded as it is read.
///
/// Distinct from the ZIP shrink codec: codes are packed least significant bit
/// first, the width grows on a fixed schedule rather than by an explicit signal,
/// and after a clear, as where the width grows, the encoder pads to a whole
/// group of codes of the old width. The input is held whole.
pub struct Reader {
    data: Vec<u8>,
    state: Option<Lzw>,
    bit_pos: u128,
    out: Vec<u8>,
    read: usize,
    finished: bool,
    all: Ghost<Seq<u8>>,
}

impl Reader {
    /// The bytes it decodes.
    pub closed spec fn input(&self) -> Seq<u8> {
        self.data@
    }

    /// What the whole stream decodes to.
    pub open spec fn stream(&self) -> Option<Seq<u8>> {
        decoded(self.input())
    }

    /// What the whole stream holds, or where it cannot be decoded to its end,
    /// what it holds before the fault.
    pub open spec fn held(&self) -> Seq<u8> {
        held(self.input())
    }

    /// What was read so far.
    pub closed spec fn delivered(&self) -> Seq<u8> {
        self.all@.take(self.all@.len() - (self.out@.len() - self.read))
    }

    /// Whether the end of the stream was reached and everything was read.
    pub closed spec fn done(&self) -> bool {
        self.finished && self.out@.len() == self.read
    }

    /// The reader stands somewhere in the stream that it was given.
    pub closed spec fn wf(&self) -> bool {
        &&& self.read <= self.out@.len() <= self.all@.len()
        &&& self.out@ == self.all@.skip(self.all@.len() - self.out@.len())
        &&& self.bit_pos <= 8 * self.data@.len() + 256
        &&& match self.state {
            None => self.all@.len() == 0 && !self.finished && self.bit_pos == 0,
            Some(z) => {
                &&& self.data@.len() >= 3
                &&& z.wf()
                &&& z.base <= self.bit_pos
                &&& self.stream() == if self.finished {
                    Some(self.all@)
                } else {
                    run(self.data@.skip(3), z.kind(), z.codes(), self.bit_pos as int, self.all@)
                }
                &&& self.held() == if self.finished {
                    self.all@
                } else {
                    held_from(
                        self.data@.skip(3),
                        z.kind(),
                        z.codes(),
                        self.bit_pos as int,
                        self.all@,
                    )
                }
            },
        }
    }

    /// How much reading is left at most.
    pub closed spec fn budget(&self) -> (nat, nat) {
        (
            (8 * self.data@.len() + 257 - self.bit_pos + if self.state is None {
                1int
            } else {
                0
            }) as nat,
            (self.out@.len() - self.read) as nat,
        )
    }

    /// What was read is a start of what the stream decodes to; at the end it
    /// is all of it.
    pub proof fn lemma_delivered(&self)
        requires
            self.wf(),
        ensures
            self.stream() matches Some(all) ==> self.delivered().is_prefix_of(all),
            self.delivered().is_prefix_of(self.held()),
            self.done() ==> self.stream() == Some(self.delivered()),
    {
        if let Some(z) = self.state {
            lemma_run_extends(
                self.data@.skip(3),
                z.kind(),
                z.codes(),
                self.bit_pos as int,
                self.all@,
            );
        }
        let h = self.held();
        assert(self.all@.take(self.all@.len() as int) =~= self.all@);
        assert(h.take(self.all@.len() as int) =~= self.all@) by {
            if self.state is None {
                assert(h.take(0) =~= self.all@);
            }
        }
        assert(self.delivered() =~= h.take(self.all@.len() as int).take(
            self.delivered().len() as int,
        ));
        assert(self.delivered() =~= h.take(self.delivered().len() as int));
        if let Some(all) = self.stream() {
            assert(self.all@.is_prefix_of(all)) by {
                if self.state is None {
                    assert(all.take(0) =~= self.all@);
                }
            }
            assert(self.delivered() =~= all.take(self.delivered().len() as int)) by {
                assert(all.take(self.all@.len() as int) == self.all@);
            }
        }
        if self.done() {
            assert(self.delivered() =~= self.all@);
        }
    }

    /// Wrap `inner` at the start of a `compress(1)` stream.
    pub fn new(inner: Vec<u8>) -> (r: Self)
        ensures
            r.wf(),
            r.input() == inner@,
            r.delivered() == Seq::<u8>::empty(),
    {
        let r: Reader = Reader {
            data: inner,
            state: None,
            bit_pos: 0,
            out: Vec::new(),
            read: 0,
            finished: false,
            all: Ghost(Seq::empty()),
        };
        assert(r.delivered() =~= Seq::<u8>::empty());
        assert(r.out@ =~= r.all@.skip(0));
        r
    }

    fn header(&mut self) -> (r: Result<()>)
        requires
            old(self).wf(),
            old(self).state is None,
        ensures
            r is Ok ==> final(self).wf() && final(self).input() == old(self).input()
                && final(self).delivered() == old(self).delivered() && final(self).state is Some
                && final(self).budget().0 < old(self).budget().0 && !final(self).finished,
            r matches Err(e) ==> e == Error::Malformed && old(self).stream() is None,
    {
        if self.data.len() < 3 {
            return Err(Error::Malformed);
        }
        if !is_compress(self.data.as_slice()) {
            return Err(Error::Malformed);
        }
        match Lzw::new(self.data[2]) {
            Ok(z) => {
                self.state = Some(z);
                assert(self.all@ =~= Seq::<u8>::empty());
                Ok(())
            },
            Err(e) => Err(e),
        }
    }

    fn compact(&mut self)
        requires
            old(self).wf(),
        ensures
            final(self).wf(),
            final(self).input() == old(self).input(),
            final(self).delivered() == old(self).delivered(),
            final(self).state == old(self).state,
            final(self).finished == old(self).finished,
            final(self).bit_pos == old(self).bit_pos,
            final(self).budget() == old(self).budget(),
            final(self).out@.len() - final(self).read == old(self).out@.len() - old(self).read,
    {
        if self.read >= PRODUCE {
            let from: usize = self.read;
            let end: usize = self.out.len();
            let mut rest: Vec<u8> = Vec::with_capacity(end - from);
            rest.extend_from_slice(&self.out.as_slice()[from..end]);
            assert(rest@ =~= self.all@.skip(self.all@.len() - rest@.len()));
            self.out = rest;
            self.read = 0;
            assert(self.delivered() =~= old(self).delivered());
        }
    }

    /// Take one code. What comes back is whether there was one.
    #[verifier::rlimit(40)]
    #[verifier::spinoff_prover]
    fn code(&mut self) -> (r: Result<bool>)
        requires
            old(self).wf(),
            old(self).state is Some,
            !old(self).finished,
        ensures
            r matches Ok(more) ==> {
                &&& final(self).wf()
                &&& final(self).input() == old(self).input()
                &&& final(self).delivered() == old(self).delivered()
                &&& final(self).state is Some
                &&& final(self).finished == !more
                &&& more ==> final(self).budget().0 < old(self).budget().0
                &&& !more ==> final(self).budget() == old(self).budget()
                &&& final(self).read == old(self).read
                &&& final(self).out@.len() >= old(self).out@.len()
            },
            r matches Err(e) ==> e == Error::Malformed && old(self).stream() is None,
    {
        reveal(step);
        let mut taken: Option<Lzw> = None;
        std::mem::swap(&mut taken, &mut self.state);
        let mut z: Lzw = match taken {
            Some(z) => z,
            None => {
                return Err(Error::Malformed);
            },
        };
        let ghost body = self.data@.skip(3);
        let ghost c = z.codes();
        let ghost p = self.bit_pos as int;
        let width: u32 = z.width;
        let total: u128 = 8 * ((self.data.len() - 3) as u128);
        if self.bit_pos + width as u128 > total {
            self.finished = true;
            self.state = Some(z);
            return Ok(false);
        }
        let code: u16 = take_code(self.data.as_slice(), self.bit_pos, width);
        proof {
            bits::lemma_peek_bound(body, p, width as nat);
            if width < z.max_bits {
                lemma_pow2_strictly_increases(width as nat, z.max_bits as nat);
            }
        }
        self.bit_pos = self.bit_pos + width as u128;
        if z.block_mode && code == CLEAR {
            self.bit_pos = skip_to_group(z.base, self.bit_pos, width);
            z.clear();
            z.base = self.bit_pos;
            self.state = Some(z);
            return Ok(true);
        }
        let ghost kind = z.kind();
        match z.step(code, &mut self.out) {
            Err(e) => {
                return Err(e);
            },
            Ok(_) => {},
        }
        if z.width != width {
            self.bit_pos = skip_to_group(z.base, self.bit_pos, width);
            z.base = self.bit_pos;
        }
        self.state = Some(z);
        let ghost s = piece(c, kind, code as int)->Some_0;
        let ghost more = self.all@ + s;
        self.all = Ghost(more);
        proof {
            assert(self.out@ =~= more.skip(more.len() - self.out@.len()));
            assert(self.delivered() =~= old(self).delivered());
        }
        Ok(true)
    }

    fn produce(&mut self) -> (r: Result<()>)
        requires
            old(self).wf(),
            !old(self).finished,
            old(self).out@.len() == old(self).read,
        ensures
            r is Ok ==> {
                &&& final(self).wf()
                &&& final(self).input() == old(self).input()
                &&& final(self).delivered() == old(self).delivered()
                &&& final(self).finished || final(self).budget().0 < old(self).budget().0
                &&& final(self).budget().0 <= old(self).budget().0
                &&& final(self).budget().0 == old(self).budget().0 ==> final(self).budget().1
                    <= old(self).budget().1
            },
            r matches Err(e) ==> e == Error::Malformed && old(self).stream() is None,
    {
        if self.state.is_none() {
            return self.header();
        }
        let mut first: bool = true;
        while self.out.len() - self.read < PRODUCE
            invariant
                self.wf(),
                self.state is Some,
                !self.finished,
                self.input() == old(self).input(),
                self.delivered() == old(self).delivered(),
                first ==> self.out@.len() == self.read && self.budget() == old(self).budget(),
                !first ==> self.budget().0 < old(self).budget().0,
            decreases self.budget().0,
        {
            match self.code() {
                Err(e) => {
                    return Err(e);
                },
                Ok(more) => {
                    if !more {
                        return Ok(());
                    }
                },
            }
            first = false;
        }
        self.compact();
        Ok(())
    }

    /// Read the next bytes of the output into `buf`. Nothing is read only at
    /// the end of the stream.
    pub fn read(&mut self, buf: &mut [u8]) -> (r: Result<usize>)
        requires
            old(self).wf(),
        ensures
            final(buf)@.len() == old(buf)@.len(),
            r matches Ok(n) ==> {
                &&& final(self).wf()
                &&& final(self).input() == old(self).input()
                &&& n <= old(buf)@.len()
                &&& final(self).delivered() == old(self).delivered() + final(buf)@.take(n as int)
                &&& final(buf)@.skip(n as int) == old(buf)@.skip(n as int)
                &&& n == 0 && old(buf)@.len() > 0 ==> final(self).done()
                &&& n > 0 ==> less(final(self).budget(), old(self).budget())
            },
            r matches Err(e) ==> e == Error::Malformed && old(self).stream() is None && old(
                self,
            ).delivered().is_prefix_of(old(self).held()),
    {
        if buf.len() == 0 {
            assert(buf@.take(0) =~= Seq::<u8>::empty());
            return Ok(0);
        }
        proof {
            self.lemma_delivered();
        }
        while self.out.len() == self.read && !self.finished
            invariant
                self.wf(),
                self.input() == old(self).input(),
                self.delivered() == old(self).delivered(),
                old(self).delivered().is_prefix_of(old(self).held()),
                self.budget().0 <= old(self).budget().0,
                self.budget().0 == old(self).budget().0 ==> self.budget().1 <= old(self).budget().1,
                buf@ == old(buf)@,
            decreases self.budget().0, (if self.finished { 0int } else { 1int }),
        {
            if let Err(e) = self.produce() {
                return Err(e);
            }
        }
        let left: usize = self.out.len() - self.read;
        let n: usize = if left < buf.len() {
            left
        } else {
            buf.len()
        };
        let ghost before = buf@;
        let mut i: usize = 0;
        while i < n
            invariant
                i <= n <= buf@.len(),
                buf@.len() == before.len(),
                n <= self.out.len() - self.read,
                self.read <= self.out.len(),
                forall|k: int| 0 <= k < i ==> #[trigger] buf@[k] == self.out@[self.read + k],
                forall|k: int| n <= k < buf@.len() ==> #[trigger] buf@[k] == before[k],
            decreases n - i,
        {
            buf[i] = self.out[self.read + i];
            i = i + 1;
        }
        let ghost was = self.delivered();
        self.read = self.read + n;
        proof {
            assert(self.delivered() =~= was + buf@.take(n as int));
            assert(buf@.skip(n as int) =~= before.skip(n as int));
        }
        Ok(n)
    }

    /// Everything that is left.
    pub fn read_to_end(&mut self) -> (r: Result<Vec<u8>>)
        requires
            old(self).wf(),
            old(self).delivered() == Seq::<u8>::empty(),
        ensures
            match old(self).stream() {
                Some(all) => r matches Ok(out) && out@ == all,
                None => r matches Err(e) && e == Error::Malformed,
            },
    {
        let mut out: Vec<u8> = Vec::new();
        let mut chunk: Vec<u8> = vec![0u8; 4096];
        loop
            invariant
                self.wf(),
                self.input() == old(self).input(),
                out@ == self.delivered(),
                chunk@.len() == 4096,
            decreases self.budget().0, self.budget().1,
        {
            match self.read(chunk.as_mut_slice()) {
                Err(e) => {
                    return Err(e);
                },
                Ok(n) => {
                    if n == 0 {
                        proof {
                            self.lemma_delivered();
                            assert(out@ + chunk@.take(0) =~= out@);
                        }
                        return Ok(out);
                    }
                    out.extend_from_slice(&chunk.as_slice()[0..n]);
                    assert(out@ =~= self.delivered());
                },
            }
        }
    }
}

/// Whether one budget is smaller than another.
pub open spec fn less(a: (nat, nat), b: (nat, nat)) -> bool {
    a.0 < b.0 || a.0 == b.0 && a.1 < b.1
}

/// Decode a whole `compress(1)` stream.
pub fn decompress(data: &[u8], size_hint: usize) -> (r: Result<Vec<u8>>)
    ensures
        match decoded(data@) {
            Some(all) => r matches Ok(out) && out@ == all,
            None => r matches Err(e) && e == Error::Malformed,
        },
{
    let mut input: Vec<u8> = Vec::with_capacity(data.len());
    input.extend_from_slice(data);
    assert(input@ =~= data@);
    let mut reader: Reader = Reader::new(input);
    reader.read_to_end()
}

/// The code of `width` bits at `bit_pos` after the header.
fn take_code(data: &[u8], bit_pos: u128, width: u32) -> (r: u16)
    requires
        data@.len() >= 3,
        width <= 16,
        bit_pos + width <= 8 * (data.len() - 3),
    ensures
        r == bits::peek(data@.skip(3), bit_pos as int, width as nat),
{
    let ghost body = data@.skip(3);
    let mut value: u64 = 0;
    let mut offset: u32 = 0;
    while offset < width
        invariant
            offset <= width <= 16,
            body == data@.skip(3),
            data@.len() >= 3,
            bit_pos + width <= 8 * (data.len() - 3),
            value == bits::peek(body, bit_pos as int, offset as nat),
        decreases width - offset,
    {
        let at: u128 = bit_pos + offset as u128;
        let byte: u8 = data[3 + (at / 8) as usize];
        let shift: u32 = (at % 8) as u32;
        let bit: u64 = bits::shift_right(byte as u64, shift) % 2;
        proof {
            assert(byte == body[(at / 8) as int]);
            assert(bits::bit(body, at as int) == (bit == 1));
            bits::lemma_peek_bound(body, bit_pos as int, offset as nat);
            lemma2_to64();
            lemma_pow2_strictly_increases(offset as nat, 16);
        }
        if bit == 1 {
            value = value + bits::power_of_two(offset);
        }
        offset = offset + 1;
    }
    proof {
        bits::lemma_peek_bound(body, bit_pos as int, width as nat);
        lemma2_to64();
        if width < 16 {
            lemma_pow2_strictly_increases(width as nat, 16);
        }
    }
    value as u16
}

fn skip_to_group(base: u128, bit_pos: u128, width: u32) -> (r: u128)
    requires
        9 <= width <= 16,
        base <= bit_pos,
        bit_pos < 0x8_0000_0000_0000_0000_0000,
    ensures
        r == group_end(base as int, bit_pos as int, width as nat),
        bit_pos <= r < bit_pos + 128,
{
    let group: u128 = 8 * (width as u128);
    let into: u128 = (bit_pos - base) % group;
    proof {
        vstd::arithmetic::div_mod::lemma_mod_bound(bit_pos - base, group as int);
    }
    if into == 0 {
        bit_pos
    } else {
        bit_pos + (group - into)
    }
}

} // verus!
