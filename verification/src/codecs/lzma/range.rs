//! The range decoder.
use crate::utils::error::{Error, Result};
use vstd::arithmetic::power2::*;
use vstd::prelude::*;

verus! {

/// How many bits a probability has.
pub const PROB_BITS: u32 = 11;

/// A probability of one half.
pub const PROB_INIT: u16 = 1024;

/// How fast probabilities follow what was seen.
pub const MOVE_BITS: u32 = 5;

/// Below this range another byte is taken.
pub const TOP: u32 = 0x100_0000;

/// How many bytes a stream takes before its first bit.
pub const HEADER_LEN: usize = 5;

/// The probability of a zero, out of 2048.
pub type Prob = u16;

/// A probability that adaptation keeps within its range.
pub open spec fn prob_ok(p: u16) -> bool {
    31 <= p <= 2017
}

/// A table of such probabilities.
pub open spec fn probs_ok(ps: Seq<u16>) -> bool {
    forall|i: int| 0 <= i < ps.len() ==> prob_ok(#[trigger] ps[i])
}

/// The probability after a bit.
pub open spec fn adapted(p: u16, bit: int) -> u16 {
    if bit == 0 {
        (p + (2048 - p) / 32) as u16
    } else {
        (p - p / 32) as u16
    }
}

/// What the decoder knows of the number that the stream spells: where it
/// stands in the bytes, how wide the interval is, and how far into it the
/// number lies.
pub struct Coder {
    pub pos: int,
    pub range: int,
    pub code: int,
}

/// The byte at `i`; past the end there are zeros.
pub open spec fn byte_at(data: Seq<u8>, i: int) -> int {
    if 0 <= i < data.len() {
        data[i] as int
    } else {
        0
    }
}

/// Take another byte where the interval has become narrow.
pub open spec fn normalized(data: Seq<u8>, c: Coder) -> Coder {
    if c.range < 0x100_0000 {
        Coder {
            pos: c.pos + 1,
            range: c.range * 256,
            code: (c.code * 256 + byte_at(data, c.pos)) % 0x1_0000_0000,
        }
    } else {
        c
    }
}

/// A bit whose probability of being zero is `p`.
#[verifier::opaque]
pub open spec fn bit_read(data: Seq<u8>, c: Coder, p: u16) -> (int, Coder) {
    let bound = (c.range / 2048) * p;
    if c.code < bound {
        (0, normalized(data, Coder { range: bound, ..c }))
    } else {
        (1, normalized(data, Coder { range: c.range - bound, code: c.code - bound, ..c }))
    }
}

/// A bit that is as likely zero as one.
pub open spec fn even_read(data: Seq<u8>, c: Coder) -> (int, Coder) {
    let half = c.range / 2;
    let rest = (c.code - half) % 0x1_0000_0000;
    if rest >= 0x8000_0000 {
        (0, normalized(data, Coder { range: half, ..c }))
    } else {
        (1, normalized(data, Coder { range: half, code: rest, ..c }))
    }
}

/// The first `k` bits of a number of such bits, most significant first.
pub open spec fn direct_read(data: Seq<u8>, c: Coder, k: nat) -> (int, Coder)
    decreases k,
{
    if k == 0 {
        (0, c)
    } else {
        let (v, d) = direct_read(data, c, (k - 1) as nat);
        let (b, e) = even_read(data, d);
        (2 * v + b, e)
    }
}

/// A decoder together with the probabilities it adapts.
#[verifier::ext_equal]
pub struct Dec {
    pub coder: Coder,
    pub probs: Seq<u16>,
}

/// A bit with the probability in slot `i`.
pub open spec fn slot_read(data: Seq<u8>, d: Dec, i: int) -> (int, Dec) {
    let (b, c) = bit_read(data, d.coder, d.probs[i]);
    (b, Dec { coder: c, probs: d.probs.update(i, adapted(d.probs[i], b)) })
}

/// The node reached after `k` bits of a walk down a tree of probabilities
/// that starts at `base`.
pub open spec fn walked(data: Seq<u8>, d: Dec, base: int, k: nat) -> (int, Dec)
    decreases k,
{
    if k == 0 {
        (1, d)
    } else {
        let (node, e) = walked(data, d, base, (k - 1) as nat);
        let (b, f) = slot_read(data, e, base + node);
        (2 * node + b, f)
    }
}

/// A number of `bits` bits, most significant first.
pub open spec fn tree_read(data: Seq<u8>, d: Dec, base: int, bits: nat) -> (int, Dec) {
    let (node, e) = walked(data, d, base, bits);
    (node - pow2(bits), e)
}

/// The node and the number reached after `k` bits, least significant first.
pub open spec fn reverse_walked(data: Seq<u8>, d: Dec, base: int, k: nat) -> (int, int, Dec)
    decreases k,
{
    if k == 0 {
        (1, 0, d)
    } else {
        let (node, sym, e) = reverse_walked(data, d, base, (k - 1) as nat);
        let (b, f) = slot_read(data, e, base + node);
        (2 * node + b, sym + b * pow2((k - 1) as nat), f)
    }
}

/// The coder is in order: its interval is wide enough for another bit.
pub open spec fn coder_ok(c: Coder) -> bool {
    0x100_0000 <= c.range < 0x1_0000_0000 && 0 <= c.code < 0x1_0000_0000
}

/// Reading a bit keeps the coder in order.
pub proof fn lemma_bit_read(data: Seq<u8>, c: Coder, p: u16)
    requires
        coder_ok(c),
        prob_ok(p),
    ensures
        ({
            let (b, d) = bit_read(data, c, p);
            (b == 0 || b == 1) && coder_ok(d) && prob_ok(adapted(p, b)) && c.pos <= d.pos <= c.pos + 1
        }),
        253_952 <= (c.range / 2048) * p,
        253_952 <= c.range - (c.range / 2048) * p,
{
    reveal(bit_read);
    let q = c.range / 2048;
    assert(8192 * 31 <= q * p && q * p <= q * 2017) by (nonlinear_arith)
        requires
            8192 <= q,
            31 <= p <= 2017,
    ;
    assert(c.range >= 2048 * q);
}

/// A bit is zero or one.
pub broadcast proof fn lemma_bit_range(data: Seq<u8>, c: Coder, p: u16)
    ensures
        (#[trigger] bit_read(data, c, p)).0 == 0 || bit_read(data, c, p).0 == 1,
{
    reveal(bit_read);
}

/// Reading such a bit keeps the coder in order.
pub proof fn lemma_even_read(data: Seq<u8>, c: Coder)
    requires
        coder_ok(c),
    ensures
        ({
            let (b, d) = even_read(data, c);
            (b == 0 || b == 1) && coder_ok(d) && c.pos <= d.pos <= c.pos + 1
        }),
{
}

/// Probabilities of one half.
pub fn probs(len: usize) -> (r: Vec<Prob>)
    ensures
        r@ == Seq::new(len as nat, |i: int| PROB_INIT),
        probs_ok(r@),
{
    let r: Vec<Prob> = vec![PROB_INIT; len];
    assert(r@ =~= Seq::new(len as nat, |i: int| PROB_INIT));
    r
}

/// Decodes bits from a byte string.
pub struct RangeDecoder {
    data: Vec<u8>,
    pos: usize,
    exhausted: bool,
    range: u32,
    code: u32,
    at: Ghost<int>,
}

impl RangeDecoder {
    /// The bytes it decodes.
    pub closed spec fn data(&self) -> Seq<u8> {
        self.data@
    }

    /// Where it stands.
    pub closed spec fn coder(&self) -> Coder {
        Coder { pos: self.at@, range: self.range as int, code: self.code as int }
    }

    /// It stands within the data, or past its end and says so.
    pub closed spec fn wf(&self) -> bool {
        &&& coder_ok(self.coder())
        &&& 5 <= self.at@
        &&& self.pos <= self.data@.len()
        &&& self.pos == if self.at@ <= self.data@.len() {
            self.at@
        } else {
            self.data@.len() as int
        }
        &&& self.exhausted == (self.at@ > self.data@.len())
    }

    /// The coder of a decoder is in order.
    pub proof fn lemma_wf(&self)
        requires
            self.wf(),
        ensures
            coder_ok(self.coder()),
            5 <= self.coder().pos,
    {
    }

    /// The start of a stream. It fails where there are no five bytes.
    pub fn new(inner: Vec<u8>) -> (r: Result<Self>)
        ensures
            r is Ok <==> inner@.len() >= 5,
            r matches Ok(d) ==> d.wf() && d.data() == inner@ && d.coder() == start_coder(inner@),
            r matches Err(e) ==> e == Error::Malformed,
    {
        if inner.len() < 5 {
            return Err(Error::Malformed);
        }
        let code: u32 = 0x100_0000 * (inner[1] as u32) + 0x1_0000 * (inner[2] as u32) + 256 * (
        inner[3] as u32) + inner[4] as u32;
        Ok(
            RangeDecoder {
                data: inner,
                pos: 5,
                exhausted: false,
                range: 0xffff_ffff,
                code,
                at: Ghost(5),
            },
        )
    }

    /// Whether the number has been used up.
    pub fn is_finished(&self) -> (r: bool)
        ensures
            r == (self.coder().code == 0),
    {
        self.code == 0
    }

    /// Bytes of the input that the decoder has actually used.
    pub fn consumed(&self) -> (r: usize)
        requires
            self.wf(),
        ensures
            r == if self.coder().pos <= self.data().len() {
                self.coder().pos
            } else {
                self.data().len() as int
            },
    {
        self.pos
    }

    /// Whether the decoder has asked for bytes past the end of its input.
    pub fn ran_out(&self) -> (r: bool)
        requires
            self.wf(),
        ensures
            r == (self.coder().pos > self.data().len()),
    {
        self.exhausted
    }

    /// The input back.
    pub fn into_inner(self) -> (r: Vec<u8>)
        ensures
            r@ == self.data(),
    {
        self.data
    }

    /// The input back along with the bytes that were not used.
    ///
    /// A container with a trailer after the stream goes on from these.
    pub fn into_parts(self) -> (r: (Vec<u8>, Vec<u8>))
        requires
            self.wf(),
        ensures
            r.0@ == self.data(),
            r.1@ == self.data().skip(
                if self.coder().pos <= self.data().len() {
                    self.coder().pos
                } else {
                    self.data().len() as int
                },
            ),
    {
        let from: usize = self.pos;
        let mut rest: Vec<u8> = Vec::with_capacity(self.data.len() - from);
        rest.extend_from_slice(&self.data.as_slice()[from..self.data.len()]);
        assert(rest@ =~= self.data@.skip(from as int));
        (self.data, rest)
    }

    fn normalize(&mut self)
        requires
            0x1_0000 <= old(self).range,
            5 <= old(self).at@,
            old(self).pos <= old(self).data@.len(),
            old(self).pos == if old(self).at@ <= old(self).data@.len() {
                old(self).at@
            } else {
                old(self).data@.len() as int
            },
            old(self).exhausted == (old(self).at@ > old(self).data@.len()),
        ensures
            final(self).wf(),
            final(self).data() == old(self).data(),
            final(self).coder() == normalized(old(self).data(), old(self).coder()),
    {
        if self.range < TOP {
            let ghost at = self.at@;
            let mut byte: u32 = 0;
            if self.pos < self.data.len() {
                byte = self.data[self.pos] as u32;
                self.pos = self.pos + 1;
            } else {
                self.exhausted = true;
            }
            self.range = self.range * 256;
            self.code = ((self.code as u64 * 256 + byte as u64) % 0x1_0000_0000) as u32;
            self.at = Ghost(at + 1);
        }
    }

    /// A bit with an adaptive probability.
    pub fn bit(&mut self, prob: &mut Prob) -> (r: u32)
        requires
            old(self).wf(),
            prob_ok(*old(prob)),
        ensures
            final(self).wf(),
            final(self).data() == old(self).data(),
            (r as int, final(self).coder()) == bit_read(
                old(self).data(),
                old(self).coder(),
                *old(prob),
            ),
            *final(prob) == adapted(*old(prob), r as int),
            r <= 1,
            prob_ok(*final(prob)),
    {
        let value: u32 = *prob as u32;
        proof {
            reveal(bit_read);
            lemma_bit_read(self.data@, self.coder(), *prob);
        }
        let bound: u32 = (self.range / 2048) * value;
        let symbol: u32 = if self.code < bound {
            self.range = bound;
            *prob = (value + (2048 - value) / 32) as u16;
            0
        } else {
            self.range = self.range - bound;
            self.code = self.code - bound;
            *prob = (value - value / 32) as u16;
            1
        };
        self.normalize();
        symbol
    }

    /// A bit with the probability in a slot of a table.
    pub fn slot(&mut self, probs: &mut Vec<Prob>, i: usize) -> (r: u32)
        requires
            old(self).wf(),
            probs_ok(old(probs)@),
            i < old(probs)@.len(),
        ensures
            final(self).wf(),
            final(self).data() == old(self).data(),
            probs_ok(final(probs)@),
            final(probs)@.len() == old(probs)@.len(),
            (r as int, (Dec { coder: final(self).coder(), probs: final(probs)@ })) == slot_read(
                old(self).data(),
                Dec { coder: old(self).coder(), probs: old(probs)@ },
                i as int,
            ),
            r <= 1,
    {
        let mut p: Prob = probs[i];
        let r: u32 = self.bit(&mut p);
        probs[i] = p;
        r
    }

    /// A number of `count` even bits, most significant first.
    pub fn direct_bits(&mut self, count: u32) -> (r: u32)
        requires
            old(self).wf(),
            count <= 32,
        ensures
            final(self).wf(),
            final(self).data() == old(self).data(),
            (r as int, final(self).coder()) == direct_read(
                old(self).data(),
                old(self).coder(),
                count as nat,
            ),
            r < pow2(count as nat),
    {
        let mut result: u64 = 0;
        let mut i: u32 = 0;
        proof {
            lemma2_to64();
        }
        while i < count
            invariant
                self.wf(),
                self.data() == old(self).data(),
                i <= count <= 32,
                (result as int, self.coder()) == direct_read(
                    old(self).data(),
                    old(self).coder(),
                    i as nat,
                ),
                result < pow2(i as nat),
            decreases count - i,
        {
            proof {
                lemma_even_read(self.data@, self.coder());
                lemma_pow2_unfold((i + 1) as nat);
                lemma_pow2_strictly_increases(i as nat, 33);
                lemma2_to64_rest();
            }
            let half: u32 = self.range / 2;
            let rest: u32 = self.code.wrapping_sub(half);
            let bit: u64 = if rest >= 0x8000_0000 {
                0
            } else {
                self.code = rest;
                1
            };
            self.range = half;
            self.normalize();
            result = 2 * result + bit;
            i = i + 1;
        }
        proof {
            lemma2_to64();
            lemma2_to64_rest();
            if count < 32 {
                lemma_pow2_strictly_increases(count as nat, 32);
            }
        }
        result as u32
    }

    /// A number of `bits` bits, most significant first, each with a
    /// probability of its own.
    pub fn tree(&mut self, probs: &mut Vec<Prob>, base: usize, bits: u32) -> (r: u32)
        requires
            old(self).wf(),
            bits <= 8,
            probs_ok(old(probs)@),
            base + pow2(bits as nat) <= old(probs)@.len(),
        ensures
            final(self).wf(),
            final(self).data() == old(self).data(),
            probs_ok(final(probs)@),
            final(probs)@.len() == old(probs)@.len(),
            (r as int, (Dec { coder: final(self).coder(), probs: final(probs)@ })) == tree_read(
                old(self).data(),
                Dec { coder: old(self).coder(), probs: old(probs)@ },
                base as int,
                bits as nat,
            ),
            r < pow2(bits as nat),
    {
        let mut node: u32 = 1;
        let ghost start = Dec { coder: self.coder(), probs: probs@ };
        let mut i: u32 = 0;
        proof {
            lemma2_to64();
        }
        let len: usize = probs.len();
        while i < bits
            invariant
                self.wf(),
                self.data() == old(self).data(),
                probs_ok(probs@),
                probs.len() == len,
                len == old(probs)@.len(),
                base + pow2(bits as nat) <= len,
                i <= bits <= 8,
                start == (Dec { coder: old(self).coder(), probs: old(probs)@ }),
                (node as int, (Dec { coder: self.coder(), probs: probs@ })) == walked(
                    old(self).data(),
                    start,
                    base as int,
                    i as nat,
                ),
                pow2(i as nat) <= node < 2 * pow2(i as nat),
            decreases bits - i,
        {
            proof {
                lemma_pow2_unfold((i + 1) as nat);
                if i + 1 < bits {
                    lemma_pow2_strictly_increases((i + 1) as nat, bits as nat);
                }
                if bits < 8 {
                    lemma_pow2_strictly_increases(bits as nat, 8);
                }
                lemma2_to64();
            }
            node = 2 * node + self.slot(probs, base + node as usize);
            i = i + 1;
        }
        proof {
            if bits < 8 {
                lemma_pow2_strictly_increases(bits as nat, 8);
            }
            lemma2_to64();
        }
        node - crate::utils::bits::power_of_two(bits) as u32
    }

    /// A number of `bits` bits, least significant first.
    pub fn tree_reverse(&mut self, probs: &mut Vec<Prob>, base: usize, bits: u32) -> (r: u32)
        requires
            old(self).wf(),
            bits <= 8,
            probs_ok(old(probs)@),
            base + pow2(bits as nat) <= old(probs)@.len(),
        ensures
            final(self).wf(),
            final(self).data() == old(self).data(),
            probs_ok(final(probs)@),
            final(probs)@.len() == old(probs)@.len(),
            ({
                let (node, sym, d) = reverse_walked(
                    old(self).data(),
                    Dec { coder: old(self).coder(), probs: old(probs)@ },
                    base as int,
                    bits as nat,
                );
                r == sym && d == (Dec { coder: final(self).coder(), probs: final(probs)@ })
            }),
            r < pow2(bits as nat),
    {
        let mut node: u32 = 1;
        let mut symbol: u32 = 0;
        let mut weight: u32 = 1;
        let ghost start = Dec { coder: self.coder(), probs: probs@ };
        let mut i: u32 = 0;
        proof {
            lemma2_to64();
        }
        let len: usize = probs.len();
        while i < bits
            invariant
                self.wf(),
                self.data() == old(self).data(),
                probs_ok(probs@),
                probs.len() == len,
                len == old(probs)@.len(),
                base + pow2(bits as nat) <= len,
                i <= bits <= 8,
                start == (Dec { coder: old(self).coder(), probs: old(probs)@ }),
                (node as int, symbol as int, (Dec { coder: self.coder(), probs: probs@ }))
                    == reverse_walked(old(self).data(), start, base as int, i as nat),
                pow2(i as nat) <= node < 2 * pow2(i as nat),
                symbol < pow2(i as nat),
                weight == pow2(i as nat),
            decreases bits - i,
        {
            proof {
                lemma_pow2_unfold((i + 1) as nat);
                if i + 1 < bits {
                    lemma_pow2_strictly_increases((i + 1) as nat, bits as nat);
                }
                if bits < 8 {
                    lemma_pow2_strictly_increases(bits as nat, 8);
                }
                lemma2_to64();
            }
            let bit: u32 = self.slot(probs, base + node as usize);
            node = 2 * node + bit;
            if bit == 1 {
                symbol = symbol + weight;
            }
            assert(1 * pow2(i as nat) == pow2(i as nat) && 0 * pow2(i as nat) == 0);
            weight = 2 * weight;
            i = i + 1;
        }
        symbol
    }
}

/// The coder at the start of a stream: the first byte says nothing, the next
/// four start the number.
pub open spec fn start_coder(data: Seq<u8>) -> Coder {
    Coder {
        pos: 5,
        range: 0xffff_ffff,
        code: 0x100_0000 * data[1] + 0x1_0000 * data[2] + 256 * data[3] + data[4],
    }
}

} // verus!
