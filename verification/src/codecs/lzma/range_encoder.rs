//! The range encoder, and that what it writes is what the decoder reads.
use crate::codecs::lzma::range;
use crate::codecs::lzma::range::{Coder, Dec, Prob, TOP};
use crate::utils::bytes;
use vstd::arithmetic::power2::*;
use vstd::prelude::*;

verus! {

/// The number that bytes spell, the first one the most significant.
pub open spec fn number(s: Seq<u8>) -> nat
    decreases s.len(),
{
    if s.len() == 0 {
        0
    } else {
        number(s.drop_last()) * 256 + s.last() as nat
    }
}

/// Only zeros spell zero.
pub proof fn lemma_number_zero(s: Seq<u8>)
    requires
        number(s) == 0,
    ensures
        forall|i: int| 0 <= i < s.len() ==> #[trigger] s[i] == 0,
    decreases s.len(),
{
    if s.len() > 0 {
        lemma_number_zero(s.drop_last());
        assert forall|i: int| 0 <= i < s.len() implies #[trigger] s[i] == 0 by {
            if i < s.len() - 1 {
                assert(s[i] == s.drop_last()[i]);
            }
        }
    }
}

/// The number that the first `k` bytes of a stream spell, with zeros past its
/// end.
pub open spec fn leading(data: Seq<u8>, k: int) -> int
    decreases k,
{
    if k <= 0 {
        0
    } else {
        leading(data, k - 1) * 256 + range::byte_at(data, k - 1)
    }
}

/// What the encoder has pinned down: of the first `n + 4` bytes of the
/// stream, the number they spell is at least `low` and less than
/// `low + range`.
pub struct Enc {
    pub n: int,
    pub low: int,
    pub range: int,
}

/// Whether a stream is one of those the encoder can still produce.
pub open spec fn accepts(data: Seq<u8>, e: Enc) -> bool {
    e.low <= leading(data, e.n + 4) < e.low + e.range
}

/// Where a decoder of that stream stands.
pub open spec fn coder_for(data: Seq<u8>, e: Enc) -> Coder {
    Coder { pos: e.n + 4, range: e.range, code: leading(data, e.n + 4) - e.low }
}

/// The encoder after widening a narrow interval by a byte.
pub open spec fn widened(e: Enc) -> Enc {
    if e.range < 0x100_0000 {
        Enc { n: e.n + 1, low: e.low * 256, range: e.range * 256 }
    } else {
        e
    }
}

/// The encoder after a bit.
pub open spec fn after_bit(e: Enc, p: u16, bit: int) -> Enc {
    let bound = (e.range / 2048) * p;
    if bit == 0 {
        widened(Enc { range: bound, ..e })
    } else {
        widened(Enc { low: e.low + bound, range: e.range - bound, ..e })
    }
}

/// The encoder after an even bit.
pub open spec fn after_even(e: Enc, bit: int) -> Enc {
    let half = e.range / 2;
    if bit == 0 {
        widened(Enc { range: half, ..e })
    } else {
        widened(Enc { low: e.low + half, range: half, ..e })
    }
}

/// The encoder and the probabilities it writes with.
pub struct Put {
    pub enc: Enc,
    pub probs: Seq<Prob>,
}

/// After a bit with the probability in slot `i`.
pub open spec fn put_slot(o: Put, i: int, bit: int) -> Put {
    Put {
        enc: after_bit(o.enc, o.probs[i], bit),
        probs: o.probs.update(i, range::adapted(o.probs[i], bit)),
    }
}

/// After the last `left` even bits of a number.
#[verifier::opaque]
pub open spec fn put_direct(e: Enc, value: nat, left: nat) -> Enc
    decreases left,
{
    if left == 0 {
        e
    } else {
        let m = (left - 1) as nat;
        put_direct(after_even(e, (value / pow2(m)) as int % 2), value, m)
    }
}

/// After the last `left` bits of a number, each with the probability of the
/// bits before it. `full` is the number with a one before it.
#[verifier::opaque]
pub open spec fn put_tree(o: Put, base: int, full: nat, left: nat) -> Put
    decreases left,
{
    if left == 0 {
        o
    } else {
        let m = (left - 1) as nat;
        put_tree(
            put_slot(o, base + full / pow2(left), (full / pow2(m)) as int % 2),
            base,
            full,
            m,
        )
    }
}

/// After `left` bits of a number, the least significant first. `node` is made
/// of the bits before them.
#[verifier::opaque]
pub open spec fn put_reverse(o: Put, base: int, node: int, symbol: nat, left: nat) -> Put
    decreases left,
{
    if left == 0 {
        o
    } else {
        let bit = symbol as int % 2;
        put_reverse(
            put_slot(o, base + node, bit),
            base,
            2 * node + bit,
            symbol / 2,
            (left - 1) as nat,
        )
    }
}

/// A number in `n` bytes, the most significant first.
pub open spec fn number_bytes(v: nat, n: nat) -> Seq<u8>
    decreases n,
{
    if n == 0 {
        Seq::empty()
    } else {
        number_bytes(v / 256, (n - 1) as nat).push((v % 256) as u8)
    }
}

/// Bytes are those of the number they spell.
pub proof fn lemma_number_bytes(s: Seq<u8>)
    ensures
        number_bytes(number(s), s.len()) == s,
    decreases s.len(),
{
    if s.len() > 0 {
        lemma_number_bytes(s.drop_last());
        assert(number(s) / 256 == number(s.drop_last()));
        assert(s.drop_last().push(s.last()) =~= s);
    } else {
        assert(s =~= Seq::<u8>::empty());
    }
}

/// The bytes of a stream that ends here.
pub open spec fn flushed(e: Enc) -> Seq<u8> {
    number_bytes(e.low as nat, (e.n + 4) as nat)
}

proof fn lemma_widened(data: Seq<u8>, e: Enc)
    requires
        accepts(data, widened(e)),
        0 <= e.n,
        0 < e.range < 0x1_0000_0000,
    ensures
        accepts(data, e),
        range::normalized(data, coder_for(data, e)) == coder_for(data, widened(e)),
{
    if e.range < 0x100_0000 {
        let d = leading(data, e.n + 4);
        assert(leading(data, e.n + 5) == d * 256 + range::byte_at(data, e.n + 4));
    }
}

/// A bit written is the bit read.
pub proof fn lemma_bit_back(data: Seq<u8>, e: Enc, p: u16, bit: int)
    requires
        accepts(data, after_bit(e, p, bit)),
        0 <= e.n,
        0x100_0000 <= e.range < 0x1_0000_0000,
        range::prob_ok(p),
        bit == 0 || bit == 1,
    ensures
        accepts(data, e),
        range::bit_read(data, coder_for(data, e), p) == (
            bit,
            coder_for(data, after_bit(e, p, bit)),
        ),
{
    reveal(range::bit_read);
    let bound = (e.range / 2048) * p;
    range::lemma_bit_read(data, Coder { pos: 0, range: e.range, code: 0 }, p);
    let f = if bit == 0 {
        Enc { range: bound, ..e }
    } else {
        Enc { low: e.low + bound, range: e.range - bound, ..e }
    };
    lemma_widened(data, f);
}

/// An even bit written is the bit read.
pub proof fn lemma_even_back(data: Seq<u8>, e: Enc, bit: int)
    requires
        accepts(data, after_even(e, bit)),
        0 <= e.n,
        0x100_0000 <= e.range < 0x1_0000_0000,
        bit == 0 || bit == 1,
    ensures
        accepts(data, e),
        range::even_read(data, coder_for(data, e)) == (bit, coder_for(data, after_even(e, bit))),
{
    let half = e.range / 2;
    let f = if bit == 0 {
        Enc { range: half, ..e }
    } else {
        Enc { low: e.low + half, range: half, ..e }
    };
    lemma_widened(data, f);
    let code = coder_for(data, e).code;
    if bit == 0 {
        assert((code - half) % 0x1_0000_0000 == code - half + 0x1_0000_0000);
    } else {
        assert((code - half) % 0x1_0000_0000 == code - half);
    }
}

pub proof fn lemma_number_bound(s: Seq<u8>)
    ensures
        number(s) < bytes::span(s.len()),
    decreases s.len(),
{
    if s.len() > 0 {
        lemma_number_bound(s.drop_last());
    }
}

/// A stream that starts with given bytes.
pub proof fn lemma_leading_prefix(s: Seq<u8>, tail: Seq<u8>, k: int)
    requires
        0 <= k <= s.len(),
    ensures
        leading(s + tail, k) == number(s.take(k)),
    decreases k,
{
    if k > 0 {
        lemma_leading_prefix(s, tail, k - 1);
        assert(s.take(k).drop_last() =~= s.take(k - 1));
        assert((s + tail)[k - 1] == s[k - 1]);
    }
}

/// Encodes bits into a byte string. The bytes written so far may still be
/// raised by a carry.
pub struct RangeEncoder {
    out: Vec<u8>,
    low: u64,
    range: u32,
}

impl RangeEncoder {
    /// What is pinned down so far.
    pub closed spec fn enc(&self) -> Enc {
        Enc {
            n: self.out@.len() as int,
            low: number(self.out@) * 0x1_0000_0000 + self.low,
            range: self.range as int,
        }
    }

    /// The interval is wide enough, and no carry can run out of the bytes.
    pub closed spec fn wf(&self) -> bool {
        &&& self.enc_ok()
        &&& 0x100_0000 <= self.range
    }

    spec fn enc_ok(&self) -> bool {
        &&& 1 <= self.out@.len()
        &&& self.low + self.range <= 0x2_0000_0000
        &&& self.low < 0x2_0000_0000
        &&& 0x1_0000 <= self.range
        &&& number(self.out@) * 0x1_0000_0000 + self.low + self.range <= bytes::span(
            (self.out@.len() - 1) as nat,
        ) * 0x1_0000_0000
    }

    /// The interval of an encoder.
    pub proof fn lemma_wf(&self)
        requires
            self.wf(),
        ensures
            0x100_0000 <= self.enc().range < 0x1_0000_0000,
            1 <= self.enc().n,
    {
    }

    /// Nothing pinned down.
    pub fn new() -> (r: Self)
        ensures
            r.wf(),
            r.enc() == (Enc { n: 1, low: 0, range: 0xffff_ffff }),
    {
        let mut out: Vec<u8> = Vec::new();
        out.push(0);
        proof {
            reveal_with_fuel(number, 2);
            reveal_with_fuel(bytes::span, 2);
            assert(out@.drop_last() =~= Seq::<u8>::empty());
        }
        RangeEncoder { out, low: 0, range: 0xffff_ffff }
    }

    /// How many bytes are written.
    pub fn len(&self) -> (r: usize)
        ensures
            r == self.enc().n,
    {
        self.out.len()
    }

    /// Add one to the number that the bytes spell.
    fn carry(&mut self)
        requires
            number(old(self).out@) + 1 < bytes::span(old(self).out@.len()),
        ensures
            final(self).low == old(self).low,
            final(self).range == old(self).range,
            final(self).out@.len() == old(self).out@.len(),
            number(final(self).out@) == number(old(self).out@) + 1,
    {
        let ghost start = self.out@;
        let n: usize = self.out.len();
        let mut i: usize = n;
        proof {
            assert(start.take(n as int) =~= start);
            assert forall|v: Seq<u8>|
                v.len() == n && (forall|k: int| i <= k < n ==> #[trigger] v[k] == self.out@[k])
                    && number(v.take(i as int)) == number(start.take(i as int)) + 1 implies number(
                v,
            ) == number(start) + 1 by {
                assert(v.take(n as int) =~= v);
            }
        }
        loop
            invariant_except_break
                i <= n,
                n == self.out@.len(),
                start.len() == n,
                self.low == old(self).low,
                self.range == old(self).range,
                forall|k: int| 0 <= k < i ==> self.out@[k] == start[k],
                // the bytes from `i` on were all ones and are now zeros
                forall|v: Seq<u8>|
                    v.len() == n && (forall|k: int| i <= k < n ==> #[trigger] v[k] == self.out@[k])
                        && number(v.take(i as int)) == number(start.take(i as int)) + 1
                        ==> number(v) == number(start) + 1,
                number(start.take(i as int)) + 1 < bytes::span(i as nat),
            ensures
                self.low == old(self).low,
                self.range == old(self).range,
                self.out@.len() == n,
                number(self.out@) == number(start) + 1,
            decreases i,
        {
            proof {
                if i == 0 {
                    assert(number(start.take(0)) == 0);
                    assert(bytes::span(0) == 1);
                }
                assert(start.take(i as int).drop_last() =~= start.take(i - 1));
            }
            let b: u8 = self.out[i - 1];
            if b < 255 {
                self.out[i - 1] = b + 1;
                proof {
                    let v = self.out@;
                    assert(v.take(i as int).drop_last() =~= start.take(i - 1));
                    assert(number(v.take(i as int)) == number(start.take(i as int)) + 1);
                }
                break;
            }
            self.out[i - 1] = 0;
            proof {
                assert forall|v: Seq<u8>|
                    v.len() == n && (forall|k: int|
                        i - 1 <= k < n ==> #[trigger] v[k] == self.out@[k]) && number(
                        v.take(i - 1),
                    ) == number(start.take(i - 1)) + 1 implies number(v) == number(start) + 1 by {
                    assert(v.take(i as int).drop_last() =~= v.take(i - 1));
                    assert(v[i - 1] == 0);
                    assert(number(v.take(i as int)) == number(start.take(i as int)) + 1);
                }
            }
            i = i - 1;
        }
    }

    /// Move the top byte of the low end out.
    fn shift_low(&mut self)
        requires
            1 <= old(self).out@.len(),
            old(self).low < 0x2_0000_0000,
            number(old(self).out@) * 0x1_0000_0000 + old(self).low < bytes::span(
                old(self).out@.len(),
            ) * 0x1_0000_0000,
        ensures
            final(self).out@.len() == old(self).out@.len() + 1,
            final(self).low < 0x1_0000_0000,
            final(self).low % 256 == 0,
            final(self).range == old(self).range,
            number(final(self).out@) * 0x1_0000_0000 + final(self).low == 256 * (number(
                old(self).out@,
            ) * 0x1_0000_0000 + old(self).low),
    {
        if self.low >= 0x1_0000_0000 {
            self.carry();
            self.low = self.low - 0x1_0000_0000;
        }
        let top: u8 = (self.low / 0x100_0000) as u8;
        let ghost before = self.out@;
        self.out.push(top);
        assert(self.out@.drop_last() =~= before);
        self.low = (self.low % 0x100_0000) * 256;
    }

    fn widen(&mut self)
        requires
            old(self).enc_ok(),
        ensures
            final(self).wf(),
            final(self).enc() == widened(old(self).enc()),
    {
        if self.range < TOP {
            proof {
                lemma_span_grows(self.out@.len());
            }
            let ghost n = self.out@.len();
            self.shift_low();
            self.range = self.range * 256;
            proof {
                assert(bytes::span(n) == 256 * bytes::span((n - 1) as nat));
            }
        }
    }

    /// Write a bit with an adaptive probability.
    pub fn bit(&mut self, prob: &mut Prob, bit: u32)
        requires
            old(self).wf(),
            range::prob_ok(*old(prob)),
            bit <= 1,
        ensures
            final(self).wf(),
            final(self).enc() == after_bit(old(self).enc(), *old(prob), bit as int),
            *final(prob) == range::adapted(*old(prob), bit as int),
            range::prob_ok(*final(prob)),
    {
        let value: u32 = *prob as u32;
        proof {
            range::lemma_bit_read(
                Seq::empty(),
                Coder { pos: 0, range: self.range as int, code: 0 },
                *prob,
            );
        }
        let bound: u32 = (self.range / 2048) * value;
        if bit == 0 {
            self.range = bound;
            *prob = (value + (2048 - value) / 32) as u16;
        } else {
            self.low = self.low + bound as u64;
            self.range = self.range - bound;
            *prob = (value - value / 32) as u16;
        }
        self.widen();
    }

    /// Write a bit with the probability in a slot of a table.
    pub fn slot(&mut self, probs: &mut Vec<Prob>, i: usize, bit: u32)
        requires
            old(self).wf(),
            range::probs_ok(old(probs)@),
            i < old(probs)@.len(),
            bit <= 1,
        ensures
            final(self).wf(),
            range::probs_ok(final(probs)@),
            final(probs)@.len() == old(probs)@.len(),
            (Put { enc: final(self).enc(), probs: final(probs)@ }) == put_slot(
                Put { enc: old(self).enc(), probs: old(probs)@ },
                i as int,
                bit as int,
            ),
            forall|data: Seq<u8>| #[trigger]
                accepts(data, final(self).enc()) ==> accepts(data, old(self).enc())
                    && range::slot_read(
                    data,
                    Dec { coder: coder_for(data, old(self).enc()), probs: old(probs)@ },
                    i as int,
                ) == (
                    bit as int,
                    Dec { coder: coder_for(data, final(self).enc()), probs: final(probs)@ },
                ),
    {
        let mut p: Prob = probs[i];
        let ghost q = p;
        self.bit(&mut p, bit);
        probs[i] = p;
        proof {
            let e = old(self).enc();
            assert forall|data: Seq<u8>| #[trigger] accepts(data, self.enc()) implies accepts(
                data,
                e,
            ) && range::slot_read(
                data,
                Dec { coder: coder_for(data, e), probs: old(probs)@ },
                i as int,
            ) == (bit as int, Dec { coder: coder_for(data, self.enc()), probs: probs@ }) by {
                lemma_bit_back(data, e, q, bit as int);
            }
        }
    }

    /// Write a number of `count` even bits, most significant first.
    pub fn direct_bits(&mut self, value: u32, count: u32)
        requires
            old(self).wf(),
            count <= 32,
            value < pow2(count as nat),
        ensures
            final(self).wf(),
            final(self).enc() == put_direct(old(self).enc(), value as nat, count as nat),
            forall|data: Seq<u8>| #[trigger]
                accepts(data, final(self).enc()) ==> accepts(data, old(self).enc())
                    && range::direct_read(data, coder_for(data, old(self).enc()), count as nat)
                    == (value as int, coder_for(data, final(self).enc())),
    {
        let ghost e0 = self.enc();
        let mut i: u32 = 0;
        proof {
            reveal(put_direct);
            lemma2_to64();
            vstd::arithmetic::div_mod::lemma_div_basics(pow2(count as nat) as int);
            lemma_pow2_pos(count as nat);
            assert(value as nat / pow2(count as nat) == 0) by {
                vstd::arithmetic::div_mod::lemma_basic_div(value as int, pow2(count as nat) as int);
            }
        }
        while i < count
            invariant
                self.wf(),
                i <= count <= 32,
                e0 == old(self).enc(),
                put_direct(self.enc(), value as nat, (count - i) as nat) == put_direct(
                    e0,
                    value as nat,
                    count as nat,
                ),
                forall|data: Seq<u8>| #[trigger]
                    accepts(data, self.enc()) ==> accepts(data, e0) && range::direct_read(
                        data,
                        coder_for(data, e0),
                        i as nat,
                    ) == (
                        (value as nat / pow2((count - i) as nat)) as int,
                        coder_for(data, self.enc()),
                    ),
            decreases count - i,
        {
            let ghost e = self.enc();
            let left: u32 = count - i - 1;
            proof {
                reveal(put_direct);
                lemma_pow2_unfold((left + 1) as nat);
                lemma_pow2_pos(left as nat);
                vstd::arithmetic::div_mod::lemma_div_denominator(
                    value as int,
                    pow2(left as nat) as int,
                    2,
                );
                vstd::arithmetic::mul::lemma_mul_is_commutative(pow2(left as nat) as int, 2);
                lemma_pow2_strictly_increases(left as nat, 64);
                lemma2_to64_rest();
            }
            let shifted: u64 = crate::utils::bits::shift_right(value as u64, left);
            let bit: u64 = shifted % 2;
            self.range = self.range / 2;
            if bit == 1 {
                self.low = self.low + self.range as u64;
            }
            self.widen();
            proof {
                assert(self.enc() == after_even(e, bit as int));
                assert forall|data: Seq<u8>| #[trigger] accepts(data, self.enc()) implies accepts(
                    data,
                    e0,
                ) && range::direct_read(data, coder_for(data, e0), (i + 1) as nat) == (
                    (value as nat / pow2(left as nat)) as int,
                    coder_for(data, self.enc()),
                ) by {
                    lemma_even_back(data, e, bit as int);
                    assert(accepts(data, e));
                }
            }
            i = i + 1;
        }
        assert(value as nat / 1 == value);
    }

    /// Write a number of `bits` bits, most significant first.
    pub fn tree(&mut self, probs: &mut Vec<Prob>, base: usize, bits: u32, symbol: u32)
        requires
            old(self).wf(),
            bits <= 8,
            symbol < pow2(bits as nat),
            range::probs_ok(old(probs)@),
            base + pow2(bits as nat) <= old(probs)@.len(),
        ensures
            final(self).wf(),
            range::probs_ok(final(probs)@),
            final(probs)@.len() == old(probs)@.len(),
            (Put { enc: final(self).enc(), probs: final(probs)@ }) == put_tree(
                Put { enc: old(self).enc(), probs: old(probs)@ },
                base as int,
                pow2(bits as nat) + symbol as nat,
                bits as nat,
            ),
            forall|data: Seq<u8>| #[trigger]
                accepts(data, final(self).enc()) ==> accepts(data, old(self).enc())
                    && range::tree_read(
                    data,
                    Dec { coder: coder_for(data, old(self).enc()), probs: old(probs)@ },
                    base as int,
                    bits as nat,
                ) == (
                    symbol as int,
                    Dec { coder: coder_for(data, final(self).enc()), probs: final(probs)@ },
                ),
    {
        let ghost e0 = self.enc();
        let ghost p0 = probs@;
        let len: usize = probs.len();
        let mut node: u32 = 1;
        let mut i: u32 = 0;
        proof {
            reveal(put_tree);
            lemma2_to64();
            if bits < 8 {
                lemma_pow2_strictly_increases(bits as nat, 8);
            }
        }
        let full: u64 = crate::utils::bits::power_of_two(bits) + symbol as u64;
        proof {
            lemma_pow2_pos(bits as nat);
            vstd::arithmetic::div_mod::lemma_fundamental_div_mod_converse(
                full as int,
                pow2(bits as nat) as int,
                1,
                symbol as int,
            );
        }
        while i < bits
            invariant
                self.wf(),
                range::probs_ok(probs@),
                probs.len() == len,
                p0 == old(probs)@,
                len == p0.len(),
                base + pow2(bits as nat) <= len,
                i <= bits <= 8,
                full < 512,
                full == pow2(bits as nat) + symbol,
                symbol < pow2(bits as nat),
                e0 == old(self).enc(),
                node == full as nat / pow2((bits - i) as nat),
                pow2(i as nat) <= node < 2 * pow2(i as nat),
                put_tree(
                    Put { enc: self.enc(), probs: probs@ },
                    base as int,
                    full as nat,
                    (bits - i) as nat,
                ) == put_tree(Put { enc: e0, probs: p0 }, base as int, full as nat, bits as nat),
                forall|data: Seq<u8>| #[trigger]
                    accepts(data, self.enc()) ==> accepts(data, e0) && range::walked(
                        data,
                        Dec { coder: coder_for(data, e0), probs: p0 },
                        base as int,
                        i as nat,
                    ) == (
                        node as int,
                        Dec { coder: coder_for(data, self.enc()), probs: probs@ },
                    ),
            decreases bits - i,
        {
            let left: u32 = bits - i - 1;
            proof {
                reveal(put_tree);
                lemma_pow2_unfold((left + 1) as nat);
                lemma_pow2_pos(left as nat);
                vstd::arithmetic::div_mod::lemma_div_denominator(
                    full as int,
                    pow2(left as nat) as int,
                    2,
                );
                vstd::arithmetic::mul::lemma_mul_is_commutative(pow2(left as nat) as int, 2);
                lemma_pow2_unfold((i + 1) as nat);
                if i + 1 < bits {
                    lemma_pow2_strictly_increases((i + 1) as nat, bits as nat);
                }
                lemma2_to64();
            }
            let next: u32 = crate::utils::bits::shift_right(full, left) as u32;
            let bit: u32 = next % 2;
            let ghost e = self.enc();
            self.slot(probs, base + node as usize, bit);
            proof {
                assert forall|data: Seq<u8>| #[trigger] accepts(data, self.enc()) implies accepts(
                    data,
                    e0,
                ) && range::walked(
                    data,
                    Dec { coder: coder_for(data, e0), probs: p0 },
                    base as int,
                    (i + 1) as nat,
                ) == (next as int, Dec { coder: coder_for(data, self.enc()), probs: probs@ }) by {
                    assert(accepts(data, e));
                }
            }
            node = next;
            i = i + 1;
        }
        assert(full as nat / 1 == full);
    }

    /// Write a number of `bits` bits, least significant first.
    pub fn tree_reverse(&mut self, probs: &mut Vec<Prob>, base: usize, bits: u32, symbol: u32)
        requires
            old(self).wf(),
            bits <= 8,
            symbol < pow2(bits as nat),
            range::probs_ok(old(probs)@),
            base + pow2(bits as nat) <= old(probs)@.len(),
        ensures
            final(self).wf(),
            range::probs_ok(final(probs)@),
            final(probs)@.len() == old(probs)@.len(),
            (Put { enc: final(self).enc(), probs: final(probs)@ }) == put_reverse(
                Put { enc: old(self).enc(), probs: old(probs)@ },
                base as int,
                1,
                symbol as nat,
                bits as nat,
            ),
            forall|data: Seq<u8>| #[trigger]
                accepts(data, final(self).enc()) ==> accepts(data, old(self).enc()) && {
                    let (node, sym, d) = range::reverse_walked(
                        data,
                        Dec { coder: coder_for(data, old(self).enc()), probs: old(probs)@ },
                        base as int,
                        bits as nat,
                    );
                    sym == symbol && d == (Dec {
                        coder: coder_for(data, final(self).enc()),
                        probs: final(probs)@,
                    })
                },
    {
        let ghost e0 = self.enc();
        let ghost p0 = probs@;
        let len: usize = probs.len();
        let mut node: u32 = 1;
        let mut left: u32 = symbol;
        let ghost mut done: int = 0;
        let mut i: u32 = 0;
        proof {
            reveal(put_reverse);
            lemma2_to64();
            if bits < 8 {
                lemma_pow2_strictly_increases(bits as nat, 8);
            }
            assert(left * 1 == left);
        }
        while i < bits
            invariant
                self.wf(),
                range::probs_ok(probs@),
                probs.len() == len,
                p0 == old(probs)@,
                len == p0.len(),
                base + pow2(bits as nat) <= len,
                i <= bits <= 8,
                e0 == old(self).enc(),
                symbol == done + left * pow2(i as nat),
                left < pow2((bits - i) as nat),
                pow2(i as nat) <= node < 2 * pow2(i as nat),
                put_reverse(
                    Put { enc: self.enc(), probs: probs@ },
                    base as int,
                    node as int,
                    left as nat,
                    (bits - i) as nat,
                ) == put_reverse(
                    Put { enc: e0, probs: p0 },
                    base as int,
                    1,
                    symbol as nat,
                    bits as nat,
                ),
                forall|data: Seq<u8>| #[trigger]
                    accepts(data, self.enc()) ==> accepts(data, e0) && range::reverse_walked(
                        data,
                        Dec { coder: coder_for(data, e0), probs: p0 },
                        base as int,
                        i as nat,
                    ) == (
                        node as int,
                        done,
                        Dec { coder: coder_for(data, self.enc()), probs: probs@ },
                    ),
            decreases bits - i,
        {
            proof {
                reveal(put_reverse);
                lemma_pow2_unfold((i + 1) as nat);
                lemma_pow2_unfold((bits - i) as nat);
                if i + 1 < bits {
                    lemma_pow2_strictly_increases((i + 1) as nat, bits as nat);
                }
                lemma2_to64();
                if bits < 8 {
                    lemma_pow2_strictly_increases(bits as nat, 8);
                }
                let w = pow2(i as nat) as int;
                assert(left * w == (left % 2) * w + (left / 2) * (2 * w)) by (nonlinear_arith)
                    requires
                        left == left % 2 + 2 * (left / 2),
                ;
            }
            let bit: u32 = left % 2;
            let ghost e = self.enc();
            self.slot(probs, base + node as usize, bit);
            proof {
                let next = done + bit * pow2(i as nat);
                assert forall|data: Seq<u8>| #[trigger] accepts(data, self.enc()) implies accepts(
                    data,
                    e0,
                ) && range::reverse_walked(
                    data,
                    Dec { coder: coder_for(data, e0), probs: p0 },
                    base as int,
                    (i + 1) as nat,
                ) == (
                    2 * node + bit,
                    next,
                    Dec { coder: coder_for(data, self.enc()), probs: probs@ },
                ) by {
                    assert(accepts(data, e));
                }
                done = next;
            }
            node = 2 * node + bit;
            left = left / 2;
            i = i + 1;
        }
        assert(left == 0);
        assert(0 * pow2(bits as nat) == 0);
    }

    /// Flush the last bytes and give them all back. Whatever follows them, a
    /// decoder reads what was written.
    pub fn finish(self) -> (r: Vec<u8>)
        requires
            self.wf(),
        ensures
            r@.len() == self.enc().n + 4,
            r@.len() >= 5,
            number(r@) == self.enc().low,
            r@ == flushed(self.enc()),
            forall|tail: Seq<u8>| #[trigger] accepts(r@ + tail, self.enc()),
    {
        let mut this: RangeEncoder = self;
        let ghost n = this.out@.len();
        let mut i: u32 = 0;
        let ghost low = self.enc().low;
        proof {
            lemma_span_grows(n);
            reveal_with_fuel(bytes::span, 2);
            assert(bytes::span(0) == 1);
        }
        while i < 4
            invariant
                i <= 4,
                n >= 1,
                low >= 0,
                this.out@.len() == n + i,
                this.low < 0x2_0000_0000,
                i > 0 ==> this.low < 0x1_0000_0000,
                i >= 1 ==> this.low % 0x100 == 0,
                i >= 2 ==> this.low % 0x1_0000 == 0,
                i >= 3 ==> this.low % 0x100_0000 == 0,
                i >= 4 ==> this.low == 0,
                number(this.out@) * 0x1_0000_0000 + this.low == low * bytes::span(i as nat),
                low < bytes::span(n) * 0x1_0000_0000,
                number(this.out@) * 0x1_0000_0000 + this.low < bytes::span((n + i) as nat)
                    * 0x1_0000_0000,
            decreases 4 - i,
        {
            let ghost before = this.low;
            let ghost m = number(this.out@) as int;
            this.shift_low();
            proof {
                let s = bytes::span(i as nat);
                assert(bytes::span((i + 1) as nat) == 256 * s);
                assert(low * (256 * s) == 256 * (low * s)) by (nonlinear_arith);
                assert(bytes::span((n + i + 1) as nat) == 256 * bytes::span((n + i) as nat));
                lemma_shifted(m, before as int, number(this.out@) as int, this.low as int, i as int);
            }
            i = i + 1;
        }
        let out: Vec<u8> = this.out;
        proof {
            assert(bytes::span(4) == 0x1_0000_0000) by {
                reveal_with_fuel(bytes::span, 5);
            }
            assert(number(out@) == low) by (nonlinear_arith)
                requires
                    number(out@) * 0x1_0000_0000 == low * 0x1_0000_0000,
            ;
            lemma_number_bytes(out@);
            assert forall|tail: Seq<u8>| #[trigger] accepts(out@ + tail, self.enc()) by {
                lemma_leading_prefix(out@, tail, n as int + 4);
                assert(out@.take(n as int + 4) =~= out@);
            }
        }
        out
    }
}

proof fn lemma_shifted(m: int, before: int, n: int, after: int, i: int)
    requires
        0 <= i < 4,
        n * 0x1_0000_0000 + after == 256 * (m * 0x1_0000_0000 + before),
        0 <= after < 0x1_0000_0000,
        after % 256 == 0,
        0 <= before < 0x2_0000_0000,
        i >= 1 ==> before % 0x100 == 0,
        i >= 2 ==> before % 0x1_0000 == 0,
        i >= 3 ==> before % 0x100_0000 == 0,
    ensures
        i >= 1 ==> after % 0x1_0000 == 0,
        i >= 2 ==> after % 0x100_0000 == 0,
        i >= 3 ==> after == 0,
{
    assert(after == 256 * before + (256 * m - n) * 0x1_0000_0000);
}

proof fn lemma_span_grows(n: nat)
    requires
        n >= 1,
    ensures
        bytes::span((n - 1) as nat) < bytes::span(n),
        bytes::span(n) == 256 * bytes::span((n - 1) as nat),
    decreases n,
{
    if n > 1 {
        lemma_span_grows((n - 1) as nat);
    }
}

/// A new encoder and a new decoder agree.
pub proof fn lemma_start(data: Seq<u8>)
    requires
        data.len() >= 5,
        accepts(data, Enc { n: 1, low: 0, range: 0xffff_ffff }),
    ensures
        coder_for(data, Enc { n: 1, low: 0, range: 0xffff_ffff }) == range::start_coder(data),
{
    reveal_with_fuel(leading, 6);
    // the first byte is zero, or the number would be too large
    let d = leading(data, 5);
    assert(d == data[0] * 0x1_0000_0000 + 0x100_0000 * data[1] + 0x1_0000 * data[2] + 256 * data[3]
        + data[4]);
}

} // verus!
