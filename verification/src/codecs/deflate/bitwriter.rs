//! A writer of bit strings, least significant bit first.
use crate::utils::bits;
use vstd::arithmetic::power2::*;
use vstd::prelude::*;

verus! {

/// Bits packed into bytes, with up to seven of them still waiting for a byte
/// to be full. Its view is every bit it holds.
#[derive(Debug)]
pub struct BitWriter {
    out: Vec<u8>,
    acc: u64,
    count: u32,
}

/// `w` with clear bits added up to the next multiple of eight.
pub open spec fn padded(w: Seq<bool>) -> Seq<bool> {
    w + Seq::new((bits::align8(w.len() as int) - w.len()) as nat, |k: int| false)
}

/// Bits in bytes, the last one filled up with zeros.
pub open spec fn bytes_of(w: Seq<bool>) -> Seq<u8> {
    Seq::new(
        (padded(w).len() / 8) as nat,
        |i: int| bits::value_of(padded(w).subrange(8 * i, 8 * i + 8)) as u8,
    )
}

/// Bytes are known by their bits.
pub proof fn lemma_bytes_of(b: Seq<u8>, w: Seq<bool>)
    requires
        bits::all_bits(b) == padded(w),
    ensures
        b == bytes_of(w),
{
    assert(bits::all_bits(b).len() == 8 * b.len());
    assert forall|i: int| 0 <= i < b.len() implies b[i] == bytes_of(w)[i] by {
        let x = bits::all_bits(b).subrange(8 * i, 8 * i + 8);
        assert forall|k: int| 0 <= k < 8 implies x[k] == bits::bits_of(b[i] as nat, 8)[k] by {
            assert((8 * i + k) / 8 == i);
            assert((8 * i + k) % 8 == k);
        }
        assert(x =~= bits::bits_of(b[i] as nat, 8));
        bits::lemma_value_of_bits_of(b[i] as nat, 8);
        lemma2_to64();
    }
    assert(b =~= bytes_of(w));
}

/// How many bits of `w` lie in full bytes.
pub open spec fn whole(w: Seq<bool>) -> int {
    w.len() as int / 8 * 8
}

impl View for BitWriter {
    type V = Seq<bool>;

    closed spec fn view(&self) -> Seq<bool> {
        bits::all_bits(self.out@) + bits::bits_of(self.acc as nat, self.count as nat)
    }
}

impl Default for BitWriter {
    fn default() -> (r: Self)
        ensures
            r.wf(),
            r@ == Seq::<bool>::empty(),
    {
        BitWriter::new()
    }
}

impl BitWriter {
    /// Fewer than eight bits wait, and nothing stands above them.
    pub closed spec fn wf(&self) -> bool {
        self.count < 8 && self.acc < pow2(self.count as nat)
    }

    /// A writer that holds nothing.
    pub fn new() -> (r: Self)
        ensures
            r.wf(),
            r@ == Seq::<bool>::empty(),
    {
        proof {
            lemma2_to64();
        }
        BitWriter { out: Vec::new(), acc: 0, count: 0 }
    }

    /// A writer that holds nothing and has room for `capacity` bytes.
    pub fn with_capacity(capacity: usize) -> (r: Self)
        ensures
            r.wf(),
            r@ == Seq::<bool>::empty(),
    {
        proof {
            lemma2_to64();
        }
        BitWriter { out: Vec::with_capacity(capacity), acc: 0, count: 0 }
    }

    /// How many bytes are full.
    pub fn len(&self) -> (r: usize)
        requires
            self.wf(),
        ensures
            r == self@.len() / 8,
    {
        self.out.len()
    }

    /// Whether no bit was written.
    pub fn is_empty(&self) -> (r: bool)
        requires
            self.wf(),
        ensures
            r == (self@.len() == 0),
    {
        self.out.len() == 0 && self.count == 0
    }

    /// Write the `n` low bits of `value`.
    pub fn write_bits(&mut self, value: u32, n: u32)
        requires
            old(self).wf(),
            n <= 32,
        ensures
            final(self).wf(),
            final(self)@ == old(self)@ + bits::bits_of(value as nat, n as nat),
    {
        let masked: u64 = bits::low_bits(value as u64, n);
        proof {
            lemma_pow2_adds(n as nat, self.count as nat);
            lemma_pow2_pos(n as nat);
            lemma_pow2_pos(self.count as nat);
            if n + self.count < 39 {
                lemma_pow2_strictly_increases(n as nat + self.count as nat, 39);
            }
            lemma2_to64();
            lemma2_to64_rest();
            assert(self.acc + masked * pow2(self.count as nat) < pow2(n as nat + self.count as nat))
                by (nonlinear_arith)
                requires
                    self.acc < pow2(self.count as nat),
                    masked + 1 <= pow2(n as nat),
                    pow2(n as nat + self.count as nat) == pow2(n as nat) * pow2(self.count as nat),
            ;
            let c = self.count as nat;
            let m = masked as nat;
            bits::lemma_bits_of_concat(self.acc as nat, m, c, n as nat);
            assert(m * pow2(c) == pow2(c) * m) by (nonlinear_arith);
            assert(bits::bits_of(m, n as nat) =~= bits::bits_of(value as nat, n as nat)) by {
                lemma_low_part(value as nat, n as nat);
            }
        }
        self.acc = self.acc + bits::shift_left(masked, self.count);
        self.count = self.count + n;
        assert(self@ =~= old(self)@ + bits::bits_of(value as nat, n as nat));
        self.flush_whole_bytes();
    }

    fn flush_whole_bytes(&mut self)
        requires
            old(self).count <= 63,
            old(self).acc < pow2(old(self).count as nat),
        ensures
            final(self).wf(),
            final(self)@ == old(self)@,
    {
        while self.count >= 8
            invariant
                self.count <= 63,
                self.acc < pow2(self.count as nat),
                self@ == old(self)@,
            decreases self.count,
        {
            let low: u64 = bits::low_bits(self.acc, 8);
            let ghost before = *self;
            proof {
                lemma2_to64();
                lemma_pow2_adds(8, (self.count - 8) as nat);
                let a = self.acc as int;
                vstd::arithmetic::div_mod::lemma_fundamental_div_mod(a, 256);
                assert(a / 256 < pow2((self.count - 8) as nat)) by (nonlinear_arith)
                    requires
                        a < 256 * pow2((self.count - 8) as nat),
                        a == 256 * (a / 256) + a % 256,
                        0 <= a % 256,
                ;
                bits::lemma_bits_of_concat(low as nat, (a / 256) as nat, 8, (self.count - 8) as nat);
                bits::lemma_all_bits_push(self.out@, low as u8);
            }
            self.out.push(low as u8);
            self.acc = bits::shift_right(self.acc, 8);
            self.count = self.count - 8;
            assert(self@ =~= before@);
        }
    }

    /// Fill the byte in progress with clear bits.
    pub fn align_to_byte(&mut self)
        requires
            old(self).wf(),
        ensures
            final(self).wf(),
            final(self)@ == padded(old(self)@),
            final(self)@.len() % 8 == 0,
    {
        let ghost before = *self;
        proof {
            lemma2_to64();
        }
        if self.count > 0 {
            proof {
                let c = self.count as nat;
                lemma_pow2_strictly_increases(c, 8);
                assert(self.acc < 256);
                bits::lemma_all_bits_push(self.out@, self.acc as u8);
                lemma_pow2_pos(c);
                assert(pow2(c) * 0 == 0);
                bits::lemma_bits_of_concat(self.acc as nat, 0, c, (8 - c) as nat);
                assert(bits::bits_of(0, (8 - c) as nat) =~= Seq::new((8 - c) as nat, |k: int| false))
                    by {
                    assert forall|k: int| 0 <= k < 8 - c implies !#[trigger] bits::bits_of(
                        0,
                        (8 - c) as nat,
                    )[k] by {
                        lemma_pow2_pos(k as nat);
                        vstd::arithmetic::div_mod::lemma_div_basics(pow2(k as nat) as int);
                    }
                }
            }
            self.out.push(self.acc as u8);
            self.acc = 0;
            self.count = 0;
            assert(self@ =~= padded(before@));
        } else {
            assert(self@ =~= padded(before@));
        }
    }

    /// Write whole bytes.
    pub fn write_bytes(&mut self, bytes: &[u8])
        requires
            old(self).wf(),
            old(self)@.len() % 8 == 0,
        ensures
            final(self).wf(),
            final(self)@ == old(self)@ + bits::all_bits(bytes@),
    {
        proof {
            bits::lemma_all_bits_concat(self.out@, bytes@);
        }
        self.out.extend_from_slice(bytes);
        assert(self@ =~= old(self)@ + bits::all_bits(bytes@));
    }

    /// How many bits wait for their byte to be full.
    pub fn pending_bits(&self) -> (r: u32)
        requires
            self.wf(),
        ensures
            r == self@.len() % 8,
    {
        self.count
    }

    /// The full bytes.
    pub fn as_slice(&self) -> (r: &[u8])
        requires
            self.wf(),
        ensures
            bits::all_bits(r@) == self@.take(whole(self@)),
    {
        assert(bits::all_bits(self.out@) =~= self@.take(whole(self@)));
        self.out.as_slice()
    }

    /// Everything written, filled up to a whole byte.
    pub fn finish(self) -> (r: Vec<u8>)
        requires
            self.wf(),
        ensures
            bits::all_bits(r@) == padded(self@),
    {
        let mut w: BitWriter = self;
        w.align_to_byte();
        assert(w@ =~= bits::all_bits(w.out@));
        w.out
    }

    /// Everything written, filled up to a whole byte, leaving the writer empty.
    pub fn take(&mut self) -> (r: Vec<u8>)
        requires
            old(self).wf(),
        ensures
            final(self).wf(),
            final(self)@ == Seq::<bool>::empty(),
            bits::all_bits(r@) == padded(old(self)@),
    {
        self.align_to_byte();
        assert(self@ =~= bits::all_bits(self.out@));
        let mut bytes: Vec<u8> = Vec::new();
        std::mem::swap(&mut self.out, &mut bytes);
        assert(self@ =~= Seq::<bool>::empty());
        bytes
    }

    /// The full bytes, which leave the writer. The bits of the byte in progress
    /// stay.
    pub fn drain_complete_bytes(&mut self) -> (r: Vec<u8>)
        requires
            old(self).wf(),
        ensures
            final(self).wf(),
            final(self)@ == old(self)@.skip(whole(old(self)@)),
            bits::all_bits(r@) == old(self)@.take(whole(old(self)@)),
    {
        let mut bytes: Vec<u8> = Vec::new();
        std::mem::swap(&mut self.out, &mut bytes);
        assert(self@ =~= old(self)@.skip(whole(old(self)@)));
        assert(bits::all_bits(bytes@) =~= old(self)@.take(whole(old(self)@)));
        bytes
    }
}

/// Cutting a number down to its `n` low bits keeps those bits.
proof fn lemma_low_part(v: nat, n: nat)
    ensures
        bits::bits_of(v % pow2(n), n) == bits::bits_of(v, n),
{
    lemma_pow2_pos(n);
    let m = v % pow2(n);
    let q = v / pow2(n);
    vstd::arithmetic::div_mod::lemma_fundamental_div_mod(v as int, pow2(n) as int);
    bits::lemma_bits_of_concat(m, q, n, 0);
    assert(bits::bits_of(v, n + 0) =~= bits::bits_of(m, n) + bits::bits_of(q, 0));
    assert(bits::bits_of(v, n) =~= bits::bits_of(m, n));
}

} // verus!
