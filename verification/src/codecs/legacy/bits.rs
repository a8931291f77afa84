//! Bits of an entry, the least significant of each byte first.
use crate::utils::bits;
use crate::utils::error::{Error, Result};
use vstd::arithmetic::power2::*;
use vstd::prelude::*;

verus! {

/// The next `n` bits from bit `p` on and where they end, if there are as many.
pub open spec fn field(data: Seq<u8>, p: int, n: nat) -> Option<(nat, int)> {
    if p + n <= 8 * data.len() {
        Some((bits::peek(data, p, n), p + n))
    } else {
        None
    }
}

/// Reads bits of a byte string.
pub struct BitReader<'a> {
    data: &'a [u8],
    pos: usize,
    accumulator: u64,
    held: u32,
}

impl<'a> BitReader<'a> {
    /// The bytes read from.
    pub closed spec fn data(&self) -> Seq<u8> {
        self.data@
    }

    /// The bit read next.
    pub closed spec fn at(&self) -> int {
        8 * self.pos - self.held
    }

    /// What is held are the bits at the position.
    pub closed spec fn wf(&self) -> bool {
        &&& self.pos <= self.data@.len()
        &&& self.held <= 31
        &&& self.held <= 8 * self.pos
        &&& self.accumulator == bits::peek(self.data@, self.at(), self.held as nat)
    }

    /// The position lies within the data.
    pub proof fn lemma_at(&self)
        requires
            self.wf(),
        ensures
            0 <= self.at() <= 8 * self.data().len(),
    {
    }

    /// The first bit of `data`.
    pub fn new(data: &'a [u8]) -> (r: Self)
        ensures
            r.wf(),
            r.data() == data@,
            r.at() == 0,
    {
        BitReader { data, pos: 0, accumulator: 0, held: 0 }
    }

    /// Whether all bits were read.
    pub fn is_empty(&self) -> (r: bool)
        requires
            self.wf(),
        ensures
            r == (self.at() == 8 * self.data().len()),
    {
        self.held == 0 && self.pos >= self.data.len()
    }

    /// The next `count` bits, if there are as many.
    pub fn bits(&mut self, count: u32) -> (r: Option<u32>)
        requires
            old(self).wf(),
            count <= 24,
        ensures
            final(self).wf(),
            final(self).data() == old(self).data(),
            match field(old(self).data(), old(self).at(), count as nat) {
                Some((v, q)) => r == Some(v as u32) && v < pow2(count as nat) && v < 0x100_0000
                    && final(self).at() == q,
                None => r is None && final(self).at() == old(self).at(),
            },
    {
        let ghost p = self.at();
        proof {
            bits::lemma_peek_bound(self.data@, p, count as nat);
            lemma2_to64();
            if count < 24 {
                lemma_pow2_strictly_increases(count as nat, 24);
            }
        }
        while self.held < count
            invariant
                self.wf(),
                count <= 24,
                self.data() == old(self).data(),
                self.at() == p,
                p == old(self).at(),
            decreases count + 8 - self.held,
        {
            if self.pos >= self.data.len() {
                return None;
            }
            let byte: u64 = self.data[self.pos] as u64;
            proof {
                bits::lemma_peek_split(self.data@, p, self.held as nat, 8);
                bits::lemma_peek_bound(self.data@, p, self.held as nat);
                bits::lemma_peek_byte(self.data@, self.pos as int);
                lemma_pow2_strictly_increases(self.held as nat, 24);
                lemma2_to64();
                vstd::arithmetic::mul::lemma_mul_is_commutative(
                    byte as int,
                    pow2(self.held as nat) as int,
                );
                assert(byte * pow2(self.held as nat) <= 255 * 0x100_0000) by (nonlinear_arith)
                    requires
                        0 <= byte <= 255,
                        0 <= pow2(self.held as nat) <= 0x100_0000,
                ;
            }
            self.accumulator = self.accumulator + bits::shift_left(byte, self.held);
            self.pos = self.pos + 1;
            self.held = self.held + 8;
        }
        proof {
            bits::lemma_peek_div_mod(self.data@, p, count as nat, (self.held - count) as nat);
        }
        let value: u64 = bits::low_bits(self.accumulator, count);
        self.accumulator = bits::shift_right(self.accumulator, count);
        self.held = self.held - count;
        Some(value as u32)
    }

    /// The next bit, if there is one.
    pub fn bit(&mut self) -> (r: Option<u32>)
        requires
            old(self).wf(),
        ensures
            final(self).wf(),
            final(self).data() == old(self).data(),
            match field(old(self).data(), old(self).at(), 1) {
                Some((v, q)) => r == Some(v as u32) && v < 2 && final(self).at() == q,
                None => r is None && final(self).at() == old(self).at(),
            },
    {
        proof {
            lemma2_to64();
        }
        self.bits(1)
    }

    /// The next `count` bits; it is an error if there are not as many.
    pub fn need(&mut self, count: u32, what: &str) -> (r: Result<u32>)
        requires
            old(self).wf(),
            count <= 24,
        ensures
            final(self).wf(),
            final(self).data() == old(self).data(),
            match field(old(self).data(), old(self).at(), count as nat) {
                Some((v, q)) => r == Ok::<u32, Error>(v as u32) && v < pow2(count as nat) && v
                    < 0x100_0000 && final(self).at() == q,
                None => r == Err::<u32, Error>(Error::Malformed) && final(self).at() == old(
                self).at(),
            },
    {
        match self.bits(count) {
            Some(v) => Ok(v),
            None => Err(Error::Malformed),
        }
    }
}

} // verus!
