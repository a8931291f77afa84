//! The bits of a byte string, taken one field at a time.
use crate::codecs::deflate::huffman;
use crate::codecs::deflate::huffman::Decoder;
use crate::codecs::deflate::inflate;
use crate::utils::bits;
use crate::utils::error::{Error, Result};
use vstd::arithmetic::power2::*;
use vstd::prelude::*;

verus! {

/// A position in the bits of a byte string. Some bits beyond it are held
/// ready; past the end of the input a few clear bits stand in.
pub struct BitSource {
    data: Vec<u8>,
    fetched: usize,
    padding: u32,
    buffer: u64,
    count: u32,
}

impl BitSource {
    /// The bytes read from.
    pub closed spec fn data(&self) -> Seq<u8> {
        self.data@
    }

    /// The bit read next.
    pub closed spec fn pos(&self) -> int {
        8 * self.fetched + self.padding - self.count
    }

    /// How many bits are held ready.
    pub closed spec fn held(&self) -> int {
        self.count as int
    }

    /// What is held are the bits at the position.
    pub closed spec fn wf(&self) -> bool {
        &&& self.fetched <= self.data@.len()
        &&& self.padding <= 64
        &&& self.padding % 8 == 0
        &&& self.padding > 0 ==> self.fetched == self.data@.len()
        &&& self.count <= 23
        &&& 0 <= self.pos() <= inflate::limit(self.data@)
        &&& self.buffer == bits::peek(self.data@, self.pos(), self.count as nat)
    }

    /// The position lies within the input and the zeros after it.
    pub proof fn lemma_pos(&self)
        requires
            self.wf(),
        ensures
            0 <= self.pos() <= inflate::limit(self.data()),
            0 <= self.held() <= 23,
            (self.pos() + self.held()) % 8 == 0,
    {
    }

    /// The first bit of `data`.
    pub fn new(data: Vec<u8>) -> (r: Self)
        ensures
            r.wf(),
            r.data() == data@,
            r.pos() == 0,
            r.held() == 0,
    {
        BitSource { data, fetched: 0, padding: 0, buffer: 0, count: 0 }
    }

    /// The bytes read from.
    pub fn into_data(self) -> (r: Vec<u8>)
        ensures
            r@ == self.data(),
    {
        self.data
    }

    /// How many bytes of the input the bits read so far lie in.
    pub fn consumed(&self) -> (r: usize)
        requires
            self.wf(),
        ensures
            r == if bits::align8(self.pos()) / 8 < self.data().len() {
                bits::align8(self.pos()) / 8
            } else {
                self.data().len() as int
            },
    {
        let ahead: usize = (self.count / 8) as usize;
        let zeros: usize = (self.padding / 8) as usize;
        if ahead >= zeros {
            self.fetched - (ahead - zeros)
        } else {
            self.fetched
        }
    }

    /// Hold at least `n` bits ready.
    fn need(&mut self, n: u32) -> (r: Result<()>)
        requires
            old(self).wf(),
            n <= 16,
        ensures
            final(self).wf(),
            final(self).data() == old(self).data(),
            r is Ok <==> old(self).pos() + n <= inflate::limit(old(self).data()),
            r is Ok ==> final(self).count >= n && final(self).pos() == old(self).pos(),
            r is Ok && old(self).count >= n ==> final(self).count == old(self).count,
            r is Ok && old(self).count < n ==> final(self).count < n + 8,
            r matches Err(e) ==> e == Error::Malformed,
    {
        let ghost p = self.pos();
        while self.count < n
            invariant
                self.wf(),
                n <= 16,
                self.data() == old(self).data(),
                self.pos() == p,
                p == old(self).pos(),
                old(self).count >= n ==> self.count == old(self).count,
                old(self).count < n ==> self.count < n + 8,
            decreases n + 8 - self.count,
        {
            proof {
                bits::lemma_peek_split(self.data@, p, self.count as nat, 8);
                bits::lemma_peek_bound(self.data@, p, self.count as nat);
            }
            if self.fetched == self.data.len() {
                if self.padding >= 64 {
                    return Err(Error::Malformed);
                }
                proof {
                    bits::lemma_peek_past_end(self.data@, p + self.count, 8);
                    assert(pow2(self.count as nat) * 0 == 0);
                }
                self.padding = self.padding + 8;
                self.count = self.count + 8;
            } else {
                let byte: u64 = self.data[self.fetched] as u64;
                proof {
                    bits::lemma_peek_byte(self.data@, self.fetched as int);
                    lemma_pow2_strictly_increases(self.count as nat, 16);
                    lemma2_to64();
                    vstd::arithmetic::mul::lemma_mul_is_commutative(
                        byte as int,
                        pow2(self.count as nat) as int,
                    );
                    assert(byte * pow2(self.count as nat) <= 255 * 65536) by (nonlinear_arith)
                        requires
                            0 <= byte <= 255,
                            0 <= pow2(self.count as nat) <= 65536,
                    ;
                }
                self.buffer = self.buffer + bits::shift_left(byte, self.count);
                self.fetched = self.fetched + 1;
                self.count = self.count + 8;
            }
        }
        proof {
            if n == 0 {
            }
        }
        Ok(())
    }

    fn drop_bits(&mut self, n: u32)
        requires
            old(self).wf(),
            n <= old(self).count,
        ensures
            final(self).wf(),
            final(self).data() == old(self).data(),
            final(self).pos() == old(self).pos() + n,
            final(self).count == old(self).count - n,
    {
        proof {
            bits::lemma_peek_div_mod(self.data@, self.pos(), n as nat, (self.count - n) as nat);
        }
        self.buffer = bits::shift_right(self.buffer, n);
        self.count = self.count - n;
    }

    /// A field of `n` bits.
    pub fn bits(&mut self, n: u32) -> (r: Result<u32>)
        requires
            old(self).wf(),
            n <= 16,
        ensures
            final(self).wf(),
            final(self).data() == old(self).data(),
            match inflate::field(old(self).data(), old(self).pos(), n as nat) {
                Some((v, q)) => r == Ok::<u32, Error>(v as u32) && v < pow2(n as nat)
                    && final(self).pos() == q,
                None => r == Err::<u32, Error>(Error::Malformed),
            },
            r is Ok && n == 16 && old(self).held() % 8 == 0 && old(self).held() <= 16
                ==> final(self).held() == 0,
            r is Ok ==> final(self).held() <= if old(self).held() >= n {
                old(self).held() - n
            } else {
                7
            },
    {
        proof {
            bits::lemma_peek_bound(self.data@, self.pos(), n as nat);
            lemma2_to64();
            if n < 16 {
                lemma_pow2_strictly_increases(n as nat, 16);
            }
        }
        if n == 0 {
            return Ok(0);
        }
        match self.need(n) {
            Err(e) => Err(e),
            Ok(_) => {
                proof {
                    bits::lemma_peek_div_mod(
                        self.data@,
                        self.pos(),
                        n as nat,
                        (self.count - n) as nat,
                    );
                }
                let v: u64 = bits::low_bits(self.buffer, n);
                self.drop_bits(n);
                Ok(v as u32)
            },
        }
    }

    /// Go to the next whole byte.
    pub fn align_to_byte(&mut self)
        requires
            old(self).wf(),
        ensures
            final(self).wf(),
            final(self).data() == old(self).data(),
            final(self).pos() == bits::align8(old(self).pos()),
            final(self).held() % 8 == 0,
            final(self).held() <= old(self).held(),
    {
        let extra: u32 = self.count % 8;
        self.drop_bits(extra);
    }

    /// A symbol of a prefix code.
    pub fn decode_symbol(&mut self, decoder: &Decoder) -> (r: Result<u16>)
        requires
            old(self).wf(),
            decoder.wf(),
        ensures
            final(self).wf(),
            final(self).data() == old(self).data(),
            match inflate::symbol(old(self).data(), old(self).pos(), decoder@) {
                Some((s, q)) => r == Ok::<u16, Error>(s as u16) && s <= u16::MAX
                    && final(self).pos() == q,
                None => r == Err::<u16, Error>(Error::Malformed),
            },
    {
        match self.need(15) {
            Err(e) => Err(e),
            Ok(_) => {
                proof {
                    let p = self.pos();
                    bits::lemma_peek_div_mod(self.data@, p, 15, (self.count - 15) as nat);
                    bits::lemma_peek_bound(self.data@, p, 15);
                    vstd::arithmetic::div_mod::lemma_small_mod(
                        bits::peek(self.data@, p, 15),
                        pow2(15),
                    );
                    huffman::lemma_decoded_low(
                        decoder@,
                        self.buffer as nat,
                        bits::peek(self.data@, p, 15),
                    );
                    huffman::lemma_decoded_range(decoder@, self.buffer as nat);
                }
                match decoder.decode(self.buffer) {
                    Err(e) => Err(e),
                    Ok((symbol, used)) => {
                        self.drop_bits(used);
                        Ok(symbol)
                    },
                }
            },
        }
    }

    /// Up to `n` whole bytes from the position, where no bit is held.
    pub fn bytes(&mut self, n: usize, into: &mut Vec<u8>) -> (got: usize)
        requires
            old(self).wf(),
            old(self).held() == 0,
        ensures
            final(self).wf(),
            final(self).data() == old(self).data(),
            final(self).held() == 0,
            final(self).pos() == old(self).pos() + 8 * got,
            got <= n,
            got > 0 ==> final(self).pos() <= 8 * old(self).data().len(),
            got < n ==> final(self).pos() >= 8 * old(self).data().len(),
            got == 0 ==> final(into)@ == old(into)@,
            got > 0 ==> final(into)@ == old(into)@ + old(self).data().subrange(
                old(self).pos() / 8,
                old(self).pos() / 8 + got,
            ),
    {
        let left: usize = self.data.len() - self.fetched;
        let got: usize = if n < left {
            n
        } else {
            left
        };
        let from: usize = self.fetched;
        into.extend_from_slice(&self.data.as_slice()[from..from + got]);
        self.fetched = from + got;
        assert(final(into)@ =~= old(into)@ + self.data@.subrange(from as int, from + got));
        got
    }
}

} // verus!
