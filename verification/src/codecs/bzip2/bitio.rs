//! Bits, the most significant of each byte first.
use crate::utils::bits as words;
use crate::utils::error::{Error, Result};
use vstd::arithmetic::div_mod::*;
use vstd::arithmetic::mul::*;
use vstd::arithmetic::power2::*;
use vstd::prelude::*;

verus! {

/// The `n` low bits of a number, the most significant first.
pub open spec fn digits(v: nat, n: nat) -> Seq<bool>
    decreases n,
{
    if n == 0 {
        Seq::empty()
    } else {
        digits(v / 2, (n - 1) as nat).push(v % 2 == 1)
    }
}

/// The number that bits spell, the most significant first.
pub open spec fn value(w: Seq<bool>) -> nat
    decreases w.len(),
{
    if w.len() == 0 {
        0
    } else {
        2 * value(w.drop_last()) + if w.last() {
            1nat
        } else {
            0
        }
    }
}

/// All bits of a byte string.
pub open spec fn bits_of(data: Seq<u8>) -> Seq<bool>
    decreases data.len(),
{
    if data.len() == 0 {
        Seq::empty()
    } else {
        bits_of(data.drop_last()) + digits(data.last() as nat, 8)
    }
}

/// The number in `n` bits from `p` on, and where they end.
pub open spec fn field(b: Seq<bool>, p: int, n: nat) -> Option<(nat, int)> {
    if 0 <= p && p + n <= b.len() {
        Some((value(b.subrange(p, p + n)), p + n))
    } else {
        None
    }
}

/// Whether the bits `w` stand at `p`.
pub open spec fn has(b: Seq<bool>, p: int, w: Seq<bool>) -> bool {
    0 <= p && p + w.len() <= b.len() && b.subrange(p, p + w.len()) == w
}

pub proof fn lemma_digits_len(v: nat, n: nat)
    ensures
        digits(v, n).len() == n,
    decreases n,
{
    if n > 0 {
        lemma_digits_len(v / 2, (n - 1) as nat);
    }
}

/// A number in as many bits as it needs reads back.
pub proof fn lemma_value_digits(v: nat, n: nat)
    requires
        v < pow2(n),
    ensures
        value(digits(v, n)) == v,
        digits(v, n).len() == n,
    decreases n,
{
    lemma_digits_len(v, n);
    if n == 0 {
        lemma2_to64();
    } else {
        lemma_pow2_unfold(n);
        lemma_value_digits(v / 2, (n - 1) as nat);
        assert(digits(v, n).drop_last() =~= digits(v / 2, (n - 1) as nat));
    }
}

pub proof fn lemma_value_bound(w: Seq<bool>)
    ensures
        value(w) < pow2(w.len()),
    decreases w.len(),
{
    if w.len() == 0 {
        lemma2_to64();
    } else {
        lemma_value_bound(w.drop_last());
        lemma_pow2_unfold(w.len());
    }
}

/// The digits of a number that bits spell are the bits.
pub proof fn lemma_digits_value(w: Seq<bool>)
    ensures
        digits(value(w), w.len()) == w,
    decreases w.len(),
{
    if w.len() > 0 {
        lemma_digits_value(w.drop_last());
        let v = value(w);
        assert(v / 2 == value(w.drop_last()));
        assert(digits(v, w.len()) =~= w.drop_last().push(w.last()));
        assert(w.drop_last().push(w.last()) =~= w);
    } else {
        assert(w =~= Seq::<bool>::empty());
    }
}

/// Bits before other bits.
pub proof fn lemma_value_concat(a: Seq<bool>, b: Seq<bool>)
    ensures
        value(a + b) == value(a) * pow2(b.len()) + value(b),
    decreases b.len(),
{
    if b.len() == 0 {
        assert(a + b =~= a);
        lemma2_to64();
        assert(value(a) * 1 == value(a));
    } else {
        let c = b.drop_last();
        lemma_value_concat(a, c);
        assert((a + b).drop_last() =~= a + c);
        lemma_pow2_unfold(b.len());
        let x = value(a);
        let y = pow2(c.len());
        assert(x * (2 * y) == 2 * (x * y)) by (nonlinear_arith);
    }
}

/// Digits of a number made of two parts.
pub proof fn lemma_digits_concat(x: nat, y: nat, m: nat, n: nat)
    requires
        y < pow2(n),
        x < pow2(m),
    ensures
        digits(x * pow2(n) + y, m + n) == digits(x, m) + digits(y, n),
{
    let w = digits(x, m) + digits(y, n);
    lemma_value_digits(x, m);
    lemma_value_digits(y, n);
    lemma_value_concat(digits(x, m), digits(y, n));
    lemma_digits_value(w);
}

pub proof fn lemma_bits_len(data: Seq<u8>)
    ensures
        bits_of(data).len() == 8 * data.len(),
    decreases data.len(),
{
    if data.len() > 0 {
        lemma_bits_len(data.drop_last());
        lemma_digits_len(data.last() as nat, 8);
    }
}

/// The bits of a start of a byte string.
pub proof fn lemma_bits_take(data: Seq<u8>, k: int)
    requires
        0 <= k <= data.len(),
    ensures
        bits_of(data.take(k)) == bits_of(data).take(8 * k),
        bits_of(data).len() == 8 * data.len(),
    decreases data.len(),
{
    lemma_bits_len(data);
    lemma_bits_len(data.take(k));
    if k == data.len() {
        assert(data.take(k) =~= data);
        assert(bits_of(data).take(8 * k) =~= bits_of(data));
    } else {
        let d = data.drop_last();
        lemma_bits_take(d, k);
        lemma_bits_len(d);
        assert(data.take(k) =~= d.take(k));
        assert(bits_of(data).take(8 * k) =~= bits_of(d).take(8 * k));
    }
}

/// The eight bits of a byte.
pub proof fn lemma_byte_at(data: Seq<u8>, i: int)
    requires
        0 <= i < data.len(),
    ensures
        bits_of(data).subrange(8 * i, 8 * i + 8) == digits(data[i] as nat, 8),
        bits_of(data).len() == 8 * data.len(),
        value(digits(data[i] as nat, 8)) == data[i],
        digits(data[i] as nat, 8).len() == 8,
{
    let t = data.take(i + 1);
    lemma_bits_take(data, i + 1);
    lemma_bits_len(t.drop_last());
    lemma2_to64();
    lemma_value_digits(data[i] as nat, 8);
    assert(t.drop_last() =~= data.take(i));
    assert(t.last() == data[i]);
    let b = bits_of(data);
    assert(b.subrange(8 * i, 8 * i + 8) =~= b.take(8 * (i + 1)).subrange(8 * i, 8 * i + 8));
    assert(bits_of(t).subrange(8 * i, 8 * i + 8) =~= digits(data[i] as nat, 8));
}

/// A field that was written is read back.
pub proof fn lemma_field_back(b: Seq<bool>, p: int, v: nat, n: nat)
    requires
        v < pow2(n),
        has(b, p, digits(v, n)),
    ensures
        field(b, p, n) == Some((v, p + n)),
{
    lemma_value_digits(v, n);
}

/// What stands at `p` stands there piece by piece.
pub proof fn lemma_has_concat(b: Seq<bool>, p: int, x: Seq<bool>, y: Seq<bool>)
    requires
        has(b, p, x + y),
    ensures
        has(b, p, x),
        has(b, p + x.len(), y),
{
    let w = b.subrange(p, p + (x + y).len());
    assert(b.subrange(p, p + x.len()) =~= w.take(x.len() as int));
    assert((x + y).take(x.len() as int) =~= x);
    assert(b.subrange(p + x.len(), p + x.len() + y.len()) =~= w.skip(x.len() as int));
    assert((x + y).skip(x.len() as int) =~= y);
}

/// Reads bits.
pub(crate) struct BitReader {
    data: Vec<u8>,
    pos: usize,
    buf: u64,
    count: u32,
}

impl BitReader {
    /// All bits of the input.
    pub closed spec fn bits(&self) -> Seq<bool> {
        bits_of(self.data@)
    }

    /// The input.
    pub closed spec fn data(&self) -> Seq<u8> {
        self.data@
    }

    /// The bit read next.
    pub closed spec fn at(&self) -> int {
        8 * self.pos - self.count
    }

    /// What is held are the bits at the position.
    pub closed spec fn wf(&self) -> bool {
        &&& self.pos <= self.data@.len()
        &&& self.count <= 8 * self.pos
        &&& self.count <= 40
        &&& self.buf == value(self.bits().subrange(self.at(), 8 * self.pos as int))
    }

    pub proof fn lemma_at(&self)
        requires
            self.wf(),
        ensures
            0 <= self.at() <= self.bits().len(),
            self.bits().len() == 8 * self.data().len(),
            self.bits() == bits_of(self.data()),
    {
        lemma_bits_len(self.data@);
    }

    pub fn new(data: Vec<u8>) -> (r: Self)
        ensures
            r.wf(),
            r.data() == data@,
            r.bits() == bits_of(data@),
            r.at() == 0,
    {
        let r: BitReader = BitReader { data, pos: 0, buf: 0, count: 0 };
        assert(r.bits().subrange(0, 0) =~= Seq::<bool>::empty());
        r
    }

    /// The number in the next `n` bits.
    pub fn take(&mut self, n: u32) -> (r: Result<u32>)
        requires
            old(self).wf(),
            n <= 32,
        ensures
            final(self).wf(),
            final(self).data() == old(self).data(),
            final(self).bits() == old(self).bits(),
            match field(old(self).bits(), old(self).at(), n as nat) {
                Some((v, q)) => r == Ok::<u32, Error>(v as u32) && v < pow2(n as nat) && v
                    <= u32::MAX && final(self).at() == q,
                None => r == Err::<u32, Error>(Error::Malformed) && final(self).at() == old(self).at(),
            },
    {
        let ghost b = self.bits();
        let ghost p = self.at();
        proof {
            lemma_bits_len(self.data@);
        }
        while self.count < n
            invariant
                self.wf(),
                n <= 32,
                self.data() == old(self).data(),
                b == self.bits(),
                b.len() == 8 * self.data@.len(),
                self.at() == p,
                b == old(self).bits(),
                p == old(self).at(),
            decreases 40 - self.count,
        {
            if self.pos == self.data.len() {
                return Err(Error::Malformed);
            }
            proof {
                let held = b.subrange(p, 8 * self.pos as int);
                let byte = digits(self.data@[self.pos as int] as nat, 8);
                lemma_byte_at(self.data@, self.pos as int);
                lemma_value_concat(held, byte);
                lemma_value_bound(held);
                lemma2_to64();
                lemma_pow2_strictly_increases(self.count as nat, 32);
                assert(b.subrange(p, 8 * self.pos + 8) =~= held + byte);
            }
            self.buf = self.buf * 256 + self.data[self.pos] as u64;
            self.pos = self.pos + 1;
            self.count = self.count + 8;
        }
        let rest: u32 = self.count - n;
        proof {
            let w = b.subrange(p, p + n);
            let z = b.subrange(p + n, 8 * self.pos as int);
            assert(b.subrange(p, 8 * self.pos as int) =~= w + z);
            lemma_value_concat(w, z);
            lemma_value_bound(w);
            lemma_value_bound(z);
            lemma_pow2_pos(rest as nat);
            lemma2_to64();
            lemma2_to64_rest();
            if n < 32 {
                lemma_pow2_strictly_increases(n as nat, 32);
            }
            lemma_fundamental_div_mod_converse(
                self.buf as int,
                pow2(rest as nat) as int,
                value(w) as int,
                value(z) as int,
            );
        }
        let v: u64 = words::shift_right(self.buf, rest);
        self.buf = words::low_bits(self.buf, rest);
        self.count = rest;
        Ok(v as u32)
    }

    /// The next bit.
    pub fn bit(&mut self) -> (r: Result<bool>)
        requires
            old(self).wf(),
        ensures
            final(self).wf(),
            final(self).data() == old(self).data(),
            final(self).bits() == old(self).bits(),
            0 <= old(self).at() <= old(self).bits().len(),
            old(self).at() < old(self).bits().len() ==> r == Ok::<bool, Error>(
                old(self).bits()[old(self).at()],
            ) && final(self).at() == old(self).at() + 1,
            old(self).at() >= old(self).bits().len() ==> r == Err::<bool, Error>(Error::Malformed),
    {
        proof {
            lemma2_to64();
            self.lemma_at();
            let b = self.bits();
            let p = self.at();
            if p < b.len() {
                let w = b.subrange(p, p + 1);
                assert(w.drop_last() =~= Seq::<bool>::empty());
                assert(w.last() == b[p]);
            }
        }
        match self.take(1) {
            Ok(v) => Ok(v == 1),
            Err(e) => Err(e),
        }
    }

    /// Go to the next whole byte.
    pub fn align(&mut self)
        requires
            old(self).wf(),
        ensures
            final(self).wf(),
            final(self).data() == old(self).data(),
            final(self).bits() == old(self).bits(),
            final(self).at() == words::align8(old(self).at()),
    {
        let n: u32 = self.count % 8;
        proof {
            lemma_bits_len(self.data@);
        }
        let _ = self.take(n);
    }
}

/// Writes bits.
pub(crate) struct BitWriter {
    out: Vec<u8>,
    buf: u64,
    count: u32,
    start: Ghost<int>,
}

/// The digits of zero.
proof fn lemma_digits_zero(n: nat)
    ensures
        forall|k: int| 0 <= k < digits(0, n).len() ==> !#[trigger] digits(0, n)[k],
    decreases n,
{
    if n > 0 {
        let front = digits(0, (n - 1) as nat);
        lemma_digits_zero((n - 1) as nat);
        assert(digits(0, n) == front.push(false));
        assert forall|k: int| 0 <= k < digits(0, n).len() implies !#[trigger] digits(0, n)[k] by {
            if k < front.len() {
                assert(!front[k]);
            }
        }
    }
}

impl BitWriter {
    /// What was there before.
    pub closed spec fn before(&self) -> Seq<u8> {
        self.out@.take(self.start@)
    }

    /// All bits written.
    pub closed spec fn bits(&self) -> Seq<bool> {
        bits_of(self.out@.skip(self.start@)) + digits(self.buf as nat, self.count as nat)
    }

    /// Less than a byte is held.
    pub closed spec fn wf(&self) -> bool {
        &&& self.count < 8
        &&& self.buf < pow2(self.count as nat)
        &&& 0 <= self.start@ <= self.out@.len()
    }

    pub fn new(out: Vec<u8>) -> (r: Self)
        ensures
            r.wf(),
            r.before() == out@,
            r.bits() == Seq::<bool>::empty(),
    {
        let ghost n = out@.len() as int;
        let r: BitWriter = BitWriter { out, buf: 0, count: 0, start: Ghost(n) };
        proof {
            lemma2_to64();
            assert(r.out@.skip(n) =~= Seq::<u8>::empty());
            assert(r.out@.take(n) =~= r.out@);
            assert(r.bits() =~= Seq::<bool>::empty());
        }
        r
    }

    fn spill(&mut self)
        requires
            8 <= old(self).count <= 40,
            old(self).buf < pow2(old(self).count as nat),
            0 <= old(self).start@ <= old(self).out@.len(),
        ensures
            final(self).wf(),
            final(self).start == old(self).start,
            final(self).before() == old(self).before(),
            final(self).bits() == old(self).bits(),
    {
        while self.count >= 8
            invariant
                self.count <= 40,
                self.buf < pow2(self.count as nat),
                0 <= self.start@ <= self.out@.len(),
                self.start == old(self).start,
                self.before() == old(self).before(),
                self.bits() == old(self).bits(),
            decreases self.count,
        {
            let rest: u32 = self.count - 8;
            let ghost d = self.out@.skip(self.start@);
            proof {
                lemma_pow2_adds(8, rest as nat);
                lemma_pow2_pos(rest as nat);
                lemma2_to64();
                lemma_fundamental_div_mod(self.buf as int, pow2(rest as nat) as int);
                lemma_mul_is_commutative(
                    pow2(rest as nat) as int,
                    self.buf as int / pow2(rest as nat) as int,
                );
                assert((self.buf as nat / pow2(rest as nat)) < 256) by {
                    lemma_div_by_multiple_is_strongly_ordered(
                        self.buf as int,
                        256 * pow2(rest as nat) as int,
                        256,
                        pow2(rest as nat) as int,
                    );
                    lemma_div_multiples_vanish(256, pow2(rest as nat) as int);
                    lemma_mul_is_commutative(256, pow2(rest as nat) as int);
                }
            }
            let top: u64 = words::shift_right(self.buf, rest);
            let low: u64 = words::low_bits(self.buf, rest);
            self.out.push(top as u8);
            proof {
                lemma_digits_concat(top as nat, low as nat, 8, rest as nat);
                assert(self.out@.skip(self.start@).drop_last() =~= d);
                assert(self.out@.skip(self.start@).last() == top as u8);
                assert(self.out@.take(self.start@) =~= old(self).out@.take(self.start@)) by {
                    assert(self.before() =~= old(self).before());
                }
                assert(bits_of(d) + (digits(top as nat, 8) + digits(low as nat, rest as nat))
                    =~= bits_of(d) + digits(top as nat, 8) + digits(low as nat, rest as nat));
            }
            self.buf = low;
            self.count = rest;
        }
    }

    /// Write the `n` low bits of a number.
    pub fn put(&mut self, v: u32, n: u32)
        requires
            old(self).wf(),
            n <= 32,
            v < pow2(n as nat),
        ensures
            final(self).wf(),
            final(self).before() == old(self).before(),
            final(self).bits() == old(self).bits() + digits(v as nat, n as nat),
    {
        proof {
            lemma2_to64();
            lemma2_to64_rest();
            lemma_pow2_adds(self.count as nat, n as nat);
            lemma_pow2_strictly_increases(self.count as nat, 8);
            if n < 32 {
                lemma_pow2_strictly_increases(n as nat, 32);
            }
            lemma_pow2_pos(n as nat);
            lemma_digits_concat(self.buf as nat, v as nat, self.count as nat, n as nat);
            let x = self.buf as int;
            let y = pow2(n as nat) as int;
            let c = pow2(self.count as nat) as int;
            assert(x * y + v < c * y && x * y <= 256 * 0x1_0000_0000) by (nonlinear_arith)
                requires
                    0 <= x,
                    x < c,
                    c <= 256,
                    0 <= v < y,
                    y <= 0x1_0000_0000,
            ;
            let d = bits_of(self.out@.skip(self.start@));
            assert(d + (digits(self.buf as nat, self.count as nat) + digits(v as nat, n as nat))
                =~= d + digits(self.buf as nat, self.count as nat) + digits(v as nat, n as nat));
        }
        self.buf = words::shift_left(self.buf, n) + v as u64;
        self.count = self.count + n;
        if self.count >= 8 {
            self.spill();
        }
    }

    /// Write one bit.
    pub fn put_bit(&mut self, set: bool)
        requires
            old(self).wf(),
        ensures
            final(self).wf(),
            final(self).before() == old(self).before(),
            final(self).bits() == old(self).bits().push(set),
    {
        let v: u32 = if set {
            1
        } else {
            0
        };
        proof {
            lemma2_to64();
            reveal_with_fuel(digits, 2);
            assert(digits(v as nat, 1) =~= seq![set]);
            assert(self.bits() + seq![set] =~= self.bits().push(set));
        }
        self.put(v, 1);
    }

    /// Fill the last byte with zeros and give back everything written.
    pub fn finish(self) -> (r: Vec<u8>)
        requires
            self.wf(),
        ensures
            self.before().is_prefix_of(r@),
            ({
                let body = bits_of(r@.skip(self.before().len() as int));
                &&& body.len() < self.bits().len() + 8
                &&& body.len() % 8 == 0
                &&& self.bits().is_prefix_of(body)
                &&& forall|k: int| self.bits().len() <= k < body.len() ==> !#[trigger] body[k]
            }),
    {
        let mut this: BitWriter = self;
        let ghost w = self.bits();
        proof {
            lemma_digits_len(self.buf as nat, self.count as nat);
            lemma_bits_len(self.out@.skip(self.start@));
            lemma2_to64();
            assert(w.take(w.len() as int) =~= w);
        }
        if this.count > 0 {
            let pad: u32 = 8 - this.count;
            proof {
                lemma_pow2_pos(pad as nat);
                lemma_digits_len(0, pad as nat);
            }
            this.put(0, pad);
            proof {
                assert(this.bits().len() == w.len() + pad);
                assert(w.len() == 8 * self.out@.skip(self.start@).len() + self.count);
                assert((w + digits(0, pad as nat)).take(w.len() as int) =~= w);
                lemma_digits_zero(pad as nat);
                assert forall|k: int| w.len() <= k < this.bits().len() implies !#[trigger]
                    this.bits()[k] by {
                    assert(!digits(0, pad as nat)[k - w.len()]);
                }
                lemma_digits_len(this.buf as nat, this.count as nat);
                lemma_bits_len(this.out@.skip(this.start@));
                assert(this.bits().len() == 8 * this.out@.skip(this.start@).len() + this.count);
                assert(this.count == 0);
            }
        }
        proof {
            let d = this.out@.skip(this.start@);
            assert(this.count == 0);
            assert(this.bits() =~= bits_of(d));
            assert(this.out@.take(this.start@) == self.before());
            assert(self.before().len() == this.start@);
        }
        this.out
    }
}

} // verus!
