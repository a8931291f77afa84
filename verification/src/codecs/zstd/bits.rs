//! Bits that are written forwards and read backwards.
use crate::codecs::deflate::bitwriter;
use crate::codecs::deflate::bitwriter::BitWriter as Forward;
use crate::utils::bits;
use crate::utils::bits::{floor_log2, low_bits, shift_left, shift_right};
use crate::utils::error::{Error, Result};
use vstd::arithmetic::div_mod::*;
use vstd::arithmetic::power2::*;
use vstd::prelude::*;

verus! {

/// How many bits a stream holds: those below the highest one of its last
/// byte.
pub open spec fn payload(data: Seq<u8>) -> Option<nat> {
    if data.len() == 0 || data.last() == 0 {
        None
    } else {
        Some((8 * (data.len() - 1) + bits::log2(data.last() as nat)) as nat)
    }
}

/// How far a backward reader has come.
pub struct Back {
    /// How many bits are left.
    pub left: nat,
    /// Whether more were taken than there were.
    pub over: bool,
}

/// The next bits as a number, zeros standing for bits that are not there.
pub open spec fn back_value(data: Seq<u8>, b: Back, count: nat) -> nat {
    if count <= b.left {
        bits::peek(data, b.left - count, count)
    } else {
        bits::peek(data, 0, b.left) * pow2((count - b.left) as nat)
    }
}

/// After some bits were taken.
pub open spec fn back_after(b: Back, count: nat) -> Back {
    if count <= b.left {
        Back { left: (b.left - count) as nat, over: b.over }
    } else {
        Back { left: 0, over: true }
    }
}

pub proof fn lemma_back_bound(data: Seq<u8>, b: Back, count: nat)
    ensures
        back_value(data, b, count) < pow2(count),
{
    if count <= b.left {
        bits::lemma_peek_bound(data, b.left - count, count);
    } else {
        bits::lemma_peek_bound(data, 0, b.left);
        let d = (count - b.left) as nat;
        lemma_pow2_adds(b.left, d);
        lemma_pow2_pos(d);
        let x = bits::peek(data, 0, b.left);
        let y = pow2(d);
        let z = pow2(b.left);
        assert(x * y < z * y) by (nonlinear_arith)
            requires
                x < z,
                y > 0,
        ;
    }
}

/// Whether a stream holds `w` below its closing bit.
pub open spec fn closes(data: Seq<u8>, w: Seq<bool>) -> bool {
    bits::all_bits(data) == bitwriter::padded(w.push(true))
}

/// The stream that holds `w` below its closing bit.
pub open spec fn closed(w: Seq<bool>) -> Seq<u8> {
    bitwriter::bytes_of(w.push(true))
}

/// A closed stream holds what was written.
pub proof fn lemma_closed(data: Seq<u8>, w: Seq<bool>)
    requires
        closes(data, w),
    ensures
        payload(data) == Some(w.len()),
        bits::has(data, 0, w),
        data.len() > 0,
{
    let n = w.len();
    let all = bits::all_bits(data);
    let v = w.push(true);
    let p = bitwriter::padded(v);
    assert(all.len() == 8 * data.len());
    assert(p.len() == bits::align8(n as int + 1));
    bits::lemma_has_all_bits(data);
    assert forall|k: int| 0 <= k < w.len() implies bits::bit(data, 0 + k) == #[trigger] w[k] by {
        assert(all[k] == p[k]);
    }
    let l = data.len() - 1;
    let k = (n - 8 * l) as nat;
    assert(0 <= k < 8);
    bits::lemma_peek_byte(data, l);
    bits::lemma_peek_split(data, 8 * l, k, (8 - k) as nat);
    bits::lemma_peek_bound(data, 8 * l, k);
    let high = bits::bits_of(1, (8 - k) as nat);
    assert forall|i: int| 0 <= i < high.len() implies bits::bit(data, 8 * l + k + i)
        == #[trigger] high[i] by {
        assert(all[n + i] == p[n + i]);
        lemma2_to64();
        lemma_pow2_pos(i as nat);
        if i == 0 {
            assert(1int / 1 == 1);
        } else {
            lemma_pow2_strictly_increases(0, i as nat);
            assert(1nat / pow2(i as nat) == 0) by {
                lemma_basic_div(1, pow2(i as nat) as int);
            }
        }
    }
    bits::lemma_has_value(data, 8 * l + k, 1, (8 - k) as nat);
    lemma2_to64();
    lemma_pow2_strictly_increases(0, (8 - k) as nat);
    lemma_small_mod(1, pow2((8 - k) as nat));
    assert(bits::peek(data, 8 * l + k, (8 - k) as nat) == 1);
    assert(pow2(k) * 1 == pow2(k));
    lemma_pow2_unfold(k + 1);
    bits::lemma_log2_unique(data.last() as nat, k);
}

/// What was written last is read first.
pub proof fn lemma_back(data: Seq<u8>, w: Seq<bool>, v: nat, n: nat, b: Back)
    requires
        bits::has(data, 0, w + bits::bits_of(v, n)),
        v < pow2(n),
        b.left == w.len() + n,
    ensures
        back_value(data, b, n) == v,
        back_after(b, n) == (Back { left: w.len(), over: b.over }),
        bits::has(data, 0, w),
{
    bits::lemma_has_concat(data, 0, w, bits::bits_of(v, n));
    bits::lemma_has_value(data, w.len() as int, v, n);
    lemma_small_mod(v, pow2(n));
}

/// Numbers added one after another, each in its own width.
pub open spec fn added(values: Seq<nat>, widths: Seq<nat>) -> Seq<bool>
    decreases values.len(),
{
    if values.len() == 0 {
        Seq::empty()
    } else {
        added(values.drop_last(), widths.drop_last()) + bits::bits_of(values.last(), widths.last())
    }
}

/// Numbers taken one after another, the last width first, and how far that
/// leads.
pub open spec fn taken(data: Seq<u8>, b: Back, widths: Seq<nat>) -> (Seq<nat>, Back)
    decreases widths.len(),
{
    if widths.len() == 0 {
        (Seq::empty(), b)
    } else {
        let n = widths.last();
        let (rest, end) = taken(data, back_after(b, n), widths.drop_last());
        (rest.push(back_value(data, b, n)), end)
    }
}

proof fn lemma_taken(data: Seq<u8>, values: Seq<nat>, widths: Seq<nat>, b: Back)
    requires
        values.len() == widths.len(),
        forall|i: int| 0 <= i < values.len() ==> #[trigger] values[i] < pow2(widths[i]),
        bits::has(data, 0, added(values, widths)),
        b.left == added(values, widths).len(),
    ensures
        taken(data, b, widths) == (values, (Back { left: 0, over: b.over })),
    decreases values.len(),
{
    if values.len() == 0 {
        assert(values =~= Seq::<nat>::empty());
    } else {
        let v = values.drop_last();
        let n = widths.drop_last();
        let w = added(v, n);
        assert(values[values.len() - 1] < pow2(widths[values.len() - 1]));
        lemma_back(data, w, values.last(), widths.last(), b);
        assert forall|i: int| 0 <= i < v.len() implies #[trigger] v[i] < pow2(n[i]) by {
            assert(values[i] < pow2(widths[i]));
        }
        lemma_taken(data, v, n, back_after(b, widths.last()));
        assert(v.push(values.last()) =~= values);
    }
}

/// What a writer was given in order, a reader gives back in the reverse order,
/// and then nothing is left.
pub proof fn lemma_added_taken(data: Seq<u8>, values: Seq<nat>, widths: Seq<nat>)
    requires
        values.len() == widths.len(),
        forall|i: int| 0 <= i < values.len() ==> #[trigger] values[i] < pow2(widths[i]),
        closes(data, added(values, widths)),
    ensures
        payload(data) matches Some(n) && taken(data, (Back { left: n, over: false }), widths) == (
            values,
            (Back { left: 0, over: false }),
        ),
{
    lemma_closed(data, added(values, widths));
    let n = added(values, widths).len();
    lemma_taken(data, values, widths, Back { left: n, over: false });
}

/// Reads bits from the end of a stream towards its start.
pub struct BackwardBits<'a> {
    data: &'a [u8],
    container: u64,
    held: u32,
    next: usize,
    overrun: bool,
}

impl<'a> BackwardBits<'a> {
    /// The stream.
    pub closed spec fn data(&self) -> Seq<u8> {
        self.data@
    }

    /// How far it has come.
    pub closed spec fn back(&self) -> Back {
        Back { left: (8 * self.next + self.held) as nat, over: self.overrun }
    }

    /// What is held are the bits above the byte read next.
    pub closed spec fn wf(&self) -> bool {
        &&& self.held <= 64
        &&& self.next <= self.data@.len()
        &&& self.container == bits::peek(self.data@, 8 * self.next, self.held as nat)
    }

    /// Start at the end of `data`.
    pub fn new(data: &'a [u8]) -> (r: Result<Self>)
        ensures
            match payload(data@) {
                Some(n) => r matches Ok(x) && x.wf() && x.data() == data@ && x.back() == (Back {
                    left: n,
                    over: false,
                }),
                None => r matches Err(e) && e == Error::Malformed,
            },
    {
        if data.len() == 0 {
            return Err(Error::Malformed);
        }
        let last: u8 = data[data.len() - 1];
        if last == 0 {
            return Err(Error::Malformed);
        }
        let held: u32 = floor_log2(last as u32);
        proof {
            let l = data@.len() - 1;
            bits::lemma_log2(last as nat);
            lemma2_to64();
            if held >= 8 {
                if held > 8 {
                    lemma_pow2_strictly_increases(8, held as nat);
                }
            }
            bits::lemma_peek_byte(data@, l);
            bits::lemma_peek_div_mod(data@, 8 * l, held as nat, (8 - held) as nat);
        }
        let container: u64 = low_bits(last as u64, held);
        Ok(BackwardBits { data, container, held, next: data.len() - 1, overrun: false })
    }

    fn pull(&mut self)
        requires
            old(self).wf(),
        ensures
            final(self).wf(),
            final(self).data() == old(self).data(),
            final(self).back() == old(self).back(),
            final(self).held > 56 || final(self).next == 0,
    {
        while self.held <= 56 && self.next > 0
            invariant
                self.wf(),
                self.data() == old(self).data(),
                self.back() == old(self).back(),
            decreases self.next,
        {
            let byte: u8 = self.data[self.next - 1];
            proof {
                let p = 8 * (self.next - 1);
                bits::lemma_peek_byte(self.data@, self.next - 1);
                bits::lemma_peek_split(self.data@, p, 8, self.held as nat);
                bits::lemma_peek_bound(self.data@, 8 * self.next, self.held as nat);
                lemma2_to64();
                lemma2_to64_rest();
                if self.held < 56 {
                    lemma_pow2_strictly_increases(self.held as nat, 56);
                }
                assert(8 + self.held as nat == (self.held + 8) as nat);
            }
            self.next = self.next - 1;
            self.container = self.container * 256 + byte as u64;
            self.held = self.held + 8;
        }
    }

    /// Whether more bits were taken than there were.
    pub fn is_exhausted(&self) -> (r: bool)
        ensures
            r == self.back().over,
    {
        self.overrun
    }

    /// The next `count` bits, which stay there.
    pub fn peek(&mut self, count: u32) -> (r: u64)
        requires
            old(self).wf(),
            count <= 56,
        ensures
            final(self).wf(),
            final(self).data() == old(self).data(),
            final(self).back() == old(self).back(),
            r == back_value(old(self).data(), old(self).back(), count as nat),
            r < pow2(count as nat),
            forall|k: nat| k <= count ==> #[trigger] final(self).holds(k),
    {
        proof {
            lemma_back_bound(self.data(), self.back(), count as nat);
            lemma2_to64();
        }
        if count == 0 {
            return 0;
        }
        if self.held < count {
            self.pull();
        }
        if self.held >= count {
            let d: u32 = self.held - count;
            proof {
                bits::lemma_peek_div_mod(self.data@, 8 * self.next, d as nat, count as nat);
                bits::lemma_peek_bound(self.data@, 8 * self.next + d, count as nat);
            }
            if d >= 64 {
                return 0;
            }
            shift_right(self.container, d)
        } else {
            let short: u32 = count - self.held;
            proof {
                lemma2_to64_rest();
                if count < 56 {
                    lemma_pow2_strictly_increases(count as nat, 56);
                }
            }
            shift_left(self.container, short)
        }
    }

    /// Whether `count` bits are at hand, or all that are left.
    pub closed spec fn holds(&self, count: nat) -> bool {
        self.held >= count || self.next == 0
    }

    /// Pass over `count` bits.
    pub fn consume(&mut self, count: u32)
        requires
            old(self).wf(),
            count <= 56,
            old(self).holds(count as nat),
        ensures
            final(self).wf(),
            final(self).data() == old(self).data(),
            final(self).back() == back_after(old(self).back(), count as nat),
    {
        if self.held >= count {
            let d: u32 = self.held - count;
            proof {
                bits::lemma_peek_div_mod(self.data@, 8 * self.next, d as nat, count as nat);
                assert(d as nat + count as nat == self.held as nat);
                if d == 64 {
                    lemma2_to64();
                }
            }
            if d < 64 {
                self.container = low_bits(self.container, d);
            }
            self.held = d;
        } else {
            self.held = 0;
            self.container = 0;
            self.overrun = true;
        }
    }

    /// Take the next `count` bits.
    pub fn bits(&mut self, count: u32) -> (r: u64)
        requires
            old(self).wf(),
            count <= 56,
        ensures
            final(self).wf(),
            final(self).data() == old(self).data(),
            final(self).back() == back_after(old(self).back(), count as nat),
            r == back_value(old(self).data(), old(self).back(), count as nat),
            r < pow2(count as nat),
    {
        let value: u64 = self.peek(count);
        self.consume(count);
        value
    }
}

/// The writer that feeds [`BackwardBits`].
///
/// Bits pile up towards the top of the stream and whole bytes drop out from
/// the bottom, so the reader starting at the last byte sees them in the
/// reverse of the order they were added. A closing one bit marks where the
/// final byte's payload stops, which is how the reader finds its starting
/// point.
pub struct BitWriter {
    inner: Forward,
}

impl View for BitWriter {
    type V = Seq<bool>;

    closed spec fn view(&self) -> Seq<bool> {
        self.inner@
    }
}

impl Default for BitWriter {
    fn default() -> (r: Self)
        ensures
            r.wf(),
            r@ == Seq::<bool>::empty(),
    {
        BitWriter::new()
    }
}

impl BitWriter {
    pub closed spec fn wf(&self) -> bool {
        self.inner.wf()
    }

    /// A writer that holds nothing.
    pub fn new() -> (r: Self)
        ensures
            r.wf(),
            r@ == Seq::<bool>::empty(),
    {
        BitWriter { inner: Forward::new() }
    }

    /// Add the low `count` bits of `value`. The reader gets them back from a
    /// single `bits(count)` call, but only after everything added later.
    pub fn add(&mut self, value: u64, count: u32)
        requires
            old(self).wf(),
            count <= 56,
        ensures
            final(self).wf(),
            final(self)@ == old(self)@ + bits::bits_of(value as nat, count as nat),
    {
        let low: u32 = (value % 0x1_0000_0000) as u32;
        let high: u32 = (value / 0x1_0000_0000) as u32;
        proof {
            lemma2_to64();
            lemma2_to64_rest();
        }
        if count <= 32 {
            self.inner.write_bits(low, count);
            proof {
                lemma_low_part(value as nat, count as nat);
            }
        } else {
            self.inner.write_bits(low, 32);
            self.inner.write_bits(high, count - 32);
            proof {
                bits::lemma_bits_of_concat(
                    low as nat,
                    high as nat,
                    32,
                    (count - 32) as nat,
                );
                let w = old(self)@;
                let a = bits::bits_of(low as nat, 32);
                let b = bits::bits_of(high as nat, (count - 32) as nat);
                assert(w + a + b =~= w + (a + b));
            }
        }
    }

    /// Close the stream with its marker bit.
    pub fn finish(self) -> (r: Vec<u8>)
        requires
            self.wf(),
        ensures
            closes(r@, self@),
            r@ == closed(self@),
    {
        let mut inner: Forward = self.inner;
        inner.write_bits(1, 1);
        proof {
            lemma2_to64();
            assert((1nat / pow2(0)) % 2 == 1);
            assert(bits::bits_of(1, 1) =~= seq![true]);
            assert(self@ + seq![true] =~= self@.push(true));
        }
        let r: Vec<u8> = inner.finish();
        proof {
            bitwriter::lemma_bytes_of(r@, self@.push(true));
        }
        r
    }
}

/// High bits do not show in the low ones.
proof fn lemma_low_part(v: nat, n: nat)
    requires
        n <= 32,
    ensures
        bits::bits_of(v % 0x1_0000_0000, n) == bits::bits_of(v, n),
{
    lemma2_to64();
    lemma2_to64_rest();
    let a = bits::bits_of(v % 0x1_0000_0000, n);
    let b = bits::bits_of(v, n);
    let low = v % 0x1_0000_0000;
    let high = v / 0x1_0000_0000;
    bits::lemma_bits_of_concat(low, high, 32, 0);
    assert(v == low + pow2(32) * high);
    let x = bits::bits_of(v, 32);
    let y = bits::bits_of(low, 32);
    assert(x =~= y + bits::bits_of(high, 0));
    assert forall|i: int| 0 <= i < n implies a[i] == b[i] by {
        assert(x[i] == y[i]);
    }
    assert(a =~= b);
}

} // verus!
