//! Bits of byte strings, least significant bit first, and the arithmetic of
//! shifts and masks as division by powers of two.
use vstd::arithmetic::div_mod::*;
use vstd::arithmetic::mul::*;
use vstd::arithmetic::power2::*;
use vstd::bits::*;
use vstd::prelude::*;

verus! {

/// Bit `i` of `data`, counting from the low bit of the first byte. Past the
/// end every bit is clear.
pub open spec fn bit(data: Seq<u8>, i: int) -> bool {
    0 <= i < 8 * data.len() && (data[i / 8] as nat / pow2((i % 8) as nat)) % 2 == 1
}

/// The number that the `n` bits of `data` from bit `p` on spell, the first
/// one the least significant.
pub open spec fn peek(data: Seq<u8>, p: int, n: nat) -> nat
    decreases n,
{
    if n == 0 {
        0
    } else {
        peek(data, p, (n - 1) as nat) + if bit(data, p + n - 1) {
            pow2((n - 1) as nat)
        } else {
            0
        }
    }
}

/// The `n` low bits of `v`, the least significant first.
pub open spec fn bits_of(v: nat, n: nat) -> Seq<bool> {
    Seq::new(n, |k: int| (v / pow2(k as nat)) % 2 == 1)
}

/// All bits of `data`.
pub open spec fn all_bits(data: Seq<u8>) -> Seq<bool> {
    Seq::new(8 * data.len(), |i: int| bit(data, i))
}

/// Whether the bits `w` stand in `data` from bit `p` on.
pub open spec fn has(data: Seq<u8>, p: int, w: Seq<bool>) -> bool {
    &&& 0 <= p
    &&& p + w.len() <= 8 * data.len()
    &&& forall|k: int| 0 <= k < w.len() ==> bit(data, p + k) == #[trigger] w[k]
}

/// The first bit position at or after `p` that starts a byte.
pub open spec fn align8(p: int) -> int {
    (p + 7) / 8 * 8
}

/// The number `n` bits `w` spell, the first one the least significant.
pub open spec fn value_of(w: Seq<bool>) -> nat
    decreases w.len(),
{
    if w.len() == 0 {
        0
    } else {
        value_of(w.drop_last()) + if w.last() {
            pow2((w.len() - 1) as nat)
        } else {
            0
        }
    }
}

pub proof fn lemma_peek_bound(data: Seq<u8>, p: int, n: nat)
    ensures
        peek(data, p, n) < pow2(n),
    decreases n,
{
    if n == 0 {
        lemma2_to64();
    } else {
        lemma_peek_bound(data, p, (n - 1) as nat);
        lemma_pow2_unfold(n);
    }
}

/// Reading `a + b` bits is reading `a` bits and then `b` more above them.
pub proof fn lemma_peek_split(data: Seq<u8>, p: int, a: nat, b: nat)
    ensures
        peek(data, p, a + b) == peek(data, p, a) + pow2(a) * peek(data, p + a, b),
    decreases b,
{
    if b == 0 {
        assert(pow2(a) * 0 == 0);
    } else {
        lemma_peek_split(data, p, a, (b - 1) as nat);
        lemma_pow2_adds(a, (b - 1) as nat);
        let x = peek(data, p + a, (b - 1) as nat);
        let y: nat = if bit(data, p + a + (b - 1)) {
            pow2((b - 1) as nat)
        } else {
            0
        };
        assert(p + a + b - 1 == p + a + (b - 1));
        assert(a + b - 1 == a + (b - 1));
        lemma_mul_is_distributive_add(pow2(a) as int, x as int, y as int);
        assert(pow2(a) * 0 == 0);
        assert(peek(data, p + a, b) == x + y);
    }
}

/// The low bits and the high bits of what was read.
pub proof fn lemma_peek_div_mod(data: Seq<u8>, p: int, a: nat, b: nat)
    ensures
        peek(data, p, a + b) % pow2(a) == peek(data, p, a),
        peek(data, p, a + b) / pow2(a) == peek(data, p + a, b),
{
    lemma_peek_split(data, p, a, b);
    lemma_peek_bound(data, p, a);
    lemma_pow2_pos(a);
    let x = peek(data, p, a + b) as int;
    let d = pow2(a) as int;
    let q = peek(data, p + a, b) as int;
    let r = peek(data, p, a) as int;
    assert(d * q == q * d) by {
        lemma_mul_is_commutative(d, q);
    }
    lemma_fundamental_div_mod_converse(x, d, q, r);
}

/// A whole byte, read from its low bit.
pub proof fn lemma_peek_byte(data: Seq<u8>, i: int)
    requires
        0 <= i < data.len(),
    ensures
        peek(data, 8 * i, 8) == data[i],
{
    let w = bits_of(data[i] as nat, 8);
    assert forall|k: int| 0 <= k < w.len() implies bit(data, 8 * i + k) == #[trigger] w[k] by {
        assert((8 * i + k) / 8 == i);
        assert((8 * i + k) % 8 == k);
    }
    lemma_has_value(data, 8 * i, data[i] as nat, 8);
    lemma2_to64();
}

/// Past the end there is nothing but zeros.
pub proof fn lemma_peek_past_end(data: Seq<u8>, p: int, n: nat)
    requires
        p >= 8 * data.len(),
    ensures
        peek(data, p, n) == 0,
    decreases n,
{
    if n > 0 {
        lemma_peek_past_end(data, p, (n - 1) as nat);
    }
}

/// What stands at `p` is what is read there.
pub proof fn lemma_has_peek(data: Seq<u8>, p: int, w: Seq<bool>)
    requires
        has(data, p, w),
    ensures
        peek(data, p, w.len()) == value_of(w),
    decreases w.len(),
{
    if w.len() > 0 {
        assert forall|k: int| 0 <= k < w.drop_last().len() implies bit(data, p + k)
            == #[trigger] w.drop_last()[k] by {
            assert(w[k] == w.drop_last()[k]);
        }
        lemma_has_peek(data, p, w.drop_last());
        assert(bit(data, p + (w.len() - 1)) == w[w.len() - 1]);
    }
}

pub proof fn lemma_has_concat(data: Seq<u8>, p: int, a: Seq<bool>, b: Seq<bool>)
    ensures
        has(data, p, a + b) <==> has(data, p, a) && has(data, p + a.len(), b),
{
    let w = a + b;
    if has(data, p, w) {
        assert forall|k: int| 0 <= k < a.len() implies bit(data, p + k) == #[trigger] a[k] by {
            assert(w[k] == a[k]);
        }
        assert forall|k: int| 0 <= k < b.len() implies bit(data, p + a.len() + k)
            == #[trigger] b[k] by {
            assert(w[a.len() + k] == b[k]);
            assert(bit(data, p + (a.len() + k)) == w[a.len() + k]);
        }
    }
    if has(data, p, a) && has(data, p + a.len(), b) {
        assert forall|k: int| 0 <= k < w.len() implies bit(data, p + k) == #[trigger] w[k] by {
            if k < a.len() {
                assert(w[k] == a[k]);
            } else {
                assert(w[k] == b[k - a.len()]);
                assert(bit(data, p + a.len() + (k - a.len())) == b[k - a.len()]);
            }
        }
    }
}

/// The low bits of a number spell its remainder.
pub proof fn lemma_value_of_bits_of(v: nat, n: nat)
    ensures
        value_of(bits_of(v, n)) == v % pow2(n),
    decreases n,
{
    lemma_pow2_pos(n);
    if n == 0 {
        lemma2_to64();
        assert(v % 1 == 0);
    } else {
        let m = (n - 1) as nat;
        lemma_value_of_bits_of(v, m);
        assert(bits_of(v, n).drop_last() =~= bits_of(v, m));
        lemma_pow2_unfold(n);
        lemma_pow2_pos(m);
        // v % (2^m * 2) = v % 2^m + 2^m * ((v / 2^m) % 2)
        lemma_mod_breakdown(v as int, pow2(m) as int, 2);
        assert(pow2(m) * 2 == pow2(n));
        assert(pow2(m) * 1 == pow2(m) && pow2(m) * 0 == 0);
    }
}

pub proof fn lemma_has_value(data: Seq<u8>, p: int, v: nat, n: nat)
    requires
        has(data, p, bits_of(v, n)),
    ensures
        peek(data, p, n) == v % pow2(n),
{
    lemma_has_peek(data, p, bits_of(v, n));
    lemma_value_of_bits_of(v, n);
}

/// The bits of a number made of a low part and a high part.
pub proof fn lemma_bits_of_concat(a: nat, b: nat, m: nat, n: nat)
    requires
        a < pow2(m),
    ensures
        bits_of(a + pow2(m) * b, m + n) == bits_of(a, m) + bits_of(b, n),
{
    let v = a + pow2(m) * b;
    assert forall|k: int| 0 <= k < m + n implies bits_of(v, m + n)[k] == (bits_of(a, m) + bits_of(
        b,
        n,
    ))[k] by {
        lemma_pow2_pos(m);
        lemma_pow2_pos(k as nat);
        if k < m {
            // 2^m = 2^(k+1) * 2^(m-k-1), an even multiple of 2^k
            let c = (m - k - 1) as nat;
            lemma_pow2_adds(k as nat, (m - k) as nat);
            lemma_pow2_unfold((m - k) as nat);
            let d = pow2(k as nat) as int;
            let e = pow2(c) * b;
            assert(pow2(m) * b == d * (2 * e)) by (nonlinear_arith)
                requires
                    pow2(m) == d * (2 * pow2(c)),
                    e == pow2(c) * b,
            ;
            lemma_add_multiple_div(a as int, (2 * e) as int, d);
            assert(v as int / d == a as int / d + 2 * e);
            assert((a as int / d + 2 * e) % 2 == (a as int / d) % 2);
        } else {
            let j = (k - m) as nat;
            lemma_pow2_adds(m, j);
            lemma_pow2_pos(j);
            lemma_div_denominator(v as int, pow2(m) as int, pow2(j) as int);
            assert(v as int / pow2(m) as int == b) by {
                lemma_mul_is_commutative(pow2(m) as int, b as int);
                lemma_fundamental_div_mod_converse(v as int, pow2(m) as int, b as int, a as int);
            }
        }
    }
    assert(bits_of(v, m + n) =~= bits_of(a, m) + bits_of(b, n));
}

pub proof fn lemma_add_multiple_div(a: int, q: int, d: int)
    requires
        0 < d,
        0 <= a,
    ensures
        (a + d * q) / d == a / d + q,
{
    lemma_fundamental_div_mod(a, d);
    assert(a + d * q == d * (a / d + q) + a % d) by (nonlinear_arith)
        requires
            a == d * (a / d) + a % d,
    ;
    lemma_mul_is_commutative(d, a / d + q);
    lemma_fundamental_div_mod_converse(a + d * q, d, a / d + q, a % d);
}

/// The bits of a byte string with one more byte.
pub proof fn lemma_all_bits_push(data: Seq<u8>, b: u8)
    ensures
        all_bits(data.push(b)) == all_bits(data) + bits_of(b as nat, 8),
{
    let x = all_bits(data.push(b));
    let y = all_bits(data) + bits_of(b as nat, 8);
    assert forall|i: int| 0 <= i < x.len() implies x[i] == y[i] by {
        if i < 8 * data.len() {
            assert(data.push(b)[i / 8] == data[i / 8]);
        } else {
            assert(i / 8 == data.len());
            assert(i % 8 == i - 8 * data.len());
        }
    }
    assert(x =~= y);
}

pub proof fn lemma_all_bits_concat(a: Seq<u8>, b: Seq<u8>)
    ensures
        all_bits(a + b) == all_bits(a) + all_bits(b),
{
    let x = all_bits(a + b);
    let y = all_bits(a) + all_bits(b);
    assert forall|i: int| 0 <= i < x.len() implies x[i] == y[i] by {
        if i < 8 * a.len() {
            assert((a + b)[i / 8] == a[i / 8]);
        } else {
            let j = i - 8 * a.len();
            assert(i / 8 == a.len() + j / 8);
            assert(i % 8 == j % 8);
            assert((a + b)[i / 8] == b[j / 8]);
        }
    }
    assert(x =~= y);
}

/// A byte string holds its own bits.
pub proof fn lemma_has_all_bits(data: Seq<u8>)
    ensures
        has(data, 0, all_bits(data)),
{
    assert forall|k: int| 0 <= k < all_bits(data).len() implies bit(data, 0 + k) == #[trigger] all_bits(
        data,
    )[k] by {}
}

/// `x` divided by two to the `n`.
pub fn shift_right(x: u64, n: u32) -> (r: u64)
    requires
        n < 64,
    ensures
        r == x as nat / pow2(n as nat),
{
    proof {
        lemma_u64_shr_is_div(x, n as u64);
    }
    x >> n
}

/// `x` times two to the `n`, where that fits.
pub fn shift_left(x: u64, n: u32) -> (r: u64)
    requires
        n < 64,
        x * pow2(n as nat) <= u64::MAX,
    ensures
        r == x * pow2(n as nat),
{
    proof {
        lemma_u64_shl_is_mul(x, n as u64);
    }
    x << n
}

/// The `n` low bits of `x`.
pub fn low_bits(x: u64, n: u32) -> (r: u64)
    requires
        n < 64,
    ensures
        r == x as nat % pow2(n as nat),
        r < pow2(n as nat),
{
    proof {
        lemma_u64_low_bits_mask_is_mod(x, n as nat);
        lemma_pow2_pos(n as nat);
        lemma_pow2_strictly_increases(n as nat, 64);
        lemma2_to64_rest();
        lemma_u64_shl_is_mul(1, n as u64);
        assert(pow2(n as nat) <= u64::MAX);
    }
    x & ((1u64 << n) - 1)
}

/// Two to the `n`.
pub fn power_of_two(n: u32) -> (r: u64)
    requires
        n < 64,
    ensures
        r == pow2(n as nat),
{
    proof {
        lemma_pow2_strictly_increases(n as nat, 64);
        lemma2_to64_rest();
    }
    shift_left(1, n)
}

/// The exponent of the largest power of two that is no larger than `n`.
pub open spec fn log2(n: nat) -> nat
    decreases n,
{
    if n <= 1 {
        0
    } else {
        1 + log2(n / 2)
    }
}

pub proof fn lemma_log2(n: nat)
    requires
        n > 0,
    ensures
        pow2(log2(n)) <= n < pow2(log2(n) + 1),
    decreases n,
{
    lemma2_to64();
    if n > 1 {
        lemma_log2(n / 2);
        lemma_pow2_unfold(log2(n));
        lemma_pow2_unfold(log2(n) + 1);
    }
}

/// There is only one such exponent.
pub proof fn lemma_log2_unique(n: nat, k: nat)
    requires
        pow2(k) <= n < pow2(k + 1),
    ensures
        log2(n) == k,
{
    lemma_pow2_pos(k);
    lemma_log2(n);
    let l = log2(n);
    if l < k {
        if l + 1 < k {
            lemma_pow2_strictly_increases(l + 1, k);
        }
    } else if k < l {
        if k + 1 < l {
            lemma_pow2_strictly_increases(k + 1, l);
        }
    }
}

/// The exponent of the largest power of two that is no larger than `n`.
pub fn floor_log2(n: u32) -> (r: u32)
    ensures
        r == log2(n as nat),
        r < 32,
{
    let mut m: u32 = n;
    let mut r: u32 = 0;
    proof {
        lemma2_to64();
        if n > 0 {
            lemma_log2(n as nat);
            if log2(n as nat) >= 32 {
                if log2(n as nat) > 32 {
                    lemma_pow2_strictly_increases(32, log2(n as nat));
                }
            }
        }
    }
    while m > 1
        invariant
            log2(n as nat) == r + log2(m as nat),
            log2(n as nat) < 32,
        decreases m,
    {
        m = m / 2;
        r = r + 1;
    }
    r
}

} // verus!
