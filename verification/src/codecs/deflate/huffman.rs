//! Canonical prefix codes, read least significant bit first.
use crate::codecs::lengths;
use crate::utils::bits;
use crate::utils::error::{Error, Result};
use vstd::arithmetic::div_mod::*;
use vstd::arithmetic::power2::*;
use vstd::prelude::*;

verus! {

/// How many bits the direct table of a [`Decoder`] looks at.
pub const FAST_BITS: u32 = 10;

/// The longest code word.
pub const MAX_BITS: usize = 15;

/// The symbols below this fit into an entry of the table of short words.
const SYMBOL_SPAN: u16 = 0x1000;

/// The number that the `n` low bits of `x` spell when the lowest of them is
/// taken as the most significant: the code word of length `n` that `x`
/// starts with.
pub open spec fn word(x: nat, n: nat) -> nat
    decreases n,
{
    if n == 0 {
        0
    } else {
        2 * word(x, (n - 1) as nat) + (x / pow2((n - 1) as nat)) % 2
    }
}

/// The first code word of length `l` of the canonical code with these
/// lengths.
pub open spec fn first_code(lens: Seq<u8>, l: int) -> nat {
    2 * lengths::kraft(lens, l - 1)
}

/// The canonical code word of a symbol: words of one length go to symbols in
/// order.
pub open spec fn code_of(lens: Seq<u8>, s: int) -> nat {
    first_code(lens, lens[s] as int) + lengths::cnt(lens.take(s), lens[s] as int)
}

/// Whether the bits `x` start with the code word of the symbol `s`.
pub open spec fn starts_with(lens: Seq<u8>, x: nat, s: int) -> bool {
    0 <= s < lens.len() && 0 < lens[s] <= MAX_BITS && word(x, lens[s] as nat) == code_of(lens, s)
}

/// The symbol whose code word the bits `x` start with, and its length.
pub open spec fn decoded(lens: Seq<u8>, x: nat) -> Option<(nat, nat)> {
    if exists|s: int| starts_with(lens, x, s) {
        let s = choose|s: int| starts_with(lens, x, s);
        Some((s as nat, lens[s] as nat))
    } else {
        None
    }
}

/// Whether the lengths make a code: a complete one, or one of a single word.
pub open spec fn valid(lens: Seq<u8>) -> bool {
    &&& forall|i: int| 0 <= i < lens.len() ==> #[trigger] lens[i] <= MAX_BITS
    &&& lengths::kraft(lens, MAX_BITS as int) == pow2(MAX_BITS as nat) || codes_in(lens) == 1
}

/// How many symbols have a code word.
pub open spec fn codes_in(lens: Seq<u8>) -> nat
    decreases lens.len(),
{
    if lens.len() == 0 {
        0
    } else {
        codes_in(lens.drop_last()) + if lens.last() > 0 {
            1nat
        } else {
            0
        }
    }
}

pub proof fn lemma_word_bound(x: nat, n: nat)
    ensures
        word(x, n) < pow2(n),
    decreases n,
{
    lemma2_to64();
    if n > 0 {
        lemma_word_bound(x, (n - 1) as nat);
        lemma_pow2_unfold(n);
    }
}

/// A code word depends on its own bits only.
pub proof fn lemma_word_low(x: nat, y: nat, n: nat, m: nat)
    requires
        n <= m,
        x % pow2(m) == y % pow2(m),
    ensures
        word(x, n) == word(y, n),
    decreases n,
{
    if n > 0 {
        lemma_word_low(x, y, (n - 1) as nat, m);
        lemma_bit_low(x, (n - 1) as nat, m);
        lemma_bit_low(y, (n - 1) as nat, m);
    }
}

/// Bit `k` of `x` is bit `k` of the `m` low bits of `x`.
proof fn lemma_bit_low(x: nat, k: nat, m: nat)
    requires
        k < m,
    ensures
        (x / pow2(k)) % 2 == ((x % pow2(m)) / pow2(k)) % 2,
{
    let d = pow2(k) as int;
    let e = pow2((m - k - 1) as nat) as int;
    lemma_pow2_pos(k);
    lemma_pow2_pos(m);
    lemma_pow2_adds(k, (m - k) as nat);
    lemma_pow2_unfold((m - k) as nat);
    let r = (x % pow2(m)) as int;
    let q = (x / pow2(m)) as int;
    lemma_fundamental_div_mod(x as int, pow2(m) as int);
    assert(pow2(m) as int * q == d * (2 * (e * q))) by (nonlinear_arith)
        requires
            pow2(m) == d * (2 * e),
    ;
    bits::lemma_add_multiple_div(r, 2 * (e * q), d);
    assert((r / d + 2 * (e * q)) % 2 == (r / d) % 2);
}

/// The word of `v` peeled from the other end.
proof fn lemma_word_peel(v: nat, n: nat)
    requires
        n > 0,
    ensures
        word(v, n) == word(v / 2, (n - 1) as nat) + pow2((n - 1) as nat) * (v % 2),
    decreases n,
{
    lemma2_to64();
    let m = (n - 1) as nat;
    if n == 1 {
        assert(word(v, 0) == 0);
        assert(v / 1 == v);
        assert(1 * (v % 2) == v % 2);
    } else {
        let k = (m - 1) as nat;
        lemma_word_peel(v, m);
        lemma_pow2_unfold(m);
        lemma_pow2_pos(k);
        lemma_div_denominator(v as int, 2, pow2(k) as int);
        assert(pow2(m) * (v % 2) == 2 * (pow2(k) * (v % 2))) by (nonlinear_arith)
            requires
                pow2(m) == 2 * pow2(k),
        ;
    }
}

/// Reversing twice gives back the code word.
pub proof fn lemma_word_involution(v: nat, n: nat)
    requires
        v < pow2(n),
    ensures
        word(word(v, n), n) == v,
    decreases n,
{
    lemma2_to64();
    if n > 0 {
        let m = (n - 1) as nat;
        let x = word(v, n);
        let y = word(v / 2, m);
        lemma_word_peel(v, n);
        lemma_word_bound(v / 2, m);
        lemma_pow2_unfold(n);
        lemma_pow2_pos(m);
        lemma_word_involution(v / 2, m);
        vstd::arithmetic::mul::lemma_mul_is_commutative(pow2(m) as int, (v % 2) as int);
        lemma_fundamental_div_mod_converse(x as int, pow2(m) as int, (v % 2) as int, y as int);
        lemma_small_mod(y, pow2(m));
        lemma_word_low(x, y, m, m);
    }
}

/// How many symbols have a code word shorter than `l`.
spec fn below(s: Seq<u8>, l: int) -> nat
    decreases s.len(),
{
    if s.len() == 0 {
        0
    } else {
        below(s.drop_last(), l) + if 0 < s.last() as int && (s.last() as int) < l {
            1nat
        } else {
            0
        }
    }
}

proof fn lemma_below_step(s: Seq<u8>, l: int)
    requires
        l > 0,
    ensures
        below(s, l + 1) == below(s, l) + lengths::cnt(s, l),
    decreases s.len(),
{
    if s.len() > 0 {
        lemma_below_step(s.drop_last(), l);
    }
}

proof fn lemma_below_monotone(s: Seq<u8>, l: int, m: int)
    requires
        0 < l < m,
    ensures
        below(s, l) + lengths::cnt(s, l) <= below(s, m),
    decreases m,
{
    lemma_below_step(s, l);
    if l + 1 < m {
        lemma_below_monotone(s, l, m - 1);
        lemma_below_step(s, m - 1);
    }
}

proof fn lemma_below_one(s: Seq<u8>)
    ensures
        below(s, 1) == 0,
    decreases s.len(),
{
    if s.len() > 0 {
        lemma_below_one(s.drop_last());
    }
}

proof fn lemma_below_all(s: Seq<u8>)
    requires
        forall|i: int| 0 <= i < s.len() ==> #[trigger] s[i] <= MAX_BITS,
    ensures
        below(s, 16) == codes_in(s),
        codes_in(s) <= s.len(),
    decreases s.len(),
{
    if s.len() > 0 {
        assert(s[s.len() - 1] <= MAX_BITS);
        assert forall|i: int| 0 <= i < s.drop_last().len() implies #[trigger] s.drop_last()[i]
            <= MAX_BITS by {
            assert(s[i] <= MAX_BITS);
        }
        lemma_below_all(s.drop_last());
    }
}

pub proof fn lemma_cnt_take(s: Seq<u8>, i: int, l: int)
    requires
        0 <= i < s.len(),
    ensures
        lengths::cnt(s.take(i + 1), l) == lengths::cnt(s.take(i), l) + if s[i] as int == l {
            1nat
        } else {
            0
        },
{
    assert(s.take(i + 1).drop_last() =~= s.take(i));
}

proof fn lemma_cnt_monotone(s: Seq<u8>, i: int, j: int, l: int)
    requires
        0 <= i <= j <= s.len(),
    ensures
        lengths::cnt(s.take(i), l) <= lengths::cnt(s.take(j), l),
        lengths::cnt(s.take(j), l) <= j,
        lengths::cnt(s.take(j), l) <= lengths::cnt(s, l),
    decreases j - i,
{
    if i < j {
        lemma_cnt_take(s, j - 1, l);
        lemma_cnt_monotone(s, i, j - 1, l);
    }
    lemma_cnt_le(s.take(j), l);
    lemma_cnt_prefix(s, j, l);
}

/// No more symbols have a length than there are.
pub proof fn lemma_cnt_bounds(s: Seq<u8>, i: int, l: int)
    requires
        0 <= i <= s.len(),
    ensures
        lengths::cnt(s.take(i), l) <= i,
{
    lemma_cnt_le(s.take(i), l);
}

proof fn lemma_cnt_le(s: Seq<u8>, l: int)
    ensures
        lengths::cnt(s, l) <= s.len(),
    decreases s.len(),
{
    if s.len() > 0 {
        lemma_cnt_le(s.drop_last(), l);
    }
}

proof fn lemma_cnt_prefix(s: Seq<u8>, j: int, l: int)
    requires
        0 <= j <= s.len(),
    ensures
        lengths::cnt(s.take(j), l) <= lengths::cnt(s, l),
    decreases s.len(),
{
    if j == s.len() {
        assert(s.take(j) =~= s);
    } else {
        lemma_cnt_prefix(s.drop_last(), j, l);
        assert(s.drop_last().take(j) =~= s.take(j));
    }
}

/// The symbol with `k` symbols of the same length before it.
proof fn lemma_nth(s: Seq<u8>, l: int, k: int) -> (i: int)
    requires
        0 <= k < lengths::cnt(s, l),
    ensures
        0 <= i < s.len(),
        s[i] == l,
        lengths::cnt(s.take(i), l) == k,
    decreases s.len(),
{
    let n = s.len() as int;
    if s.last() as int == l && lengths::cnt(s.drop_last(), l) == k {
        assert(s.take(n - 1) =~= s.drop_last());
        n - 1
    } else {
        let i = lemma_nth(s.drop_last(), l, k);
        assert(s.drop_last().take(i) =~= s.take(i));
        i
    }
}

/// Symbols of one length have different ranks.
proof fn lemma_rank_distinct(s: Seq<u8>, i: int, j: int)
    requires
        0 <= i < j < s.len(),
        s[i] == s[j],
    ensures
        lengths::cnt(s.take(i), s[i] as int) < lengths::cnt(s.take(j), s[j] as int),
{
    lemma_cnt_take(s, i, s[i] as int);
    lemma_cnt_monotone(s, i + 1, j, s[i] as int);
}

proof fn lemma_rank_below_count(s: Seq<u8>, i: int)
    requires
        0 <= i < s.len(),
    ensures
        lengths::cnt(s.take(i), s[i] as int) < lengths::cnt(s, s[i] as int),
{
    lemma_cnt_take(s, i, s[i] as int);
    lemma_cnt_prefix(s, i + 1, s[i] as int);
}

/// A code word lies below the sum of its length.
proof fn lemma_code_below_kraft(lens: Seq<u8>, s: int)
    requires
        0 <= s < lens.len(),
        lens[s] > 0,
    ensures
        first_code(lens, lens[s] as int) <= code_of(lens, s) < lengths::kraft(
            lens,
            lens[s] as int,
        ),
{
    lemma_rank_below_count(lens, s);
    lengths::lemma_kraft_step(lens, lens[s] as int);
}

/// Once the bits lie below the sum of one length they lie below the code
/// words of every greater length.
proof fn lemma_word_falls_behind(lens: Seq<u8>, x: nat, l: int, m: int)
    requires
        0 < l < m,
        word(x, l as nat) < lengths::kraft(lens, l),
    ensures
        word(x, m as nat) < first_code(lens, m),
    decreases m,
{
    if l + 1 < m {
        lemma_word_falls_behind(lens, x, l, m - 1);
        lengths::lemma_kraft_step(lens, m - 1);
    }
}

/// No bit string starts with two code words.
pub proof fn lemma_prefix_free(lens: Seq<u8>, x: nat, s: int, t: int)
    requires
        starts_with(lens, x, s),
        starts_with(lens, x, t),
    ensures
        s == t,
{
    lemma_code_below_kraft(lens, s);
    lemma_code_below_kraft(lens, t);
    if lens[s] < lens[t] {
        lemma_word_falls_behind(lens, x, lens[s] as int, lens[t] as int);
    } else if lens[t] < lens[s] {
        lemma_word_falls_behind(lens, x, lens[t] as int, lens[s] as int);
    } else if s < t {
        lemma_rank_distinct(lens, s, t);
    } else if t < s {
        lemma_rank_distinct(lens, t, s);
    }
}

/// What starts with a code word decodes to its symbol.
pub proof fn lemma_decoded(lens: Seq<u8>, x: nat, s: int)
    requires
        starts_with(lens, x, s),
    ensures
        decoded(lens, x) == Some((s as nat, lens[s] as nat)),
{
    let t = choose|t: int| starts_with(lens, x, t);
    lemma_prefix_free(lens, x, s, t);
}

/// A decoded symbol has a code word.
pub proof fn lemma_decoded_range(lens: Seq<u8>, x: nat)
    ensures
        decoded(lens, x) matches Some((s, l)) ==> s < lens.len() && 1 <= l <= MAX_BITS
            && lens[s as int] == l,
{
}

/// Decoding looks at no more than the longest code word.
pub proof fn lemma_decoded_low(lens: Seq<u8>, x: nat, y: nat)
    requires
        x % pow2(15) == y % pow2(15),
    ensures
        decoded(lens, x) == decoded(lens, y),
{
    assert forall|s: int| starts_with(lens, x, s) == starts_with(lens, y, s) by {
        if 0 <= s < lens.len() && 0 < lens[s] <= MAX_BITS {
            lemma_word_low(x, y, lens[s] as nat, 15);
        }
    }
    if exists|s: int| starts_with(lens, x, s) {
        let s = choose|s: int| starts_with(lens, x, s);
        assert(starts_with(lens, y, s));
        lemma_decoded(lens, x, s);
        lemma_decoded(lens, y, s);
    } else {
        assert(forall|s: int| !starts_with(lens, y, s));
    }
}

/// In a code that is not over full every code word fits its length.
pub proof fn lemma_code_fits(lens: Seq<u8>, s: int)
    requires
        0 <= s < lens.len(),
        0 < lens[s] <= MAX_BITS,
        lengths::kraft(lens, MAX_BITS as int) <= pow2(MAX_BITS as nat),
    ensures
        code_of(lens, s) < pow2(lens[s] as nat),
{
    lemma_code_below_kraft(lens, s);
    lengths::lemma_kraft_bound(lens, lens[s] as int, MAX_BITS as int);
}

proof fn lemma_kraft_codes(s: Seq<u8>, l: int)
    requires
        0 <= l,
    ensures
        lengths::kraft(s, l) <= codes_in(s) * pow2(l as nat),
    decreases s.len(),
{
    if s.len() == 0 {
        assert(0 * pow2(l as nat) == 0);
    } else {
        lemma_kraft_codes(s.drop_last(), l);
        let c = codes_in(s.drop_last());
        let x = s.last() as int;
        if 0 < x <= l {
            lemma_pow2_strictly_increases((l - x) as nat, l as nat);
        }
        assert((c + 1) * pow2(l as nat) == c * pow2(l as nat) + pow2(l as nat)) by (nonlinear_arith);
    }
}

/// A valid code is not over full.
pub proof fn lemma_valid_kraft(s: Seq<u8>)
    requires
        valid(s),
    ensures
        lengths::kraft(s, MAX_BITS as int) <= pow2(MAX_BITS as nat),
{
    if codes_in(s) == 1 {
        lemma_kraft_codes(s, MAX_BITS as int);
        assert(1 * pow2(MAX_BITS as nat) == pow2(MAX_BITS as nat));
    }
}

/// The place of a symbol when symbols are ordered by length and then by
/// number.
spec fn slot(lens: Seq<u8>, s: int) -> int {
    (below(lens, lens[s] as int) + lengths::cnt(lens.take(s), lens[s] as int)) as int
}

proof fn lemma_slots(lens: Seq<u8>, s: int, t: int)
    requires
        0 <= s < t < lens.len(),
        0 < lens[s] <= MAX_BITS,
        0 < lens[t] <= MAX_BITS,
    ensures
        slot(lens, s) != slot(lens, t),
{
    lemma_rank_below_count(lens, s);
    lemma_rank_below_count(lens, t);
    if lens[s] < lens[t] {
        lemma_below_monotone(lens, lens[s] as int, lens[t] as int);
    } else if lens[t] < lens[s] {
        lemma_below_monotone(lens, lens[t] as int, lens[s] as int);
    } else {
        lemma_rank_distinct(lens, s, t);
    }
}

proof fn lemma_slot_range(lens: Seq<u8>, s: int)
    requires
        0 <= s < lens.len(),
        0 < lens[s] <= MAX_BITS,
        forall|i: int| 0 <= i < lens.len() ==> #[trigger] lens[i] <= MAX_BITS,
    ensures
        0 <= slot(lens, s) < codes_in(lens),
{
    lemma_rank_below_count(lens, s);
    lemma_below_monotone(lens, lens[s] as int, 16);
    lemma_below_all(lens);
}

/// An entry of the direct table: the length above, the symbol below.
spec fn entry_ok(lens: Seq<u8>, x: nat, e: u16) -> bool {
    e != 0 ==> (e / SYMBOL_SPAN) as int == lens[(e % SYMBOL_SPAN) as int] && (e / SYMBOL_SPAN)
        <= FAST_BITS && starts_with(lens, x, (e % SYMBOL_SPAN) as int)
}

/// A canonical prefix code, ready to decode with.
pub struct Decoder {
    fast: Vec<u16>,
    counts: [u16; 16],
    symbols: Vec<u16>,
    lens: Ghost<Seq<u8>>,
}

impl View for Decoder {
    type V = Seq<u8>;

    /// The code lengths it was made from.
    closed spec fn view(&self) -> Seq<u8> {
        self.lens@
    }
}

impl Decoder {
    /// The tables describe the code.
    pub closed spec fn wf(&self) -> bool {
        let lens = self.lens@;
        &&& valid(lens)
        &&& lens.len() <= 0xffff
        &&& forall|l: int|
            1 <= l <= MAX_BITS ==> #[trigger] self.counts@[l] == lengths::cnt(lens, l)
        &&& self.symbols@.len() == codes_in(lens)
        &&& forall|s: int|
            0 <= s < lens.len() && lens[s] > 0 ==> self.symbols@[#[trigger] slot(lens, s)] == s
        &&& self.fast@.len() == 1024
        &&& forall|x: int| 0 <= x < 1024 ==> #[trigger] entry_ok(lens, x as nat, self.fast@[x])
    }

    /// A well formed decoder decodes a valid code.
    pub proof fn lemma_wf(&self)
        requires
            self.wf(),
        ensures
            valid(self@),
    {
    }

    /// The decoder of the canonical code with these lengths. It fails exactly
    /// where they make no code.
    pub fn new(lengths: &[u8]) -> (r: Result<Self>)
        requires
            lengths@.len() <= 0xffff,
        ensures
            r is Ok <==> valid(lengths@),
            r matches Ok(d) ==> d.wf() && d@ == lengths@,
            r matches Err(e) ==> e == Error::Malformed,
    {
        let ghost lens = lengths@;
        let mut counts: [u16; 16] = [0u16; 16];
        let mut i: usize = 0;
        while i < lengths.len()
            invariant
                i <= lengths.len() <= 0xffff,
                lens == lengths@,
                forall|k: int| 0 <= k < i ==> #[trigger] lens[k] <= MAX_BITS,
                forall|l: int|
                    0 <= l < 16 ==> #[trigger] counts@[l] == lengths::cnt(lens.take(i as int), l),
            decreases lengths.len() - i,
        {
            let l: usize = lengths[i] as usize;
            if l > MAX_BITS {
                assert(lens[i as int] > MAX_BITS);
                return Err(Error::Malformed);
            }
            proof {
                lemma_cnt_le(lens.take(i as int), l as int);
                assert forall|m: int| 0 <= m < 16 implies lengths::cnt(lens.take(i + 1), m)
                    == #[trigger] lengths::cnt(lens.take(i as int), m) + if lens[i as int] as int
                    == m {
                    1nat
                } else {
                    0
                } by {
                    lemma_cnt_take(lens, i as int, m);
                }
            }
            counts[l] = counts[l] + 1;
            i = i + 1;
        }
        assert(lens.take(i as int) =~= lens);
        counts[0] = 0;
        let mut left: i32 = 1;
        let mut total: u16 = 0;
        let mut offsets: [u16; 17] = [0u16; 17];
        proof {
            lemma2_to64();
            lengths::lemma_kraft_zero(lens);
            lemma_below_one(lens);
            lemma_below_all(lens);
        }
        let mut l: usize = 1;
        while l <= MAX_BITS
            invariant
                1 <= l <= 16,
                lens == lengths@,
                lens.len() <= 0xffff,
                forall|k: int| 0 <= k < lens.len() ==> #[trigger] lens[k] <= MAX_BITS,
                forall|k: int| 1 <= k < 16 ==> #[trigger] counts@[k] == lengths::cnt(lens, k),
                left == pow2((l - 1) as nat) - lengths::kraft(lens, l - 1),
                0 <= left <= 32768,
                below(lens, 16) <= 0xffff,
                offsets@[l as int] == below(lens, l as int),
                forall|k: int| 1 <= k <= l ==> #[trigger] offsets@[k] == below(lens, k),
                l <= 15 ==> left <= 16384,
            decreases 16 - l,
        {
            proof {
                lengths::lemma_kraft_step(lens, l as int);
                lemma_pow2_unfold(l as nat);
                lemma_cnt_le(lens, l as int);
                lemma_below_step(lens, l as int);
                if l < 15 {
                    lemma_below_monotone(lens, (l + 1) as int, 16);
                    lemma_pow2_strictly_increases(l as nat, 15);
                }
                lemma2_to64();
            }
            left = 2 * left - counts[l] as i32;
            if left < 0 {
                proof {
                    if valid(lens) {
                        lemma_valid_kraft(lens);
                        lengths::lemma_kraft_bound(lens, l as int, MAX_BITS as int);
                    }
                }
                return Err(Error::Malformed);
            }
            offsets[l + 1] = offsets[l] + counts[l];
            l = l + 1;
        }
        total = offsets[16];
        if left > 0 && total != 1 {
            return Err(Error::Malformed);
        }
        assert(valid(lens));
        let mut symbols: Vec<u16> = vec![0u16; total as usize];
        let mut next: [u16; 17] = offsets;
        let mut i: usize = 0;
        while i < lengths.len()
            invariant
                i <= lengths.len() <= 0xffff,
                lens == lengths@,
                valid(lens),
                symbols@.len() == codes_in(lens),
                codes_in(lens) <= 0xffff,
                forall|l: int|
                    1 <= l <= 15 ==> #[trigger] next@[l] == below(lens, l) + lengths::cnt(
                        lens.take(i as int),
                        l,
                    ),
                forall|s: int|
                    0 <= s < i && lens[s] > 0 ==> symbols@[#[trigger] slot(lens, s)] == s,
            decreases lengths.len() - i,
        {
            let l: usize = lengths[i] as usize;
            assert(lens[i as int] <= MAX_BITS);
            proof {
                assert forall|m: int| 0 <= m < 16 implies lengths::cnt(lens.take(i + 1), m)
                    == #[trigger] lengths::cnt(lens.take(i as int), m) + if lens[i as int] as int
                    == m {
                    1nat
                } else {
                    0
                } by {
                    lemma_cnt_take(lens, i as int, m);
                }
            }
            if l != 0 {
                proof {
                    lemma_slot_range(lens, i as int);
                    assert(next@[l as int] == slot(lens, i as int));
                    assert forall|s: int| 0 <= s < i && lens[s] > 0 implies slot(lens, s) != slot(
                        lens,
                        i as int,
                    ) && 0 <= #[trigger] slot(lens, s) < codes_in(lens) by {
                        assert(lens[s] <= MAX_BITS);
                        lemma_slots(lens, s, i as int);
                        lemma_slot_range(lens, s);
                    }
                }
                symbols[next[l] as usize] = i as u16;
                next[l] = next[l] + 1;
            }
            i = i + 1;
        }
        let fast: Vec<u16> = Self::build_fast(&counts, &symbols, Ghost(lens));
        let ghost g = lens;
        Ok(Decoder { fast, counts, symbols, lens: Ghost(g) })
    }

    fn build_fast(counts: &[u16; 16], symbols: &Vec<u16>, Ghost(lens): Ghost<Seq<u8>>) -> (fast:
        Vec<u16>)
        requires
            valid(lens),
            lens.len() <= 0xffff,
            forall|l: int| 1 <= l <= MAX_BITS ==> #[trigger] counts@[l] == lengths::cnt(lens, l),
            symbols@.len() == codes_in(lens),
            forall|s: int|
                0 <= s < lens.len() && lens[s] > 0 ==> symbols@[#[trigger] slot(lens, s)] == s,
        ensures
            fast@.len() == 1024,
            forall|x: int| 0 <= x < 1024 ==> #[trigger] entry_ok(lens, x as nat, fast@[x]),
    {
        let mut fast: Vec<u16> = vec![0u16; 1024];
        let mut code: u32 = 0;
        let mut index: usize = 0;
        proof {
            lengths::lemma_kraft_zero(lens);
            lemma_below_one(lens);
            lemma_below_all(lens);
            lemma_valid_kraft(lens);
        }
        let mut len: u32 = 1;
        while len <= FAST_BITS
            invariant
                1 <= len <= FAST_BITS + 1,
                valid(lens),
                lengths::kraft(lens, MAX_BITS as int) <= pow2(MAX_BITS as nat),
                lens.len() <= 0xffff,
                forall|l: int|
                    1 <= l <= MAX_BITS ==> #[trigger] counts@[l] == lengths::cnt(lens, l),
                symbols@.len() == codes_in(lens),
                codes_in(lens) == below(lens, 16),
                codes_in(lens) <= 0xffff,
                forall|s: int|
                    0 <= s < lens.len() && lens[s] > 0 ==> symbols@[#[trigger] slot(lens, s)] == s,
                code == first_code(lens, len as int),
                index == below(lens, len as int),
                fast@.len() == 1024,
                forall|x: int| 0 <= x < 1024 ==> #[trigger] entry_ok(lens, x as nat, fast@[x]),
            decreases FAST_BITS + 1 - len,
        {
            let count: usize = counts[len as usize] as usize;
            proof {
                lengths::lemma_kraft_step(lens, len as int);
                lengths::lemma_kraft_bound(lens, len as int, MAX_BITS as int);
                lemma_below_step(lens, len as int);
                lemma_below_monotone(lens, len as int, 16);
                lemma2_to64();
                if len < 15 {
                    lemma_pow2_strictly_increases(len as nat, 15);
                }
            }
            let stride: usize = bits::power_of_two(len) as usize;
            let mut i: usize = 0;
            while i < count
                invariant
                    i <= count,
                    1 <= len <= FAST_BITS,
                    stride == pow2(len as nat),
                    2 <= stride <= 32768,
                    count == lengths::cnt(lens, len as int),
                    code == first_code(lens, len as int),
                    code + count == lengths::kraft(lens, len as int),
                    lengths::kraft(lens, len as int) <= pow2(len as nat),
                    lens.len() <= 0xffff,
                    symbols@.len() >= index + count,
                    index + count <= 0xffff,
                    index == below(lens, len as int),
                    forall|s: int|
                        0 <= s < lens.len() && lens[s] > 0 ==> symbols@[#[trigger] slot(lens, s)]
                            == s,
                    fast@.len() == 1024,
                    forall|x: int| 0 <= x < 1024 ==> #[trigger] entry_ok(lens, x as nat, fast@[x]),
                decreases count - i,
            {
                let sym: u16 = symbols[index + i];
                let ghost s = 0int;
                proof {
                    s = lemma_nth(lens, len as int, i as int);
                    assert(slot(lens, s) == index + i);
                    assert(sym == s);
                    assert(code_of(lens, s) == code + i);
                }
                if sym < SYMBOL_SPAN {
                    let reversed: u32 = reverse_bits(code + i as u32, len);
                    let e: u16 = len as u16 * SYMBOL_SPAN + sym;
                    assert(e / SYMBOL_SPAN == len && e % SYMBOL_SPAN == sym && e != 0);
                    proof {
                        lemma_word_involution((code + i) as nat, len as nat);
                        lemma_word_bound((code + i) as nat, len as nat);
                        lemma_small_mod(reversed as nat, pow2(len as nat));
                    }
                    let mut at: usize = reversed as usize;
                    while at < 1024
                        invariant
                            1 <= len <= FAST_BITS,
                            stride == pow2(len as nat),
                            2 <= stride <= 32768,
                            at <= 1024 + 32768,
                            at as nat % pow2(len as nat) == reversed,
                            reversed < pow2(len as nat),
                            0 <= s < lens.len(),
                            lens[s] == len,
                            code_of(lens, s) == word(reversed as nat, len as nat),
                            e != 0,
                            e / SYMBOL_SPAN == len,
                            e % SYMBOL_SPAN == s,
                            fast@.len() == 1024,
                            forall|x: int|
                                0 <= x < 1024 ==> #[trigger] entry_ok(lens, x as nat, fast@[x]),
                        decreases 1024 + 32768 - at,
                    {
                        proof {
                            lemma_small_mod(reversed as nat, pow2(len as nat));
                            lemma_word_low(at as nat, reversed as nat, len as nat, len as nat);
                            assert(starts_with(lens, at as nat, s));
                            lemma_mod_add_multiples_vanish(at as int, stride as int);
                        }
                        fast[at] = e;
                        at = at + stride;
                    }
                }
                i = i + 1;
            }
            index = index + count;
            code = (code + count as u32) * 2;
            len = len + 1;
        }
        fast
    }

    /// The symbol whose code word `bits` starts with, and how many bits it
    /// takes.
    pub fn decode(&self, bits: u64) -> (r: Result<(u16, u32)>)
        requires
            self.wf(),
        ensures
            match decoded(self@, bits as nat) {
                Some((s, l)) => r == Ok::<(u16, u32), Error>((s as u16, l as u32)) && s <= u16::MAX,
                None => r == Err::<(u16, u32), Error>(Error::Malformed),
            },
    {
        let x: u64 = bits::low_bits(bits, FAST_BITS);
        proof {
            lemma2_to64();
        }
        let e: u16 = self.fast[x as usize];
        if e != 0 {
            proof {
                let i = x as int;
                assert(entry_ok(self.lens@, i as nat, self.fast@[i]));
                let s = (e % SYMBOL_SPAN) as int;
                let l = (e / SYMBOL_SPAN) as nat;
                lemma_mod_mod_pow(bits as nat, l, 10);
                lemma_word_low(x as nat, bits as nat, l, l);
                lemma_decoded(self.lens@, bits as nat, s);
            }
            return Ok((e % SYMBOL_SPAN, (e / SYMBOL_SPAN) as u32));
        }
        self.decode_slow(bits)
    }

    fn decode_slow(&self, bits: u64) -> (r: Result<(u16, u32)>)
        requires
            self.wf(),
        ensures
            match decoded(self@, bits as nat) {
                Some((s, l)) => r == Ok::<(u16, u32), Error>((s as u16, l as u32)) && s <= u16::MAX,
                None => r == Err::<(u16, u32), Error>(Error::Malformed),
            },
    {
        let ghost lens = self.lens@;
        let ghost x = bits as nat;
        let mut code: u32 = 0;
        let mut first: u32 = 0;
        let mut index: usize = 0;
        let mut rest: u64 = bits;
        proof {
            lengths::lemma_kraft_zero(lens);
            lemma_below_one(lens);
            lemma_below_all(lens);
            lemma_valid_kraft(lens);
            lemma2_to64();
            assert(x / 1 == x);
        }
        let mut len: u32 = 1;
        while len <= 15
            invariant
                1 <= len <= 16,
                self.wf(),
                lens == self.lens@,
                x == bits,
                lengths::kraft(lens, MAX_BITS as int) <= pow2(MAX_BITS as nat),
                codes_in(lens) == below(lens, 16),
                codes_in(lens) <= 0xffff,
                rest == x / pow2((len - 1) as nat),
                code == 2 * word(x, (len - 1) as nat),
                word(x, (len - 1) as nat) >= lengths::kraft(lens, len - 1),
                first == first_code(lens, len as int),
                index == below(lens, len as int),
                forall|l: int|
                    1 <= l < len ==> #[trigger] word(x, l as nat) >= lengths::kraft(lens, l),
            decreases 16 - len,
        {
            proof {
                lemma_word_bound(x, len as nat);
                lemma_pow2_strictly_increases(len as nat, 16);
                lemma2_to64();
                lengths::lemma_kraft_step(lens, len as int);
                lengths::lemma_kraft_bound(lens, len as int, MAX_BITS as int);
                lemma_below_step(lens, len as int);
                lemma_below_monotone(lens, len as int, 16);
                lemma_pow2_unfold(len as nat);
                lemma_pow2_pos((len - 1) as nat);
                lemma_div_denominator(x as int, pow2((len - 1) as nat) as int, 2);
                vstd::arithmetic::mul::lemma_mul_is_commutative(pow2((len - 1) as nat) as int, 2);
            }
            code = code + (rest % 2) as u32;
            let count: u32 = self.counts[len as usize] as u32;
            if code - first < count {
                proof {
                    let k = (code - first) as int;
                    let s = lemma_nth(lens, len as int, k);
                    assert(slot(lens, s) == index + k);
                    assert(starts_with(lens, x, s));
                    lemma_decoded(lens, x, s);
                }
                let sym: u16 = self.symbols[index + (code - first) as usize];
                return Ok((sym, len));
            }
            index = index + count as usize;
            first = (first + count) * 2;
            code = code * 2;
            rest = rest / 2;
            len = len + 1;
        }
        proof {
            assert forall|s: int| !starts_with(lens, x, s) by {
                if starts_with(lens, x, s) {
                    lemma_code_below_kraft(lens, s);
                    let l = lens[s] as int;
                    assert(word(x, l as nat) >= lengths::kraft(lens, l));
                }
            }
        }
        Err(Error::Malformed)
    }
}

proof fn lemma_mod_mod_pow(x: nat, a: nat, b: nat)
    requires
        a <= b,
    ensures
        (x % pow2(b)) % pow2(a) == x % pow2(a),
{
    lemma_pow2_pos(a);
    lemma_pow2_pos((b - a) as nat);
    lemma_pow2_adds(a, (b - a) as nat);
    lemma_mod_mod(x as int, pow2(a) as int, pow2((b - a) as nat) as int);
}

/// The `n` low bits of `v` in the opposite order.
pub(crate) fn reverse_bits(v: u32, n: u32) -> (r: u32)
    requires
        n <= 16,
    ensures
        r == word(v as nat, n as nat),
        r < pow2(n as nat),
{
    let mut r: u32 = 0;
    let mut rest: u32 = v;
    let mut i: u32 = 0;
    proof {
        lemma2_to64();
    }
    while i < n
        invariant
            i <= n <= 16,
            r == word(v as nat, i as nat),
            rest == v as nat / pow2(i as nat),
        decreases n - i,
    {
        proof {
            lemma_word_bound(v as nat, (i + 1) as nat);
            lemma2_to64();
            if i + 1 < 16 {
                lemma_pow2_strictly_increases((i + 1) as nat, 16);
            }
            lemma_pow2_unfold((i + 1) as nat);
            lemma_pow2_pos(i as nat);
            lemma_div_denominator(v as int, pow2(i as nat) as int, 2);
            vstd::arithmetic::mul::lemma_mul_is_commutative(pow2(i as nat) as int, 2);
        }
        r = 2 * r + rest % 2;
        rest = rest / 2;
        i = i + 1;
    }
    proof {
        lemma_word_bound(v as nat, n as nat);
    }
    r
}

/// The lengths of the fixed literal and length code.
pub open spec fn fixed_literal(i: int) -> u8 {
    if i < 144 {
        8
    } else if i < 256 {
        9
    } else if i < 280 {
        7
    } else {
        8
    }
}

/// The lengths of the fixed literal and length code.
pub fn fixed_literal_lengths() -> (l: [u8; 288])
    ensures
        l@ == Seq::new(288, |i: int| fixed_literal(i)),
        valid(l@),
        lengths::complete(l@, MAX_BITS as int),
{
    let mut l: [u8; 288] = [8u8; 288];
    let mut i: usize = 144;
    while i < 280
        invariant
            144 <= i <= 280,
            forall|k: int| 0 <= k < i ==> #[trigger] l@[k] == fixed_literal(k),
            forall|k: int| i <= k < 288 ==> #[trigger] l@[k] == 8,
        decreases 280 - i,
    {
        l[i] = if i < 256 {
            9
        } else {
            7
        };
        i = i + 1;
    }
    proof {
        assert(l@ =~= Seq::new(288, |i: int| fixed_literal(i)));
        let s = l@;
        lemma2_to64();
        assert(s.take(0) =~= Seq::<u8>::empty());
        lemma_kraft_run(s, 0, 144, 8);
        lemma_kraft_run(s, 144, 256, 9);
        lemma_kraft_run(s, 256, 280, 7);
        lemma_kraft_run(s, 280, 288, 8);
        assert(s.take(288) =~= s);
    }
    l
}

/// A run of equal lengths adds its share.
pub proof fn lemma_kraft_run(s: Seq<u8>, a: int, b: int, x: u8)
    requires
        0 <= a <= b <= s.len(),
        0 < x <= MAX_BITS,
        forall|i: int| a <= i < b ==> s[i] == x,
    ensures
        lengths::kraft(s.take(b), MAX_BITS as int) == lengths::kraft(s.take(a), MAX_BITS as int) + (b - a)
            * pow2((MAX_BITS - x) as nat),
    decreases b - a,
{
    let w = pow2((MAX_BITS - x) as nat);
    if a == b {
        assert(0 * w == 0);
    } else {
        lemma_kraft_run(s, a, b - 1, x);
        assert(s.take(b).drop_last() =~= s.take(b - 1));
        assert((b - a) * w == (b - 1 - a) * w + w) by (nonlinear_arith);
    }
}

/// The lengths of the fixed distance code.
pub fn fixed_distance_lengths() -> (l: [u8; 32])
    ensures
        l@ == Seq::new(32, |i: int| 5u8),
        valid(l@),
        lengths::complete(l@, MAX_BITS as int),
{
    let l: [u8; 32] = [5u8; 32];
    proof {
        let s = l@;
        assert(s =~= Seq::new(32, |i: int| 5u8));
        lemma2_to64();
        assert(s.take(0) =~= Seq::<u8>::empty());
        lemma_kraft_run(s, 0, 32, 5);
        assert(s.take(32) =~= s);
    }
    l
}

} // verus!
