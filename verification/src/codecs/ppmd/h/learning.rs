//! What a var. H model makes of frequencies: how much a new symbol is given,
//! and how symbols are counted in shorter contexts.
use crate::codecs::ppmd::arena;
use crate::codecs::ppmd::h::rules;
use crate::codecs::ppmd::h::rules::Model;
use crate::codecs::ppmd::states;
use vstd::prelude::*;

verus! {

/// How often a symbol that is new to a context is taken to have been seen
/// there, by how often it was seen where it was found. Three and less raise
/// the sum by three.
pub proof fn lemma_share(sum: u32, s0: u32, f: u32)
    requires
        sum <= 0x1_0000,
        s0 <= 0x1_0000,
        f <= 0xff,
    ensures
        ({
            let (x, more) = rules::share(sum, s0, f);
            let part = 2 * f * (sum + 6);
            let whole = s0 + sum;
            &&& 1 <= x <= 7
            &&& more == if part < 6 * whole {
                3
            } else {
                x as int
            }
            &&& (x == 1 ==> part <= whole)
            &&& (x == 2 ==> whole < part < 4 * whole)
            &&& (x == 3 ==> 4 * whole <= part < 6 * whole)
            &&& (x == 4 ==> 6 * whole <= part < 9 * whole)
            &&& (x == 5 ==> 9 * whole <= part < 12 * whole)
            &&& (x == 6 ==> 12 * whole <= part < 15 * whole)
            &&& (x == 7 ==> 15 * whole <= part)
        }),
{
    reveal(rules::share);
}

/// How often the only symbol of a new context is taken to have been seen, by
/// how often it was seen in a shorter one, once more than `cf` times, where
/// `rest` is what the others have there.
pub proof fn lemma_inherited(m: Model, c: u32, symbol: u8, s: u32, cf: int, rest: int)
    requires
        rules::num_stats(m, c) != 1,
        rules::find(m, rules::stats(m, c), symbol, rules::num_stats(m, c)) == Some(s),
        rules::freq(m, s) == cf + 1,
        rules::summ_freq(m, c) == rest + cf + rules::num_stats(m, c),
        cf >= 0,
        rest >= 0,
    ensures
        5 * cf <= rest ==> rules::inherited(m, c, symbol) == Some(1u32),
        rest < 5 * cf && 2 * cf <= rest ==> rules::inherited(m, c, symbol) == Some(2u32),
        2 * cf > rest && rest > 0 ==> {
            &&& rules::inherited(m, c, symbol) is Some
            &&& ({
                let q = rules::inherited(m, c, symbol)->0 - 1;
                2 * rest * (q - 1) < 2 * cf + rest <= 2 * rest * q
            })
        },
        2 * cf > rest && rest == 0 ==> rules::inherited(m, c, symbol) is None,
{
    reveal(rules::inherited);
    if 2 * cf > rest && rest > 0 {
        let x = 2 * cf + 3 * rest - 1;
        let w = 2 * rest;
        let q = x / w;
        vstd::arithmetic::div_mod::lemma_fundamental_div_mod(x, w);
        assert(w * (q - 1) == w * q - w) by (nonlinear_arith);
        assert(q <= x) by (nonlinear_arith)
            requires
                x >= 0,
                w > 0,
                q == x / w,
        ;
    }
}

/// Where the state of a symbol lies.
pub proof fn lemma_found(m: Model, first: int, n: nat, from: int, j: int, symbol: u8)
    requires
        states::lies(m.base, first, n),
        0 <= from <= j < n,
        n <= 257,
        states::states(m.base, first, n)[j][0] == symbol,
        forall|i: int| 0 <= i < j ==> #[trigger] states::states(m.base, first, n)[i][0] != symbol,
    ensures
        rules::find(m, (first + 6 * from) as u32, symbol, (n - from) as u32) == Some(
            (first + 6 * j) as u32,
        ),
    decreases j - from,
{
    let l = states::states(m.base, first, n);
    states::lemma_lies(m.base, first, n);
    assert(arena::get8(m.base, (first + 6 * from) as u32) == l[from][0]);
    if from < j {
        lemma_found(m, first, n, from + 1, j, symbol);
    }
}

/// The states of a context in which the `j`th symbol is counted from a longer
/// one: it goes before the one before it if it is as frequent, and is two
/// more frequent if it was seen less than 115 times.
pub open spec fn counted(l: Seq<Seq<u8>>, j: int) -> Seq<Seq<u8>> {
    let up = j > 0 && l[j][1] >= l[j - 1][1];
    let x = if l[j][1] < 115 {
        l[j].update(1, (l[j][1] + 2) as u8)
    } else {
        l[j]
    };
    if up {
        l.update(j, l[j - 1]).update(j - 1, x)
    } else {
        l.update(j, x)
    }
}

/// A symbol is counted in the next shorter context too, unless it is frequent
/// where it was found.
#[verifier::spinoff_prover]
#[verifier::rlimit(40)]
pub proof fn lemma_counted_shorter(m: Model, c: u32, first: int, n: nat, j: int)
    requires
        rules::suffix(m, m.min_context) == c,
        c != 0,
        rules::freq(m, m.found_state) < 31,
        2 <= n <= 256,
        rules::num_stats(m, c) == n,
        rules::stats(m, c) == first,
        first >= 6,
        states::lies(m.base, first, n),
        c + 12 <= m.base.len(),
        c + 12 <= first || first + 6 * n <= c,
        0 <= j < n,
        states::states(m.base, first, n)[j][0] == rules::sym(m, m.found_state),
        forall|i: int|
            0 <= i < j ==> #[trigger] states::states(m.base, first, n)[i][0] != rules::sym(
                m,
                m.found_state,
            ),
        rules::summ_freq(m, c) < 0xfffe,
    ensures
        ({
            let l = states::states(m.base, first, n);
            &&& rules::count_shorter(m) is Some
            &&& states::states(rules::count_shorter(m)->0.base, first, n) == counted(l, j)
            &&& rules::summ_freq(rules::count_shorter(m)->0, c) == rules::summ_freq(m, c)
                + if l[j][1] < 115 {
                2int
            } else {
                0
            }
        }),
{
    reveal(rules::count_shorter);
    let l = states::states(m.base, first, n);
    states::lemma_lies(m.base, first, n);
    lemma_found(m, first, n, 0, j, rules::sym(m, m.found_state));
    let s = (first + 6 * j) as u32;
    assert(rules::freq(m, s) == l[j][1]);
    let up = j > 0 && l[j][1] >= l[j - 1][1];
    let before = (s - 6) as u32;
    if j > 0 {
        assert(before == first + 6 * (j - 1));
        assert(rules::freq(m, before) == l[j - 1][1]);
    }
    let a = if up {
        rules::swap_states(m, s, before)
    } else {
        m
    };
    let k = if up {
        j - 1
    } else {
        j
    };
    let la = states::states(a.base, first, n);
    if up {
        let want = l.update(j, l[j - 1]).update(j - 1, l[j]);
        assert forall|i: int| 0 <= i < n implies la[i] == #[trigger] want[i] by {
            assert(a.base.subrange(first + 6 * i, first + 6 * i + 6) =~= want[i]);
        }
        assert(la =~= want);
    }
    states::lemma_lies(a.base, first, n);
    let t = (first + 6 * k) as u32;
    assert(rules::freq(a, t) == l[j][1]);
    if l[j][1] < 115 {
        let b = rules::set_freq(a, t, (l[j][1] + 2) as u32);
        states::lemma_counted(a.base, first, n, k, (l[j][1] + 2) as u8);
        let lb = states::states(b.base, first, n);
        assert(rules::summ_freq(b, c) == rules::summ_freq(m, c));
        let d = rules::set_summ_freq(b, c, (rules::summ_freq(b, c) + 2) as u32);
        states::lemma_same(b.base, d.base, first, n);
        assert(lb =~= counted(l, j));
    } else {
        assert(la =~= counted(l, j));
        assert(rules::summ_freq(a, c) == rules::summ_freq(m, c));
    }
}

/// In a shorter context of one symbol, up to 32 times.
pub proof fn lemma_counted_alone(m: Model, c: u32)
    requires
        rules::suffix(m, m.min_context) == c,
        c != 0,
        rules::num_stats(m, c) == 1,
        c + 12 <= m.base.len() <= 0xffff_ffff,
    ensures
        rules::count_shorter(m) is Some,
        rules::freq(rules::count_shorter(m)->0, rules::one_state(c)) == rules::freq(
            m,
            rules::one_state(c),
        ) + if rules::freq(m, m.found_state) < 31 && rules::freq(m, rules::one_state(c)) < 32 {
            1int
        } else {
            0
        },
{
    reveal(rules::count_shorter);
}

} // verus!
