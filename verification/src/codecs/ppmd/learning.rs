//! What a var. I model makes of frequencies: how much a new symbol is given,
//! and how contexts forget.
use crate::codecs::ppmd::arena;
use crate::codecs::ppmd::rules;
use crate::codecs::ppmd::rules::Model;
use crate::codecs::ppmd::states;
use vstd::prelude::*;

verus! {

/// How often a symbol that is new to a context is taken to have been seen
/// there, by how often it was seen where it was found. Three and less raise
/// the sum by four.
pub proof fn lemma_share(sum: u32, s0: u32, f: u32)
    requires
        sum <= 0x1_0000,
        s0 <= 0x1_0000,
        f <= 0xff,
    ensures
        ({
            let (x, more) = rules::share(sum, s0, f);
            let part = 2 * f * (sum + 6);
            let whole = s0 + sum;
            &&& 1 <= x <= 7
            &&& more == if part < 6 * whole {
                4
            } else {
                x as int
            }
            &&& (x == 1 ==> part <= whole || part < 6 * whole && whole == 0)
            &&& (x == 2 ==> whole < part < 4 * whole)
            &&& (x == 3 ==> 4 * whole <= part < 6 * whole)
            &&& (x == 4 ==> 6 * whole <= part <= 9 * whole)
            &&& (x == 5 ==> 9 * whole < part <= 12 * whole)
            &&& (x == 6 ==> 12 * whole < part <= 15 * whole)
            &&& (x == 7 ==> 15 * whole < part)
        }),
{
    reveal(rules::share);
    assert(2 * (sum + 6) * f == 2 * f * (sum + 6)) by (nonlinear_arith);
}

/// How often the only symbol of a new context is taken to have been seen, by
/// how often it was seen in a shorter one, once more than `cf` times, where
/// `rest` is what the others have there.
pub proof fn lemma_inherited(m: Model, c: u32, symbol: u8, s: u32, cf: int, rest: int)
    requires
        rules::num_stats(m, c) != 0,
        rules::find(
            m,
            rules::stats(m, c),
            symbol,
            (rules::num_stats(m, c) + 1) as u32,
        ) == Some(s),
        rules::freq(m, s) == cf + 1,
        rules::summ_freq(m, c) == rest + cf + rules::num_stats(m, c),
        cf >= 0,
        rest >= 0,
    ensures
        5 * cf <= rest ==> rules::inherited(m, c, symbol) == Some(1u32),
        rest < 5 * cf && 2 * cf <= rest ==> rules::inherited(m, c, symbol) == Some(2u32),
        2 * cf > rest && rest > 0 && cf + 2 * rest >= 3 ==> {
            &&& rules::inherited(m, c, symbol) is Some
            &&& ({
                let q = rules::inherited(m, c, symbol)->0 - 1;
                rest * q <= cf + 2 * rest - 3 < rest * (q + 1)
            })
        },
        2 * cf > rest && rest == 0 ==> rules::inherited(m, c, symbol) is None,
{
    reveal(rules::inherited);
    if 2 * cf > rest && rest > 0 && cf + 2 * rest >= 3 {
        let x = cf + 2 * rest - 3;
        vstd::arithmetic::div_mod::lemma_fundamental_div_mod(x, rest);
        assert(rest * (x / rest + 1) == rest * (x / rest) + rest) by (nonlinear_arith);
        assert(x / rest <= x) by (nonlinear_arith)
            requires
                x >= 0,
                rest > 0,
        ;
    }
}

/// A state with its frequency halved and rounded up, or as it is.
pub open spec fn scaled_state(x: Seq<u8>, scale: u32) -> Seq<u8> {
    if scale == 0 {
        x
    } else {
        x.update(1, ((x[1] + 1) / 2) as u8)
    }
}

/// The same of states.
pub open spec fn scaled_states(l: Seq<Seq<u8>>, scale: u32) -> Seq<Seq<u8>> {
    Seq::new(l.len(), |i: int| scaled_state(l[i], scale))
}

/// Whether a symbol is a high one.
pub open spec fn any_high(l: Seq<Seq<u8>>) -> bool {
    exists|i: int| 0 <= i < l.len() && #[trigger] l[i][0] >= 0x40
}

proof fn lemma_total_first(l: Seq<Seq<u8>>)
    requires
        l.len() > 0,
    ensures
        states::total(l) == l[0][1] + states::total(l.skip(1)),
        0 <= states::total(l.skip(1)) <= 255 * (l.len() - 1),
    decreases l.len(),
{
    if l.len() == 1 {
        assert(l.drop_last() =~= Seq::<Seq<u8>>::empty());
        assert(l.skip(1) =~= Seq::<Seq<u8>>::empty());
    } else {
        lemma_total_first(l.drop_last());
        assert(l.drop_last().skip(1) =~= l.skip(1).drop_last());
    }
}

proof fn lemma_scale(
    m: Model,
    first: int,
    n: nat,
    k: int,
    scale: u32,
    sum: u32,
    esc: u32,
    high: bool,
)
    requires
        states::lies(m.base, first, n),
        1 <= k <= n <= 256,
        scale <= 1,
        states::total(states::states(m.base, first, n).skip(k)) <= esc,
        sum + 255 * (n - k) <= 0x2_0000,
    ensures
        ({
            let l = states::states(m.base, first, n);
            let rest = l.skip(k);
            let (e, sum1, esc1, high1) = rules::scale_states(
                m,
                (first + 6 * (k - 1)) as u32,
                (n - k) as u32,
                scale,
                sum,
                esc,
                high,
            );
            &&& e == (Model { base: e.base, ..m })
            &&& states::kept(m.base, e.base, first, first + 6 * n)
            &&& states::states(e.base, first, n) == l.take(k) + scaled_states(rest, scale)
            &&& sum1 == sum + states::total(scaled_states(rest, scale))
            &&& esc1 == esc - states::total(rest)
            &&& high1 == (high || any_high(rest))
        }),
    decreases n - k,
{
    let l = states::states(m.base, first, n);
    let rest = l.skip(k);
    states::lemma_lies(m.base, first, n);
    if k == n {
        assert(rest =~= Seq::<Seq<u8>>::empty());
        assert(scaled_states(rest, scale) =~= Seq::<Seq<u8>>::empty());
        assert(l.take(k) + scaled_states(rest, scale) =~= l);
    } else {
        let t = (first + 6 * k) as u32;
        let f = rules::scaled(rules::freq(m, t), scale);
        assert(rules::freq(m, t) == l[k][1]);
        assert(arena::get8(m.base, t) == l[k][0]);
        let a = rules::set_freq(m, t, f);
        states::lemma_counted(m.base, first, n, k, f as u8);
        let l2 = states::states(a.base, first, n);
        states::lemma_lies(a.base, first, n);
        assert(arena::get8(a.base, t) == l2[k][0]);
        lemma_total_first(rest);
        assert(rest.skip(1) =~= l.skip(k + 1));
        assert(l2.skip(k + 1) =~= l.skip(k + 1));
        lemma_scale(
            a,
            first,
            n,
            k + 1,
            scale,
            (sum + f) as u32,
            (esc - l[k][1]) as u32,
            high || rules::sym(a, t) >= 0x40,
        );
        let s = scaled_states(rest, scale);
        lemma_total_first(s);
        assert(s.skip(1) =~= scaled_states(l.skip(k + 1), scale));
        assert(s[0][1] == f);
        assert(l2[k] =~= scaled_state(l[k], scale));
        assert(l2.take(k + 1) + s.skip(1) =~= l.take(k) + s);
        assert(any_high(rest) == (l[k][0] >= 0x40 || any_high(rest.skip(1)))) by {
            if any_high(rest.skip(1)) {
                let i = choose|i: int|
                    0 <= i < rest.skip(1).len() && #[trigger] rest.skip(1)[i][0] >= 0x40;
                assert(rest[i + 1][0] >= 0x40);
            }
            if any_high(rest) {
                let i = choose|i: int| 0 <= i < rest.len() && #[trigger] rest[i][0] >= 0x40;
                if i > 0 {
                    assert(rest.skip(1)[i - 1][0] >= 0x40);
                }
            }
            if l[k][0] >= 0x40 {
                assert(rest[0][0] >= 0x40);
            }
        }
    }
}

proof fn lemma_put_same(b: Seq<u8>, at: u32)
    ensures
        arena::put32(b, at, arena::get32(b, at)) == b,
{
    assert(arena::put32(b, at, arena::get32(b, at)) =~= b);
}

/// A context whose states stay where they are counts anew: the frequencies
/// are halved if they are to be or if the sum is high, the sum is what they
/// and half of what was left for escapes come to, and the flag for high
/// symbols says whether there is one.
#[verifier::spinoff_prover]
#[verifier::rlimit(40)]
pub proof fn lemma_refreshed(m: Model, ctx: u32, units: u32, scale: u32, first: int, n: nat)
    requires
        2 <= n <= 256,
        rules::num_stats(m, ctx) == n - 1,
        rules::stats(m, ctx) == first,
        arena::index_of(units) == arena::index_of(((n + 1) / 2) as u32),
        states::lies(m.base, first, n),
        ctx + 12 <= m.base.len(),
        ctx + 12 <= first || first + 6 * n <= ctx,
        states::total(states::states(m.base, first, n)) <= rules::summ_freq(m, ctx),
    ensures
        ({
            let r = rules::refresh(m, ctx, units, scale);
            let l = states::states(m.base, first, n);
            let by: u32 = if scale != 0 || rules::summ_freq(m, ctx) >= 0x8000 {
                1
            } else {
                0
            };
            let left = rules::summ_freq(m, ctx) - states::total(l);
            let now = states::total(scaled_states(l, by)) + if by == 0 {
                left
            } else {
                (left + 1) / 2
            };
            &&& states::states(r.base, first, n) == scaled_states(l, by)
            &&& rules::stats(r, ctx) == first
            &&& rules::num_stats(r, ctx) == n - 1
            &&& rules::suffix(r, ctx) == rules::suffix(m, ctx)
            &&& now <= 0xffff ==> rules::summ_freq(r, ctx) == now
            &&& rules::flags(r, ctx) == (rules::flags(m, ctx) & (if by == 0 {
                0x10u8
            } else {
                0x14u8
            })).wrapping_add(
                if any_high(l) {
                    8
                } else {
                    0
                },
            )
            &&& r == (Model { base: r.base, ..m })
        }),
{
    reveal(rules::refresh);
    reveal(rules::shrink_units);
    let l = states::states(m.base, first, n);
    let s0 = first as u32;
    lemma_put_same(m.base, (ctx + 4) as u32);
    assert(rules::set_stats(m, ctx, s0).base == m.base);
    let by: u32 = if scale != 0 || rules::summ_freq(m, ctx) >= 0x8000 {
        1
    } else {
        0
    };
    states::lemma_lies(m.base, first, n);
    assert(rules::freq(m, s0) == l[0][1]);
    assert(arena::get8(m.base, s0) == l[0][0]);
    let f = rules::scaled(rules::freq(m, s0), by);
    let c = rules::set_freq(m, s0, f);
    states::lemma_counted(m.base, first, n, 0, f as u8);
    let l2 = states::states(c.base, first, n);
    assert(l2.skip(1) =~= l.skip(1));
    lemma_total_first(l);
    let esc = (rules::summ_freq(m, ctx) - l[0][1]) as u32;
    lemma_scale(c, first, n, 1, by, f, esc, rules::sym(m, s0) >= 0x40);
    let (d, sum, left, high) = rules::scale_states(
        c,
        s0,
        (n - 1) as u32,
        by,
        f,
        esc,
        rules::sym(m, s0) >= 0x40,
    );
    let s = scaled_states(l, by);
    assert(l2[0] =~= scaled_state(l[0], by));
    assert(l2.take(1) + scaled_states(l.skip(1), by) =~= s);
    lemma_total_first(s);
    assert(s.skip(1) =~= scaled_states(l.skip(1), by));
    assert(high == any_high(l)) by {
        if any_high(l.skip(1)) {
            let i = choose|i: int| 0 <= i < l.skip(1).len() && #[trigger] l.skip(1)[i][0] >= 0x40;
            assert(l[i + 1][0] >= 0x40);
        }
        if any_high(l) {
            let i = choose|i: int| 0 <= i < l.len() && #[trigger] l[i][0] >= 0x40;
            if i > 0 {
                assert(l.skip(1)[i - 1][0] >= 0x40);
            }
        }
        if l[0][0] >= 0x40 {
            assert(any_high(l));
        }
    }
    let now = (sum + rules::scaled(left, by)) as u32;
    let e = rules::set_summ_freq(d, ctx, now);
    let r = rules::refresh(m, ctx, units, scale);
    assert(rules::flags(e, ctx) == rules::flags(m, ctx));
    assert(r.base == rules::set_flags(e, ctx, rules::flags(r, ctx)).base);
    states::lemma_same(d.base, r.base, first, n);
}

/// A context of which one symbol is left holds its state itself: the symbol,
/// an eighth of its frequency and more, and where it leads.
pub proof fn lemma_folded(m: Model, c: u32, s: u32)
    requires
        c + 12 <= m.base.len() <= 0xffff_ffff,
        s + 6 <= m.base.len(),
        c + 12 <= s || s + 6 <= c,
    ensures
        ({
            let r = rules::fold_state(m, c, s);
            &&& rules::sym(r, rules::one_state(c)) == rules::sym(m, s)
            &&& rules::freq(m, s) + 4 <= 8 * rules::freq(r, rules::one_state(c)) <= rules::freq(
                m,
                s,
            ) + 11
            &&& rules::successor(r, rules::one_state(c)) == rules::successor(m, s)
            &&& rules::suffix(r, c) == rules::suffix(m, c)
            &&& rules::num_stats(r, c) == rules::num_stats(m, c)
            &&& rules::flags(r, c) == (rules::flags(m, c) & 0x10).wrapping_add(
                if rules::sym(m, s) >= 0x40 {
                    8
                } else {
                    0
                },
            )
        }),
{
    let a = rules::set_flags(
        m,
        c,
        (rules::flags(m, c) & 0x10).wrapping_add(rules::high3(rules::sym(m, s))),
    );
    let f = ((rules::freq(a, s) + 11) / 8) as u32;
    let b = rules::set_u8(
        rules::set_u8(a, (c + 2) as u32, rules::sym(m, s)),
        (c + 3) as u32,
        f as u8,
    );
    assert(arena::get32(b.base, (s + 2) as u32) == arena::get32(m.base, (s + 2) as u32));
    assert(arena::get8(a.base, (s + 1) as u32) == arena::get8(m.base, (s + 1) as u32));
    assert(f <= 0xff);
    let v = arena::get32(m.base, (s + 2) as u32);
    crate::codecs::ppmd::blocks::lemma_number(b.base, (c + 4) as u32, v);
}

/// Where the state of a symbol lies.
pub proof fn lemma_found(m: Model, first: int, n: nat, from: int, j: int, symbol: u8)
    requires
        states::lies(m.base, first, n),
        0 <= from <= j < n,
        n <= 257,
        states::states(m.base, first, n)[j][0] == symbol,
        forall|i: int| 0 <= i < j ==> #[trigger] states::states(m.base, first, n)[i][0] != symbol,
    ensures
        rules::find(m, (first + 6 * from) as u32, symbol, (n - from) as u32) == Some(
            (first + 6 * j) as u32,
        ),
    decreases j - from,
{
    let l = states::states(m.base, first, n);
    states::lemma_lies(m.base, first, n);
    assert(arena::get8(m.base, (first + 6 * from) as u32) == l[from][0]);
    if from < j {
        lemma_found(m, first, n, from + 1, j, symbol);
    }
}

/// The states of a context in which the `j`th symbol is counted from a longer
/// one: it goes before the one before it if it is as frequent, and is two
/// more frequent if it was seen less than 115 times.
pub open spec fn counted(l: Seq<Seq<u8>>, j: int) -> Seq<Seq<u8>> {
    let up = j > 0 && l[j][1] >= l[j - 1][1];
    let x = if l[j][1] < 115 {
        l[j].update(1, (l[j][1] + 2) as u8)
    } else {
        l[j]
    };
    if up {
        l.update(j, l[j - 1]).update(j - 1, x)
    } else {
        l.update(j, x)
    }
}

/// A symbol is counted in the next shorter context too, unless it is frequent
/// where it was found.
#[verifier::spinoff_prover]
#[verifier::rlimit(40)]
pub proof fn lemma_counted_shorter(m: Model, c: u32, first: int, n: nat, j: int)
    requires
        rules::suffix(m, m.min_context) == c,
        c != 0,
        rules::freq(m, m.found_state) < 31,
        2 <= n <= 256,
        rules::num_stats(m, c) == n - 1,
        rules::stats(m, c) == first,
        first >= 6,
        states::lies(m.base, first, n),
        c + 12 <= m.base.len(),
        c + 12 <= first || first + 6 * n <= c,
        0 <= j < n,
        states::states(m.base, first, n)[j][0] == rules::sym(m, m.found_state),
        forall|i: int|
            0 <= i < j ==> #[trigger] states::states(m.base, first, n)[i][0] != rules::sym(
                m,
                m.found_state,
            ),
        rules::summ_freq(m, c) < 0xfffe,
    ensures
        ({
            let l = states::states(m.base, first, n);
            &&& rules::count_shorter(m) is Some
            &&& states::states((rules::count_shorter(m)->0).0.base, first, n) == counted(l, j)
            &&& rules::summ_freq((rules::count_shorter(m)->0).0, c) == rules::summ_freq(m, c)
                + if l[j][1] < 115 {
                2int
            } else {
                0
            }
        }),
{
    reveal(rules::count_shorter);
    let l = states::states(m.base, first, n);
    states::lemma_lies(m.base, first, n);
    lemma_found(m, first, n, 0, j, rules::sym(m, m.found_state));
    let s = (first + 6 * j) as u32;
    assert(rules::freq(m, s) == l[j][1]);
    let up = j > 0 && l[j][1] >= l[j - 1][1];
    let before = (s - 6) as u32;
    if j > 0 {
        assert(before == first + 6 * (j - 1));
        assert(rules::freq(m, before) == l[j - 1][1]);
    }
    let a = if up {
        rules::swap_states(m, s, before)
    } else {
        m
    };
    let k = if up {
        j - 1
    } else {
        j
    };
    let la = states::states(a.base, first, n);
    if up {
        let want = l.update(j, l[j - 1]).update(j - 1, l[j]);
        assert forall|i: int| 0 <= i < n implies la[i] == #[trigger] want[i] by {
            assert(a.base.subrange(first + 6 * i, first + 6 * i + 6) =~= want[i]);
        }
        assert(la =~= want);
    }
    states::lemma_lies(a.base, first, n);
    let t = (first + 6 * k) as u32;
    assert(rules::freq(a, t) == l[j][1]);
    if l[j][1] < 115 {
        let b = rules::set_freq(a, t, (l[j][1] + 2) as u32);
        states::lemma_counted(a.base, first, n, k, (l[j][1] + 2) as u8);
        let lb = states::states(b.base, first, n);
        assert(rules::summ_freq(b, c) == rules::summ_freq(m, c));
        let d = rules::set_summ_freq(b, c, (rules::summ_freq(b, c) + 2) as u32);
        states::lemma_same(b.base, d.base, first, n);
        assert(lb =~= counted(l, j));
    } else {
        assert(la =~= counted(l, j));
        assert(rules::summ_freq(a, c) == rules::summ_freq(m, c));
    }
}

/// In a shorter context of one symbol, up to 32 times.
pub proof fn lemma_counted_alone(m: Model, c: u32)
    requires
        rules::suffix(m, m.min_context) == c,
        c != 0,
        rules::num_stats(m, c) == 0,
        c + 12 <= m.base.len() <= 0xffff_ffff,
    ensures
        rules::count_shorter(m) is Some,
        rules::freq((rules::count_shorter(m)->0).0, rules::one_state(c)) == rules::freq(
            m,
            rules::one_state(c),
        ) + if rules::freq(m, m.found_state) < 31 && rules::freq(m, rules::one_state(c)) < 32 {
            1int
        } else {
            0
        },
{
    reveal(rules::count_shorter);
}

} // verus!
