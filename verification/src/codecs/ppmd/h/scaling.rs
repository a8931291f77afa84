//! What rescaling a context of a var. H model does to its symbols and its sum.
use crate::codecs::ppmd::arena;
use crate::codecs::ppmd::arena::{INDEXES, STATE, UNIT_SIZE};
use crate::codecs::ppmd::h::rules;
use crate::codecs::ppmd::h::rules::Model;
use crate::codecs::ppmd::states;
use vstd::prelude::*;

verus! {

/// How many bytes the block of a context's states has.
pub open spec fn room(n: int) -> int {
    12 * arena::units_of(arena::index_of(((n + 1) / 2) as u32))
}

/// Whether two stretches of memory have nothing in common.
pub open spec fn apart(a: int, m: int, b: int, n: int) -> bool {
    a + m <= b || b + n <= a
}

/// Whether a context of several symbols lies in order in memory, its symbol
/// number `j` being the one found, and the free blocks lie elsewhere.
pub open spec fn in_order(m: Model, j: int) -> bool {
    let mc = m.min_context as int;
    let first = rules::stats(m, m.min_context) as int;
    let n = rules::num_stats(m, m.min_context) as int;
    let l = states::states(m.base, first, n as nat);
    &&& m.base.len() <= 0xffff_ffff
    &&& mc + 12 <= m.base.len()
    &&& 2 <= n <= 256
    &&& first + room(n) <= m.base.len()
    &&& apart(mc, 12, first, room(n))
    &&& 0 <= j < n
    &&& m.found_state == first + 6 * j
    &&& l[j][1] <= 251
    &&& states::total(l) <= rules::summ_freq(m, m.min_context)
    &&& m.free_list.len() == INDEXES
    &&& forall|i: int|
        0 <= i < INDEXES && #[trigger] m.free_list[i] != 0 ==> {
            let size = 12 * arena::units_of(i);
            &&& m.free_list[i] + size <= m.base.len()
            &&& apart(mc, 12, m.free_list[i] as int, size)
            &&& apart(first, room(n), m.free_list[i] as int, size)
        }
}

/// The frequency of a symbol that is left alone: it is halved, rounded up, as
/// often as what is set aside for others can be until one is left of it, and
/// once at least.
pub open spec fn alone(f: int, e: int) -> int
    decreases e,
{
    if e <= 3 {
        (f + 1) / 2
    } else {
        alone((f + 1) / 2, e / 2)
    }
}

proof fn lemma_alone(f: u32, e: u32)
    requires
        f <= 255,
    ensures
        rules::halved_alone(f, e) == alone(f as int, e as int),
        0 <= alone(f as int, e as int) <= 255,
    decreases e,
{
    let g = (f - f / 2) as u32;
    assert(g == (f + 1) / 2);
    if e > 3 {
        lemma_alone(g, e / 2);
    }
}

/// Everything but some bytes of memory.
spec fn only_base(a: Model, b: Model) -> bool {
    b == (Model { base: b.base, ..a })
}

proof fn lemma_shift(m: Model, first: int, n: nat, j: int)
    requires
        states::lies(m.base, first, n),
        0 <= j < n,
    ensures
        ({
            let x = rules::shift_states(m, (first + 6 * j) as u32, first as u32);
            let l = states::states(m.base, first, n);
            &&& only_base(m, x)
            &&& states::kept(m.base, x.base, first, first + 6 * n)
            &&& states::states(x.base, first, n) == Seq::new(
                n,
                |i: int|
                    if 1 <= i <= j {
                        l[i - 1]
                    } else {
                        l[i]
                    },
            )
        }),
    decreases j,
{
    let l = states::states(m.base, first, n);
    let s = (first + 6 * j) as u32;
    let x = rules::shift_states(m, s, first as u32);
    states::lemma_lies(m.base, first, n);
    let want = Seq::new(
        n,
        |i: int|
            if 1 <= i <= j {
                l[i - 1]
            } else {
                l[i]
            },
    );
    if j > 0 {
        let t = (s - STATE) as u32;
        assert(t == first + 6 * (j - 1));
        let a = rules::copy_state(m, s, t);
        states::lemma_moved(m.base, first, n, j, j - 1);
        lemma_shift(a, first, n, j - 1);
        assert(x == rules::shift_states(a, t, first as u32));
        assert(states::states(x.base, first, n) =~= want);
    } else {
        assert(l =~= want);
    }
}

/// Where a state goes.
proof fn lemma_sink(m: Model, first: int, n: nat, k: int, f: u32) -> (p: int)
    requires
        states::lies(m.base, first, n),
        0 < k < n,
    ensures
        ({
            let (x, at) = rules::sink(m, (first + 6 * k) as u32, first as u32, f);
            let l = states::states(m.base, first, n);
            &&& 0 <= p < k
            &&& at == first + 6 * p
            &&& only_base(m, x)
            &&& states::kept(m.base, x.base, first, first + 6 * n)
            &&& p > 0 ==> f <= l[p - 1][1]
            &&& forall|i: int| p <= i < k - 1 ==> f > #[trigger] l[i][1]
            &&& states::states(x.base, first, n) == Seq::new(
                n,
                |i: int|
                    if p < i <= k {
                        l[i - 1]
                    } else {
                        l[i]
                    },
            )
        }),
    decreases k,
{
    let l = states::states(m.base, first, n);
    let s = (first + 6 * k) as u32;
    let t = (s - STATE) as u32;
    assert(t == first + 6 * (k - 1));
    let a = rules::copy_state(m, s, t);
    states::lemma_lies(m.base, first, n);
    states::lemma_moved(m.base, first, n, k, k - 1);
    let la = states::states(a.base, first, n);
    states::lemma_lies(a.base, first, n);
    if k == 1 {
        assert(la =~= Seq::new(
            n,
            |i: int|
                if 0 < i <= k {
                    l[i - 1]
                } else {
                    l[i]
                },
        ));
        0
    } else {
        let u = t.wrapping_sub(STATE);
        assert(u == first + 6 * (k - 2));
        assert(rules::freq(a, u) == la[k - 2][1]);
        assert(la[k - 2] == l[k - 2]);
        if f <= rules::freq(a, u) {
            assert(la =~= Seq::new(
                n,
                |i: int|
                    if k - 1 < i <= k {
                        l[i - 1]
                    } else {
                        l[i]
                    },
            ));
            k - 1
        } else {
            let p = lemma_sink(a, first, n, k - 1, f);
            let (x, at) = rules::sink(m, s, first as u32, f);
            assert((x, at) == rules::sink(a, t, first as u32, f));
            assert(states::states(x.base, first, n) =~= Seq::new(
                n,
                |i: int|
                    if p < i <= k {
                        l[i - 1]
                    } else {
                        l[i]
                    },
            ));
            if p > 0 {
                assert(la[p - 1] == l[p - 1]);
            }
            assert forall|i: int| p <= i < k - 1 implies f > #[trigger] l[i][1] by {
                if i < k - 2 {
                    assert(la[i] == l[i]);
                    assert(f > la[i][1]);
                }
            }
            p
        }
    }
}

/// One more state is halved and put in its place.
#[verifier::spinoff_prover]
#[verifier::rlimit(40)]
proof fn lemma_halve_one(m: Model, first: int, n: nat, i: int, adder: u32)
    requires
        states::lies(m.base, first, n),
        1 <= i < n,
        adder <= 1,
    ensures
        ({
            let l = states::states(m.base, first, n);
            let t = (first + 6 * i) as u32;
            let s = (first + 6 * (i - 1)) as u32;
            let f = ((rules::freq(m, t) + adder) / 2) as u32;
            let a = rules::set_freq(m, t, f);
            let b = if rules::freq(a, t) > rules::freq(a, s) {
                let state = arena::state_at(a.base, t);
                let (x, at) = rules::sink(a, t, first as u32, state[1] as u32);
                Model { base: arena::with_state(x.base, at, state), ..x }
            } else {
                a
            };
            &&& rules::freq(m, t) == l[i][1]
            &&& rules::freq(a, t) == (l[i][1] + adder) / 2
            &&& only_base(m, b)
            &&& states::kept(m.base, b.base, first, first + 6 * n)
            &&& states::states(b.base, first, n) == states::ranked(
                l.take(i),
                states::halved(l[i], adder as int),
            ) + l.skip(i + 1)
        }),
{
    let l = states::states(m.base, first, n);
    let t = (first + 6 * i) as u32;
    let s = (first + 6 * (i - 1)) as u32;
    states::lemma_lies(m.base, first, n);
    assert(t.wrapping_add(1) == first + 6 * i + 1);
    assert(s.wrapping_add(1) == first + 6 * (i - 1) + 1);
    assert(rules::freq(m, t) == l[i][1]);
    let f = ((rules::freq(m, t) + adder) / 2) as u32;
    let a = rules::set_freq(m, t, f);
    states::lemma_counted(m.base, first, n, i, f as u8);
    let la = states::states(a.base, first, n);
    states::lemma_lies(a.base, first, n);
    let x = states::halved(l[i], adder as int);
    assert(l[i].len() == 6);
    assert(la[i] == x);
    assert(la[i - 1] == l[i - 1]);
    assert(la.take(i) =~= l.take(i));
    assert(la.skip(i + 1) =~= l.skip(i + 1));
    assert(rules::freq(a, t) == x[1]);
    assert(rules::freq(a, s) == l[i - 1][1]);
    let front = l.take(i);
    if rules::freq(a, t) > rules::freq(a, s) {
        let state = arena::state_at(a.base, t);
        assert(state == x);
        let (y, at) = rules::sink(a, t, first as u32, state[1] as u32);
        let p = lemma_sink(a, first, n, i, state[1] as u32);
        states::lemma_written(y.base, first, n, p, state);
        let b = Model { base: arena::with_state(y.base, at, state), ..y };
        if p > 0 {
            assert(front[p - 1] == la[p - 1]);
        }
        assert forall|k: int| p <= k < front.len() implies x[1] > #[trigger] front[k][1] by {
            assert(front[k] == la[k]);
        }
        states::lemma_ranked_at(front, x, p);
        assert(states::states(b.base, first, n) =~= front.take(p).push(x) + front.skip(p)
            + l.skip(i + 1));
    } else {
        assert(front.last() == l[i - 1]);
        assert(states::ranked(front, x) == front.push(x));
        assert(la =~= front.push(x) + l.skip(i + 1));
    }
}

/// All states are halved and put in their places.
proof fn lemma_halve(m: Model, first: int, n: nat, i: int, adder: u32, sum: u32, esc: u32)
    requires
        states::lies(m.base, first, n),
        1 <= i <= n <= 256,
        adder <= 1,
        states::total(states::states(m.base, first, n).skip(i)) <= esc,
        sum <= 0xffff,
    ensures
        ({
            let l = states::states(m.base, first, n);
            let rest = l.skip(i);
            let (e, last, sum1, esc1) = rules::halve(
                m,
                (first + 6 * (i - 1)) as u32,
                first as u32,
                (n - i) as u32,
                adder,
                sum,
                esc,
            );
            &&& only_base(m, e)
            &&& states::kept(m.base, e.base, first, first + 6 * n)
            &&& last == first + 6 * (n - 1)
            &&& sum1 == sum + states::halved_total(rest, adder as int)
            &&& esc1 == esc - states::total(rest)
            &&& states::states(e.base, first, n) == states::all_ranked(
                l.take(i),
                rest,
                adder as int,
            )
        }),
    decreases n - i,
{
    lemma_halve_from(m, first, n, i, adder, sum, esc);
}

#[verifier::spinoff_prover]
#[verifier::rlimit(40)]
proof fn lemma_halve_from(m: Model, first: int, n: nat, i: int, adder: u32, sum: u32, esc: u32)
    requires
        states::lies(m.base, first, n),
        1 <= i <= n <= 256,
        adder <= 1,
        states::total(states::states(m.base, first, n).skip(i)) <= esc,
        sum + 256 * (n - i) <= 0x2_0000,
    ensures
        ({
            let l = states::states(m.base, first, n);
            let rest = l.skip(i);
            let (e, last, sum1, esc1) = rules::halve(
                m,
                (first + 6 * (i - 1)) as u32,
                first as u32,
                (n - i) as u32,
                adder,
                sum,
                esc,
            );
            &&& only_base(m, e)
            &&& states::kept(m.base, e.base, first, first + 6 * n)
            &&& last == first + 6 * (n - 1)
            &&& sum1 == sum + states::halved_total(rest, adder as int)
            &&& esc1 == esc - states::total(rest)
            &&& states::states(e.base, first, n) == states::all_ranked(
                l.take(i),
                rest,
                adder as int,
            )
        }),
    decreases n - i,
{
    let l = states::states(m.base, first, n);
    let rest = l.skip(i);
    let s = (first + 6 * (i - 1)) as u32;
    if i == n {
        assert(l.take(i) =~= l);
        assert(rest =~= Seq::<Seq<u8>>::empty());
    } else {
        let t = s.wrapping_add(STATE);
        assert(t == first + 6 * i);
        lemma_halve_one(m, first, n, i, adder);
        let f = ((rules::freq(m, t) + adder) / 2) as u32;
        let a = rules::set_freq(m, t, f);
        let b = if rules::freq(a, t) > rules::freq(a, s) {
            let state = arena::state_at(a.base, t);
            let (x, at) = rules::sink(a, t, first as u32, state[1] as u32);
            Model { base: arena::with_state(x.base, at, state), ..x }
        } else {
            a
        };
        let lb = states::states(b.base, first, n);
        let x = states::halved(l[i], adder as int);
        states::lemma_lies(b.base, first, n);
        states::lemma_total(rest);
        states::lemma_halved_total(rest, adder as int);
        assert(rest[0] == l[i]);
        assert(rest.skip(1) =~= l.skip(i + 1));
        let front = states::ranked(l.take(i), x);
        lemma_ranked_len(l.take(i), x);
        assert(lb.take(i + 1) =~= front);
        assert(lb.skip(i + 1) =~= l.skip(i + 1));
        states::lemma_total_bound(rest.skip(1), adder as int);
        let sum2 = sum.wrapping_add(rules::freq(a, t));
        let esc2 = esc.wrapping_sub(rules::freq(m, t));
        lemma_halve_from(b, first, n, i + 1, adder, sum2, esc2);
    }
}

proof fn lemma_ranked_len(l: Seq<Seq<u8>>, x: Seq<u8>)
    ensures
        states::ranked(l, x).len() == l.len() + 1,
    decreases l.len(),
{
    if l.len() > 0 && x[1] > l.last()[1] {
        lemma_ranked_len(l.drop_last(), x);
    }
}

/// How many states are worn out.
proof fn lemma_worn_out(m: Model, first: int, n: nat, k: int, z: int, i: u32, fuel: u32)
    requires
        states::lies(m.base, first, n),
        1 <= z <= k < n <= 256,
        states::states(m.base, first, n)[z - 1][1] > 0,
        forall|q: int| z <= q <= k ==> #[trigger] states::states(m.base, first, n)[q][1] == 0,
        k - z <= fuel,
        i + fuel <= 0x1000,
    ensures
        rules::worn_out(m, (first + 6 * k) as u32, i, fuel) == i + (k - z + 1),
    decreases k,
{
    let l = states::states(m.base, first, n);
    let s = (first + 6 * k) as u32;
    let t = s.wrapping_sub(STATE);
    assert(t == first + 6 * (k - 1));
    states::lemma_lies(m.base, first, n);
    assert(rules::freq(m, t) == l[k - 1][1]);
    if k > z {
        assert(l[k - 1][1] == 0);
        lemma_worn_out(m, first, n, k - 1, z, (i + 1) as u32, (fuel - 1) as u32);
    }
}

/// The numbers of a context after writes elsewhere.
proof fn lemma_context_kept(a: Seq<u8>, b: Seq<u8>, mc: u32, lo: int, hi: int)
    requires
        states::kept(a, b, lo, hi),
        mc + 12 <= a.len(),
        apart(mc as int, 12, lo, hi - lo),
        a.len() <= 0xffff_ffff,
    ensures
        arena::get16(b, mc) == arena::get16(a, mc),
        arena::get16(b, mc.wrapping_add(2)) == arena::get16(a, mc.wrapping_add(2)),
        arena::get32(b, mc.wrapping_add(4)) == arena::get32(a, mc.wrapping_add(4)),
        arena::get32(b, mc.wrapping_add(8)) == arena::get32(a, mc.wrapping_add(8)),
{
}

/// Shrinking a block keeps the states that are left.
#[verifier::spinoff_prover]
#[verifier::rlimit(60)]
proof fn lemma_shrunk(g: Model, first: int, n: int, left: int)
    requires
        g.base.len() <= 0xffff_ffff,
        g.min_context + 12 <= g.base.len(),
        2 <= left < n <= 256,
        0 <= first,
        first + room(n) <= g.base.len(),
        apart(g.min_context as int, 12, first, room(n)),
        g.free_list.len() == INDEXES,
        forall|i: int|
            0 <= i < INDEXES && #[trigger] g.free_list[i] != 0 ==> {
                let size = 12 * arena::units_of(i);
                &&& g.free_list[i] + size <= g.base.len()
                &&& apart(g.min_context as int, 12, g.free_list[i] as int, size)
                &&& apart(first, room(n), g.free_list[i] as int, size)
            },
        (n + 1) / 2 != (left + 1) / 2,
    ensures
        ({
            let (x, at) = rules::shrink_units(
                g,
                first as u32,
                ((n + 1) / 2) as u32,
                ((left + 1) / 2) as u32,
            );
            &&& x.base.len() == g.base.len()
            &&& x.min_context == g.min_context
            &&& forall|i: int|
                g.min_context <= i < g.min_context + 12 ==> #[trigger] x.base[i] == g.base[i]
            &&& at + 6 * left <= g.base.len()
            &&& apart(g.min_context as int, 12, at as int, 6 * left)
            &&& states::states(x.base, at as int, left as nat) == states::states(
                g.base,
                first,
                left as nat,
            )
        }),
{
    reveal(rules::shrink_units);
    let n0 = ((n + 1) / 2) as u32;
    let n1 = ((left + 1) / 2) as u32;
    let i0 = arena::index_of(n0);
    let i1 = arena::index_of(n1);
    states::lemma_units(n0);
    states::lemma_units(n1);
    let (x, at) = rules::shrink_units(g, first as u32, n0, n1);
    let want = states::states(g.base, first, left as nat);
    assert(6 * left <= 12 * n1);
    assert(n1 < n0);
    if i0 == i1 {
    } else if rules::first_free(g, i1) != 0 {
        let ptr = rules::first_free(g, i1);
        assert(g.free_list[i1] == ptr);
        let r = rules::remove_node(g, i1);
        let bytes = n1.wrapping_mul(UNIT_SIZE);
        assert(bytes == 12 * n1);
        let c = rules::copy_units(r, ptr, first as u32, n1);
        assert(x.base == arena::put32(c.base, first as u32, c.free_list[i0]));
        assert forall|k: int| 0 <= k < left implies states::states(
            x.base,
            ptr as int,
            left as nat,
        )[k] == #[trigger] want[k] by {
            assert(x.base.subrange(ptr + 6 * k, ptr + 6 * k + 6) =~= g.base.subrange(
                first + 6 * k,
                first + 6 * k + 6,
            ));
        }
        assert(states::states(x.base, ptr as int, left as nat) =~= want);
    } else {
        reveal(rules::place_units);
        lemma_index_falls(n0, n1);
        let used = arena::units_of(i1);
        let nu = arena::units_of(i0).wrapping_sub(used);
        assert(used < arena::units_of(i0));
        let ptr = (first as u32).wrapping_add(used.wrapping_mul(UNIT_SIZE));
        assert(ptr == first + 12 * used);
        assert(x == rules::place_units(g, ptr, nu));
        lemma_placed(g, ptr, nu);
        states::lemma_same(g.base, x.base, first, left as nat);
    }
}

/// Fewer units are in a smaller block.
proof fn lemma_index_falls(n0: u32, n1: u32)
    requires
        1 <= n1 < n0 <= 128,
        arena::index_of(n0) != arena::index_of(n1),
    ensures
        arena::units_of(arena::index_of(n1)) < arena::units_of(arena::index_of(n0)),
        arena::units_of(arena::index_of(n0)) - arena::units_of(arena::index_of(n1)) <= 127,
{
}

/// Freed units are written nowhere else.
proof fn lemma_placed(m: Model, at: u32, nu: u32)
    requires
        1 <= nu <= 127,
        at + 12 * nu <= m.base.len() <= 0xffff_ffff,
        m.free_list.len() == INDEXES,
    ensures
        ({
            let x = rules::place_units(m, at, nu);
            &&& states::kept(m.base, x.base, at as int, at + 12 * nu)
            &&& x.min_context == m.min_context
        }),
{
    reveal(rules::place_units);
    states::lemma_units(nu);
    let i = arena::index_of(nu);
    if arena::units_of(i) != nu {
        let j = if i > 0 {
            i - 1
        } else {
            0
        };
        let k = arena::units_of(j);
        assert(1 <= k < nu);
        assert(k.wrapping_mul(UNIT_SIZE) == 12 * k);
        assert(at.wrapping_add(k.wrapping_mul(UNIT_SIZE)) == at + 12 * k);
    }
}

/// What a context is after it was rescaled. The frequency of the symbol found
/// gains four. Then all are halved, rounded up unless the model is at its full
/// order, and put in order, the symbol found before others like it. A symbol
/// that has no frequency left is dropped. Where two or more are left, the sum
/// of the context is the sum of their frequencies and half of what was set
/// aside for others, rounded up: that is what the sum exceeded the frequencies
/// by, and one for each symbol dropped. One that is left alone moves into the
/// context itself.
#[verifier::spinoff_prover]
#[verifier::rlimit(100)]
pub proof fn lemma_rescaled(m: Model, j: int)
    requires
        in_order(m, j),
    ensures
        ({
            let mc = m.min_context;
            let r = rules::rescale(m);
            let n = rules::num_stats(m, mc);
            let l = states::states(m.base, rules::stats(m, mc) as int, n as nat);
            let adder: int = if m.order_fall != 0 {
                1
            } else {
                0
            };
            let t = states::rescaled(l, j, adder);
            let left = states::alive(t);
            let e = rules::summ_freq(m, mc) - states::total(l) + (n - left);
            &&& r.min_context == mc
            &&& rules::suffix(r, mc) == rules::suffix(m, mc)
            &&& 1 <= left <= n
            &&& states::falling(t)
            &&& rules::num_stats(r, mc) == left
            &&& left >= 2 ==> {
                let s = states::states(r.base, rules::stats(r, mc) as int, left as nat);
                &&& s == t.take(left as int)
                &&& rules::summ_freq(r, mc) == states::total(s) + (e + 1) / 2
                &&& r.found_state == rules::stats(r, mc)
            }
            &&& left == 1 ==> {
                &&& r.base.subrange(mc + 2, mc + 8) == t[0].update(1, alone(t[0][1] as int, e) as u8)
                &&& r.found_state == mc + 2
            }
        }),
{
    reveal(rules::rescale);
    let mc = m.min_context;
    let first = rules::stats(m, mc);
    let n = rules::num_stats(m, mc) as nat;
    let f0 = first as int;
    let l = states::states(m.base, f0, n);
    let summ = rules::summ_freq(m, mc);
    let adder = rules::flag(m.order_fall != 0);
    let size = room(n as int);
    states::lemma_units(((n + 1) / 2) as u32);
    assert(6 * n <= size);
    assert(states::lies(m.base, f0, n));
    states::lemma_lies(m.base, f0, n);
    let state = arena::state_at(m.base, m.found_state);
    assert(state == l[j]);
    states::lemma_fronted(l, j);
    let fr = states::fronted(l, j);
    let a = if m.found_state > first {
        let x = rules::shift_states(m, m.found_state, first);
        Model { base: arena::with_state(x.base, first, state), ..x }
    } else {
        m
    };
    let la = states::states(a.base, f0, n);
    assert(la == fr && only_base(m, a) && states::kept(m.base, a.base, f0, f0 + 6 * n)) by {
        if j > 0 {
            lemma_shift(m, f0, n, j);
            let x = rules::shift_states(m, m.found_state, first);
            states::lemma_written(x.base, f0, n, 0, state);
            assert(la =~= fr);
        } else {
            assert(l =~= fr);
        }
    }
    lemma_context_kept(m.base, a.base, mc, f0, f0 + 6 * n);
    states::lemma_lies(a.base, f0, n);
    assert(first.wrapping_add(1) == f0 + 1);
    assert(rules::freq(a, first) == fr[0][1]);
    states::lemma_total(fr);
    let esc0 = rules::summ_freq(a, mc).wrapping_sub(rules::freq(a, first));
    states::lemma_total_bound(fr.skip(1), adder as int);
    assert(esc0 == summ - fr[0][1]);
    let b = rules::set_freq(a, first, (rules::freq(a, first) + 4) as u32);
    states::lemma_counted(a.base, f0, n, 0, (fr[0][1] + 4) as u8);
    let lb = states::states(b.base, f0, n);
    states::lemma_lies(b.base, f0, n);
    let x0 = fr[0].update(1, (fr[0][1] + 4) as u8);
    assert(fr[0].len() == 6);
    assert(lb[0] == x0);
    let d = rules::set_freq(b, first, ((rules::freq(b, first) + adder) / 2) as u32);
    let v = ((x0[1] + adder) / 2) as u8;
    assert(rules::freq(b, first) == x0[1]);
    states::lemma_counted(b.base, f0, n, 0, v);
    let ld = states::states(d.base, f0, n);
    states::lemma_lies(d.base, f0, n);
    let h0 = states::halved(x0, adder as int);
    assert(ld[0] == h0);
    assert(ld.take(1) =~= seq![h0]);
    assert(ld.skip(1) =~= fr.skip(1));
    assert(states::kept(m.base, d.base, f0, f0 + 6 * n));
    lemma_context_kept(m.base, d.base, mc, f0, f0 + 6 * n);
    assert(rules::freq(d, first) == h0[1]);
    lemma_halve(d, f0, n, 1, adder, rules::freq(d, first), esc0);
    let k = rules::num_stats(d, mc).wrapping_sub(1);
    assert(k == n - 1);
    let (e, last, sum, esc) = rules::halve(
        d,
        first,
        first,
        k,
        adder,
        rules::freq(d, first),
        esc0,
    );
    let t = states::all_ranked(seq![h0], fr.skip(1), adder as int);
    assert(t == states::rescaled(l, j, adder as int));
    assert(states::states(e.base, f0, n) == t);
    assert forall|i: int| 0 <= i < fr.skip(1).len() implies (#[trigger] fr.skip(1)[i]).len() == 6 by {
        assert(fr[i + 1].len() == 6);
    }
    states::lemma_all_ranked(seq![h0], fr.skip(1), adder as int);
    assert(seq![h0].drop_last() =~= Seq::<Seq<u8>>::empty());
    assert(states::total(seq![h0]) == h0[1]) by {
        reveal_with_fuel(states::total, 2);
    }
    assert(sum == states::total(t));
    assert(esc == summ - states::total(l));
    assert(states::kept(m.base, e.base, f0, f0 + 6 * n));
    lemma_context_kept(m.base, e.base, mc, f0, f0 + 6 * n);
    states::lemma_lies(e.base, f0, n);
    assert(rules::freq(e, last) == t[n - 1][1]) by {
        assert(last.wrapping_add(1) == f0 + 6 * (n - 1) + 1);
    }
    let z = states::lemma_worn(t);
    states::lemma_alive(t, z);
    assert(h0[1] >= 2);
    assert(t[0][1] > 0);
    assert(z >= 1) by {
        if z < 1 {
            assert(t[0][1] == 0);
        }
    }
    states::lemma_total_bound(t, adder as int);
    states::lemma_total_bound(fr, adder as int);
    assert(2 * states::total(t) <= states::total(l) + n + 4);
    if rules::freq(e, last) == 0 {
        assert(z < n) by {
            if z == n {
                assert(t[n - 1][1] > 0);
            }
        }
        assert(t[z - 1][1] > 0);
        lemma_worn_out(e, f0, n, n - 1, z, 0, 256);
        let gone = rules::worn_out(e, last, 0, 256);
        assert(gone == n - z);
        let left = rules::num_stats(e, mc).wrapping_sub(gone);
        assert(left == z);
        let g = rules::set_num_stats(e, mc, left);
        let esc1 = esc.wrapping_add(gone);
        lemma_finished(m, e, g, f0, n, z, sum, esc1, t);
    } else {
        assert(z == n) by {
            if z < n {
                assert(t[n - 1][1] == 0);
            }
        }
        assert(t.take(z) =~= t);
        lemma_settled(e, f0, n, sum, esc);
    }
}

/// A context gets its sum.
proof fn lemma_settled(h: Model, first: int, left: nat, sum: u32, esc: u32)
    requires
        h.base.len() <= 0xffff_ffff,
        h.min_context + 12 <= h.base.len(),
        rules::stats(h, h.min_context) == first,
        first + 6 * left <= h.base.len(),
        apart(h.min_context as int, 12, first, 6 * left as int),
        sum + (esc + 1) / 2 <= 0xffff,
    ensures
        ({
            let r = rules::settle(h, sum, esc);
            let mc = h.min_context;
            &&& r.min_context == mc
            &&& rules::suffix(r, mc) == rules::suffix(h, mc)
            &&& rules::num_stats(r, mc) == rules::num_stats(h, mc)
            &&& rules::stats(r, mc) == first
            &&& rules::summ_freq(r, mc) == sum + (esc + 1) / 2
            &&& r.found_state == first
            &&& states::states(r.base, first, left) == states::states(h.base, first, left)
        }),
{
    let r = rules::settle(h, sum, esc);
    let mc = h.min_context;
    let v = sum.wrapping_add(esc).wrapping_sub(esc / 2);
    assert(v == sum + (esc + 1) / 2);
    assert(mc.wrapping_add(2) == mc + 2);
    assert(mc.wrapping_add(4) == mc + 4);
    assert(mc.wrapping_add(8) == mc + 8);
    states::lemma_same(h.base, r.base, first, left);
}

/// The states that have a frequency are left.
#[verifier::spinoff_prover]
#[verifier::rlimit(60)]
proof fn lemma_finished(
    m: Model,
    e: Model,
    g: Model,
    first: int,
    n: nat,
    z: int,
    sum: u32,
    esc1: u32,
    t: Seq<Seq<u8>>,
)
    requires
        m.base.len() <= 0xffff_ffff,
        m.min_context + 12 <= m.base.len(),
        2 <= n <= 256,
        1 <= z < n,
        0 <= first,
        first + room(n as int) <= m.base.len(),
        apart(m.min_context as int, 12, first, room(n as int)),
        m.free_list.len() == INDEXES,
        forall|i: int|
            0 <= i < INDEXES && #[trigger] m.free_list[i] != 0 ==> {
                let size = 12 * arena::units_of(i);
                &&& m.free_list[i] + size <= m.base.len()
                &&& apart(m.min_context as int, 12, m.free_list[i] as int, size)
                &&& apart(first, room(n as int), m.free_list[i] as int, size)
            },
        only_base(m, e),
        e.base.len() == m.base.len(),
        rules::num_stats(e, m.min_context) == n,
        rules::stats(e, m.min_context) == first,
        rules::suffix(e, m.min_context) == rules::suffix(m, m.min_context),
        g == rules::set_num_stats(e, m.min_context, z as u32),
        states::states(e.base, first, n) == t,
        t.len() == n,
        sum + (esc1 + 1) / 2 <= 0xffff,
    ensures
        ({
            let mc = m.min_context;
            let n0 = ((n + 1) / 2) as u32;
            let r = if z == 1 {
                let f = rules::halved_alone(rules::freq(g, first as u32), esc1);
                let one = rules::one_state(mc);
                rules::insert_node(
                    Model {
                        found_state: one,
                        ..rules::set_freq(rules::copy_state(g, one, first as u32), one, f)
                    },
                    first as u32,
                    arena::index_of(n0),
                )
            } else {
                let n1 = (z as u32).wrapping_add(1) / 2;
                let h = if n0 != n1 {
                    let (x, at) = rules::shrink_units(g, first as u32, n0, n1);
                    rules::set_stats(x, mc, at)
                } else {
                    g
                };
                rules::settle(h, sum, esc1)
            };
            &&& r.min_context == mc
            &&& rules::suffix(r, mc) == rules::suffix(m, mc)
            &&& rules::num_stats(r, mc) == z
            &&& z >= 2 ==> {
                &&& states::states(r.base, rules::stats(r, mc) as int, z as nat) == t.take(z)
                &&& rules::summ_freq(r, mc) == sum + (esc1 + 1) / 2
                &&& r.found_state == rules::stats(r, mc)
            }
            &&& z == 1 ==> {
                &&& r.base.subrange(mc + 2, mc + 8) == t[0].update(
                    1,
                    alone(t[0][1] as int, esc1 as int) as u8,
                )
                &&& r.found_state == mc + 2
            }
        }),
{
    let mc = m.min_context;
    states::lemma_units(((n + 1) / 2) as u32);
    assert(mc.wrapping_add(2) == mc + 2);
    assert(mc.wrapping_add(4) == mc + 4);
    assert(mc.wrapping_add(8) == mc + 8);
    assert(rules::num_stats(g, mc) == z);
    assert(states::states(g.base, first, z as nat) =~= t.take(z)) by {
        states::lemma_same(e.base, g.base, first, n);
        assert forall|i: int| 0 <= i < z implies states::states(g.base, first, z as nat)[i]
            == #[trigger] t.take(z)[i] by {
            assert(states::states(g.base, first, n)[i] == t[i]);
        }
    }
    let n0 = ((n + 1) / 2) as u32;
    if z == 1 {
        let one = rules::one_state(mc);
        assert(one == mc + 2);
        states::lemma_lies(g.base, first, z as nat);
        assert(states::states(g.base, first, z as nat)[0] == t[0]);
        assert(rules::freq(g, first as u32) == t[0][1]) by {
            assert((first as u32).wrapping_add(1) == first + 1);
        }
        let f = rules::halved_alone(rules::freq(g, first as u32), esc1);
        lemma_alone(t[0][1] as u32, esc1);
        let c = rules::copy_state(g, one, first as u32);
        let d = rules::set_freq(c, one, f);
        assert(one.wrapping_add(1) == mc + 3);
        let r = rules::insert_node(
            Model { found_state: one, ..d },
            first as u32,
            arena::index_of(n0),
        );
        let want = t[0].update(1, f as u8);
        assert(t[0].len() == 6);
        assert forall|i: int| 0 <= i < 6 implies r.base[mc + 2 + i] == #[trigger] want[i] by {
            assert(g.base[first + i] == t[0][i]) by {
                assert(g.base.subrange(first, first + 6)[i] == t[0][i]);
            }
            assert(c.base[mc + 2 + i] == t[0][i]);
        }
        assert(r.base.subrange(mc + 2, mc + 8) =~= want);
    } else {
        let n1 = (z as u32).wrapping_add(1) / 2;
        if n0 != n1 {
            lemma_shrunk(g, first, n as int, z);
            let (x, at) = rules::shrink_units(g, first as u32, n0, n1);
            let h = rules::set_stats(x, mc, at);
            states::lemma_same(x.base, h.base, at as int, z as nat);
            lemma_settled(h, at as int, z as nat, sum, esc1);
        } else {
            lemma_settled(g, first, z as nat, sum, esc1);
        }
    }
}

} // verus!
