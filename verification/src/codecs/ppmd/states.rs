//! The states of a context as a list, and how frequencies are halved.
use crate::codecs::ppmd::arena;
use vstd::prelude::*;

verus! {

/// The states from `first` on: a symbol, its frequency, and four bytes more.
pub open spec fn states(b: Seq<u8>, first: int, n: nat) -> Seq<Seq<u8>> {
    Seq::new(n, |k: int| b.subrange(first + 6 * k, first + 6 * k + 6))
}

/// Whether only bytes from `lo` to `hi` differ.
pub open spec fn kept(a: Seq<u8>, b: Seq<u8>, lo: int, hi: int) -> bool {
    &&& a.len() == b.len()
    &&& forall|i: int| 0 <= i < a.len() && !(lo <= i < hi) ==> #[trigger] b[i] == a[i]
}

/// Whether states lie in memory.
pub open spec fn lies(b: Seq<u8>, first: int, n: nat) -> bool {
    0 <= first && first + 6 * n <= b.len() <= 0xffff_ffff
}

/// A state with its frequency halved, rounded up if `adder` is one.
pub open spec fn halved(x: Seq<u8>, adder: int) -> Seq<u8> {
    x.update(1, ((x[1] + adder) / 2) as u8)
}

/// A state put behind all that are as frequent, before those less frequent at
/// the end.
pub open spec fn ranked(l: Seq<Seq<u8>>, x: Seq<u8>) -> Seq<Seq<u8>>
    decreases l.len(),
{
    if l.len() == 0 || x[1] <= l.last()[1] {
        l.push(x)
    } else {
        ranked(l.drop_last(), x).push(l.last())
    }
}

/// States halved and put in their places, one after the other.
pub open spec fn all_ranked(l: Seq<Seq<u8>>, rest: Seq<Seq<u8>>, adder: int) -> Seq<Seq<u8>>
    decreases rest.len(),
{
    if rest.len() == 0 {
        l
    } else {
        all_ranked(ranked(l, halved(rest[0], adder)), rest.skip(1), adder)
    }
}

/// How frequent states are together.
pub open spec fn total(l: Seq<Seq<u8>>) -> int
    decreases l.len(),
{
    if l.len() == 0 {
        0
    } else {
        total(l.drop_last()) + l.last()[1]
    }
}

/// The same with every frequency halved.
pub open spec fn halved_total(l: Seq<Seq<u8>>, adder: int) -> int
    decreases l.len(),
{
    if l.len() == 0 {
        0
    } else {
        halved_total(l.drop_last(), adder) + (l.last()[1] + adder) / 2
    }
}

/// Whether none is more frequent than one before it.
pub open spec fn falling(l: Seq<Seq<u8>>) -> bool {
    forall|i: int, j: int| 0 <= i < j < l.len() ==> #[trigger] l[i][1] >= #[trigger] l[j][1]
}

/// Whether each state has six bytes.
pub open spec fn shaped(l: Seq<Seq<u8>>) -> bool {
    forall|i: int| 0 <= i < l.len() ==> (#[trigger] l[i]).len() == 6
}

/// One of the states in front of the others.
pub open spec fn fronted(l: Seq<Seq<u8>>, j: int) -> Seq<Seq<u8>> {
    seq![l[j]] + l.take(j) + l.skip(j + 1)
}

/// How many states have a frequency left.
pub open spec fn alive(l: Seq<Seq<u8>>) -> nat
    decreases l.len(),
{
    if l.len() == 0 {
        0
    } else {
        alive(l.drop_last()) + if l.last()[1] > 0 {
            1nat
        } else {
            0
        }
    }
}

/// What the states of a context become: the one found gains four and comes
/// first, all are halved, and they are put in order.
pub open spec fn rescaled(l: Seq<Seq<u8>>, j: int, adder: int) -> Seq<Seq<u8>> {
    let f = fronted(l, j);
    let x = f[0].update(1, (f[0][1] + 4) as u8);
    all_ranked(seq![halved(x, adder)], f.skip(1), adder)
}

pub proof fn lemma_lies(b: Seq<u8>, first: int, n: nat)
    requires
        lies(b, first, n),
    ensures
        states(b, first, n).len() == n,
        shaped(states(b, first, n)),
        forall|k: int|
            0 <= k < n ==> arena::state_at(b, (first + 6 * k) as u32) == #[trigger] states(
                b,
                first,
                n,
            )[k],
        forall|k: int|
            0 <= k < n ==> arena::get8(b, (first + 6 * k + 1) as u32) == #[trigger] states(
                b,
                first,
                n,
            )[k][1],
{
}

/// Bytes that did not change hold the same states.
pub proof fn lemma_same(a: Seq<u8>, b: Seq<u8>, first: int, n: nat)
    requires
        lies(a, first, n),
        a.len() == b.len(),
        forall|i: int| first <= i < first + 6 * n ==> #[trigger] b[i] == a[i],
    ensures
        states(b, first, n) == states(a, first, n),
{
    assert forall|k: int| 0 <= k < n implies states(b, first, n)[k] == states(a, first, n)[k] by {
        assert(b.subrange(first + 6 * k, first + 6 * k + 6) =~= a.subrange(
            first + 6 * k,
            first + 6 * k + 6,
        ));
    }
    assert(states(b, first, n) =~= states(a, first, n));
}

/// A state written.
pub proof fn lemma_written(b: Seq<u8>, first: int, n: nat, k: int, x: Seq<u8>)
    requires
        lies(b, first, n),
        0 <= k < n,
        x.len() == 6,
    ensures
        ({
            let c = arena::with_state(b, (first + 6 * k) as u32, x);
            &&& states(c, first, n) == states(b, first, n).update(k, x)
            &&& kept(b, c, first, first + 6 * n)
        }),
{
    let c = arena::with_state(b, (first + 6 * k) as u32, x);
    let l = states(b, first, n);
    assert forall|i: int| 0 <= i < n implies states(c, first, n)[i] == #[trigger] l.update(k, x)[i] by {
        assert(c.subrange(first + 6 * i, first + 6 * i + 6) =~= l.update(k, x)[i]);
    }
    assert(states(c, first, n) =~= l.update(k, x));
}

/// A state copied over another.
pub proof fn lemma_moved(b: Seq<u8>, first: int, n: nat, k: int, j: int)
    requires
        lies(b, first, n),
        0 <= k < n,
        0 <= j < n,
    ensures
        ({
            let c = arena::copied(b, (first + 6 * k) as u32, (first + 6 * j) as u32, 6);
            &&& states(c, first, n) == states(b, first, n).update(k, states(b, first, n)[j])
            &&& kept(b, c, first, first + 6 * n)
        }),
{
    let c = arena::copied(b, (first + 6 * k) as u32, (first + 6 * j) as u32, 6);
    let l = states(b, first, n);
    let x = l[j];
    assert forall|i: int| 0 <= i < n implies states(c, first, n)[i] == #[trigger] l.update(k, x)[i] by {
        assert(c.subrange(first + 6 * i, first + 6 * i + 6) =~= l.update(k, x)[i]);
    }
    assert(states(c, first, n) =~= l.update(k, x));
}

/// A frequency written.
pub proof fn lemma_counted(b: Seq<u8>, first: int, n: nat, k: int, v: u8)
    requires
        lies(b, first, n),
        0 <= k < n,
    ensures
        ({
            let c = arena::put8(b, (first + 6 * k + 1) as u32, v);
            &&& states(c, first, n) == states(b, first, n).update(
                k,
                states(b, first, n)[k].update(1, v),
            )
            &&& kept(b, c, first, first + 6 * n)
        }),
{
    let c = arena::put8(b, (first + 6 * k + 1) as u32, v);
    let l = states(b, first, n);
    let m = l.update(k, l[k].update(1, v));
    assert forall|i: int| 0 <= i < n implies states(c, first, n)[i] == #[trigger] m[i] by {
        assert(c.subrange(first + 6 * i, first + 6 * i + 6) =~= m[i]);
    }
    assert(states(c, first, n) =~= m);
}

/// Where a state is put.
pub proof fn lemma_ranked_at(l: Seq<Seq<u8>>, x: Seq<u8>, p: int)
    requires
        0 <= p <= l.len(),
        p > 0 ==> x[1] <= l[p - 1][1],
        forall|i: int| p <= i < l.len() ==> x[1] > #[trigger] l[i][1],
    ensures
        ranked(l, x) == l.take(p).push(x) + l.skip(p),
    decreases l.len(),
{
    if p == l.len() {
        assert(l.take(p).push(x) + l.skip(p) =~= l.push(x));
        if l.len() > 0 {
            assert(l.last() == l[p - 1]);
        }
    } else {
        let d = l.drop_last();
        assert(l.last() == l[l.len() - 1]);
        lemma_ranked_at(d, x, p);
        assert(d.take(p) =~= l.take(p));
        assert((l.take(p).push(x) + d.skip(p)).push(l.last()) =~= l.take(p).push(x) + l.skip(p));
    }
}

/// What putting a state in its place keeps.
pub proof fn lemma_ranked(l: Seq<Seq<u8>>, x: Seq<u8>)
    requires
        shaped(l),
        x.len() == 6,
        falling(l),
    ensures
        ranked(l, x).len() == l.len() + 1,
        shaped(ranked(l, x)),
        falling(ranked(l, x)),
        total(ranked(l, x)) == total(l) + x[1],
        alive(ranked(l, x)) == alive(l) + if x[1] > 0 {
            1nat
        } else {
            0
        },
        forall|i: int|
            0 <= i < l.len() + 1 ==> l.len() > 0 && x[1] <= l[0][1] ==> (#[trigger] ranked(l, x)[i])[1]
                <= l[0][1],
        l.len() > 0 && x[1] <= l[0][1] ==> ranked(l, x)[0][1] == l[0][1],
        l.len() > 0 && x[1] > l[0][1] ==> ranked(l, x)[0] == x,
    decreases l.len(),
{
    let r = ranked(l, x);
    if l.len() == 0 || x[1] <= l.last()[1] {
        assert(r.drop_last() =~= l);
        assert forall|i: int, j: int| 0 <= i < j < r.len() implies #[trigger] r[i][1]
            >= #[trigger] r[j][1] by {
            if j == l.len() {
                if i < l.len() - 1 {
                    assert(l[i][1] >= l[l.len() - 1][1]);
                }
            } else {
                assert(l[i][1] >= l[j][1]);
            }
        }
        if l.len() > 1 {
            assert(l[0][1] >= l[l.len() - 1][1]);
        }
    } else {
        let d = l.drop_last();
        assert forall|i: int, j: int| 0 <= i < j < d.len() implies #[trigger] d[i][1]
            >= #[trigger] d[j][1] by {
            assert(l[i][1] >= l[j][1]);
        }
        lemma_ranked(d, x);
        let q = ranked(d, x);
        assert(r.drop_last() =~= q);
        let y = l.last();
        assert forall|i: int| 0 <= i < q.len() implies #[trigger] q[i][1] >= y[1] by {
            lemma_ranked_among(d, x, i);
            if exists|k: int| 0 <= k < d.len() && d[k] == q[i] {
                let k = choose|k: int| 0 <= k < d.len() && d[k] == q[i];
                assert(l[k][1] >= l[l.len() - 1][1]);
            }
        }
        assert forall|i: int, j: int| 0 <= i < j < r.len() implies #[trigger] r[i][1]
            >= #[trigger] r[j][1] by {
            if j < q.len() {
                assert(q[i][1] >= q[j][1]);
            } else {
                assert(q[i][1] >= y[1]);
            }
        }
        assert forall|i: int| 0 <= i < r.len() implies (#[trigger] r[i]).len() == 6 by {
            if i < q.len() {
                assert(r[i] == q[i]);
            }
        }
        assert(r[0] == q[0]);
        if d.len() > 0 {
            assert(d[0] == l[0]);
            assert(l[0][1] >= l[l.len() - 1][1]);
        }
        if x[1] <= l[0][1] {
            assert(d.len() > 0);
            assert forall|i: int| 0 <= i < r.len() implies (#[trigger] r[i])[1] <= l[0][1] by {
                if i < q.len() {
                    assert(r[i] == q[i]);
                }
            }
        }
    }
}

/// What stands in a list after a state was put into it.
proof fn lemma_ranked_among(l: Seq<Seq<u8>>, x: Seq<u8>, i: int)
    requires
        0 <= i < ranked(l, x).len(),
    ensures
        ranked(l, x)[i] == x || exists|k: int| 0 <= k < l.len() && l[k] == ranked(l, x)[i],
    decreases l.len(),
{
    let r = ranked(l, x);
    if l.len() == 0 || x[1] <= l.last()[1] {
        if i < l.len() {
            assert(l[i] == r[i]);
        }
    } else {
        let d = l.drop_last();
        let q = ranked(d, x);
        if i < q.len() {
            lemma_ranked_among(d, x, i);
            if q[i] != x {
                let k = choose|k: int| 0 <= k < d.len() && d[k] == q[i];
                assert(l[k] == r[i]);
            }
        } else {
            assert(l[l.len() - 1] == r[i]);
        }
    }
}

/// What halving and ordering states keeps.
pub proof fn lemma_all_ranked(l: Seq<Seq<u8>>, rest: Seq<Seq<u8>>, adder: int)
    requires
        shaped(l),
        shaped(rest),
        falling(l),
        0 <= adder <= 1,
        l.len() > 0,
    ensures
        ({
            let r = all_ranked(l, rest, adder);
            &&& r.len() == l.len() + rest.len()
            &&& shaped(r)
            &&& falling(r)
            &&& total(r) == total(l) + halved_total(rest, adder)
            &&& r[0][1] >= l[0][1]
        }),
    decreases rest.len(),
{
    if rest.len() > 0 {
        let x = halved(rest[0], adder);
        assert(rest[0].len() == 6);
        lemma_ranked(l, x);
        let more = rest.skip(1);
        assert forall|i: int| 0 <= i < more.len() implies (#[trigger] more[i]).len() == 6 by {
            assert(rest[i + 1].len() == 6);
        }
        lemma_all_ranked(ranked(l, x), more, adder);
        lemma_halved_total(rest, adder);
    }
}

/// The first counts as well as the last.
pub proof fn lemma_halved_total(l: Seq<Seq<u8>>, adder: int)
    requires
        l.len() > 0,
    ensures
        halved_total(l, adder) == (l[0][1] + adder) / 2 + halved_total(l.skip(1), adder),
    decreases l.len(),
{
    if l.len() == 1 {
        assert(l.drop_last() =~= Seq::<Seq<u8>>::empty());
        assert(l.skip(1) =~= Seq::<Seq<u8>>::empty());
    } else {
        lemma_halved_total(l.drop_last(), adder);
        assert(l.drop_last().skip(1) =~= l.skip(1).drop_last());
        assert(l.skip(1).last() == l.last());
    }
}

/// The first counts as well as the last.
pub proof fn lemma_total(l: Seq<Seq<u8>>)
    requires
        l.len() > 0,
    ensures
        total(l) == l[0][1] + total(l.skip(1)),
    decreases l.len(),
{
    if l.len() == 1 {
        assert(l.drop_last() =~= Seq::<Seq<u8>>::empty());
        assert(l.skip(1) =~= Seq::<Seq<u8>>::empty());
    } else {
        lemma_total(l.drop_last());
        assert(l.drop_last().skip(1) =~= l.skip(1).drop_last());
        assert(l.skip(1).last() == l.last());
    }
}

/// Frequencies are not negative, nor large.
pub proof fn lemma_total_bound(l: Seq<Seq<u8>>, adder: int)
    requires
        0 <= adder <= 1,
    ensures
        0 <= total(l) <= 255 * l.len(),
        0 <= halved_total(l, adder) <= 128 * l.len(),
        2 * halved_total(l, adder) <= total(l) + l.len(),
    decreases l.len(),
{
    if l.len() > 0 {
        lemma_total_bound(l.drop_last(), adder);
    }
}

/// Two lists after one another.
pub proof fn lemma_total_concat(a: Seq<Seq<u8>>, b: Seq<Seq<u8>>)
    ensures
        total(a + b) == total(a) + total(b),
    decreases b.len(),
{
    if b.len() == 0 {
        assert(a + b =~= a);
    } else {
        assert((a + b).drop_last() =~= a + b.drop_last());
        lemma_total_concat(a, b.drop_last());
    }
}

/// Which one comes first makes no difference to the total.
pub proof fn lemma_fronted(l: Seq<Seq<u8>>, j: int)
    requires
        0 <= j < l.len(),
        shaped(l),
    ensures
        fronted(l, j).len() == l.len(),
        shaped(fronted(l, j)),
        total(fronted(l, j)) == total(l),
        fronted(l, j)[0] == l[j],
{
    let one = seq![l[j]];
    let f = fronted(l, j);
    lemma_total_concat(one + l.take(j), l.skip(j + 1));
    lemma_total_concat(one, l.take(j));
    lemma_total_concat(l.take(j), one);
    lemma_total_concat(l.take(j) + one, l.skip(j + 1));
    assert(l.take(j) + one + l.skip(j + 1) =~= l);
    assert forall|i: int| 0 <= i < f.len() implies (#[trigger] f[i]).len() == 6 by {
        if 1 <= i <= j {
            assert(f[i] == l[i - 1]);
        } else if i > j {
            assert(f[i] == l[i]);
        }
    }
}

/// Of a falling list those alive stand first.
pub proof fn lemma_alive(l: Seq<Seq<u8>>, z: int)
    requires
        0 <= z <= l.len(),
        forall|i: int| 0 <= i < z ==> #[trigger] l[i][1] > 0,
        forall|i: int| z <= i < l.len() ==> #[trigger] l[i][1] == 0,
    ensures
        alive(l) == z,
        total(l.take(z)) == total(l),
    decreases l.len(),
{
    if l.len() > 0 {
        let d = l.drop_last();
        assert(l.last() == l[l.len() - 1]);
        if z == l.len() {
            lemma_alive(d, z - 1);
            assert(l.take(z) =~= l);
        } else {
            lemma_alive(d, z);
            assert(d.take(z) =~= l.take(z));
        }
    } else {
        assert(l.take(z) =~= l);
    }
}

/// Where the states of a falling list that have no frequency begin.
pub proof fn lemma_worn(l: Seq<Seq<u8>>) -> (z: int)
    requires
        falling(l),
    ensures
        0 <= z <= l.len(),
        forall|i: int| 0 <= i < z ==> #[trigger] l[i][1] > 0,
        forall|i: int| z <= i < l.len() ==> #[trigger] l[i][1] == 0,
        alive(l) == z,
    decreases l.len(),
{
    if l.len() == 0 {
        0
    } else {
        let d = l.drop_last();
        assert forall|i: int, j: int| 0 <= i < j < d.len() implies #[trigger] d[i][1]
            >= #[trigger] d[j][1] by {
            assert(l[i][1] >= l[j][1]);
        }
        if l.last()[1] == 0 {
            let z = lemma_worn(d);
            assert forall|i: int| 0 <= i < z implies #[trigger] l[i][1] > 0 by {
                assert(d[i][1] > 0);
            }
            assert forall|i: int| z <= i < l.len() implies #[trigger] l[i][1] == 0 by {
                if i < d.len() {
                    assert(d[i][1] == 0);
                }
            }
            z
        } else {
            let z = l.len() as int;
            assert forall|i: int| 0 <= i < z implies #[trigger] l[i][1] > 0 by {
                if i < z - 1 {
                    assert(l[i][1] >= l[z - 1][1]);
                }
            }
            lemma_alive(l, z);
            z
        }
    }
}

/// Blocks are large enough for what is put into them.
pub proof fn lemma_units(nu: u32)
    requires
        1 <= nu <= 128,
    ensures
        0 <= arena::index_of(nu) < 38,
        nu <= arena::units_of(arena::index_of(nu)) <= 128,
{
}

} // verus!
