//! Stable sorting of positions by a small key.
use vstd::prelude::*;

verus! {

/// The positions that hold a key, in order.
pub open spec fn positions(keys: Seq<u32>, v: int) -> Seq<int>
    decreases keys.len(),
{
    if keys.len() == 0 {
        Seq::empty()
    } else {
        let rest = positions(keys.drop_last(), v);
        if keys.last() == v {
            rest.push(keys.len() - 1)
        } else {
            rest
        }
    }
}

/// The positions of the keys below `m`, by key, and those of one key in
/// order.
pub open spec fn ordered(keys: Seq<u32>, m: nat) -> Seq<int>
    decreases m,
{
    if m == 0 {
        Seq::empty()
    } else {
        ordered(keys, (m - 1) as nat) + positions(keys, m - 1)
    }
}

/// Where a position stands once sorted.
pub open spec fn slot(keys: Seq<u32>, k: int) -> int {
    ordered(keys, keys[k] as nat).len() + positions(keys.take(k), keys[k] as int).len() as int
}

pub proof fn lemma_positions(keys: Seq<u32>, v: int)
    ensures
        forall|j: int|
            #![trigger positions(keys, v)[j]]
            0 <= j < positions(keys, v).len() ==> {
                let k = positions(keys, v)[j];
                &&& 0 <= k < keys.len()
                &&& keys[k] == v
                &&& positions(keys.take(k), v).len() == j
            },
        forall|i: int, j: int|
            0 <= i < j < positions(keys, v).len() ==> positions(keys, v)[i] < positions(
                keys,
                v,
            )[j],
    decreases keys.len(),
{
    if keys.len() > 0 {
        let d = keys.drop_last();
        lemma_positions(d, v);
        assert forall|j: int|
            #![trigger positions(keys, v)[j]]
            0 <= j < positions(keys, v).len() implies {
            let k = positions(keys, v)[j];
            &&& 0 <= k < keys.len()
            &&& keys[k] == v
            &&& positions(keys.take(k), v).len() == j
        } by {
            let k = positions(keys, v)[j];
            if j < positions(d, v).len() {
                assert(k == positions(d, v)[j]);
                assert(keys.take(k) =~= d.take(k));
            } else {
                assert(keys.take(k) =~= d);
            }
        }
    }
}

/// A position stands among those of its key.
pub proof fn lemma_position_of(keys: Seq<u32>, k: int)
    requires
        0 <= k < keys.len(),
    ensures
        ({
            let v = keys[k] as int;
            let j = positions(keys.take(k), v).len() as int;
            j < positions(keys, v).len() && positions(keys, v)[j] == k
        }),
    decreases keys.len(),
{
    let v = keys[k] as int;
    let d = keys.drop_last();
    if k == d.len() {
        assert(keys.take(k) =~= d);
    } else {
        lemma_position_of(d, k);
        assert(d.take(k) =~= keys.take(k));
    }
}

pub proof fn lemma_ordered_prefix(keys: Seq<u32>, a: nat, b: nat)
    requires
        a <= b,
    ensures
        ordered(keys, a).is_prefix_of(ordered(keys, b)),
    decreases b,
{
    if a < b {
        lemma_ordered_prefix(keys, a, (b - 1) as nat);
    }
}

/// Each position stands at its slot.
pub proof fn lemma_slot(keys: Seq<u32>, m: nat, k: int)
    requires
        0 <= k < keys.len(),
        keys[k] < m,
    ensures
        0 <= slot(keys, k) < ordered(keys, m).len(),
        ordered(keys, m)[slot(keys, k)] == k,
{
    let v = keys[k] as nat;
    lemma_position_of(keys, k);
    lemma_ordered_prefix(keys, v + 1, m);
    let o = ordered(keys, v + 1);
    assert(o =~= ordered(keys, v) + positions(keys, v as int));
    assert(o[slot(keys, k)] == k);
    assert(ordered(keys, m)[slot(keys, k)] == ordered(keys, m).take(o.len() as int)[slot(
        keys,
        k,
    )]);
}

/// What stands at a slot is a position with that slot.
pub proof fn lemma_at_slot(keys: Seq<u32>, m: nat, j: int)
    requires
        0 <= j < ordered(keys, m).len(),
    ensures
        ({
            let k = ordered(keys, m)[j];
            0 <= k < keys.len() && keys[k] < m && slot(keys, k) == j
        }),
    decreases m,
{
    let o = ordered(keys, (m - 1) as nat);
    if j < o.len() {
        lemma_at_slot(keys, (m - 1) as nat, j);
    } else {
        lemma_positions(keys, m - 1);
        let k = positions(keys, m - 1)[j - o.len()];
        assert(ordered(keys, m)[j] == k);
    }
}

/// With every key below `m` all positions are there.
pub proof fn lemma_ordered_len(keys: Seq<u32>, m: nat)
    requires
        forall|k: int| 0 <= k < keys.len() ==> #[trigger] keys[k] < m,
    ensures
        ordered(keys, m).len() == keys.len(),
    decreases keys.len(),
{
    if keys.len() == 0 {
        lemma_ordered_none(keys, m);
    } else {
        let d = keys.drop_last();
        assert forall|k: int| 0 <= k < d.len() implies #[trigger] d[k] < m by {
            assert(d[k] == keys[k]);
        }
        lemma_ordered_len(d, m);
        lemma_ordered_step(keys, m);
        assert(keys[keys.len() - 1] < m);
    }
}

proof fn lemma_ordered_none(keys: Seq<u32>, m: nat)
    requires
        keys.len() == 0,
    ensures
        ordered(keys, m).len() == 0,
    decreases m,
{
    if m > 0 {
        lemma_ordered_none(keys, (m - 1) as nat);
    }
}

proof fn lemma_ordered_step(keys: Seq<u32>, m: nat)
    requires
        keys.len() > 0,
    ensures
        ordered(keys, m).len() == ordered(keys.drop_last(), m).len() + if keys.last() < m {
            1int
        } else {
            0
        },
    decreases m,
{
    if m > 0 {
        lemma_ordered_step(keys, (m - 1) as nat);
    }
}

/// The sorted positions ascend by key, then by position.
pub proof fn lemma_ordered_sorted(keys: Seq<u32>, m: nat, a: int, b: int)
    requires
        0 <= a < b < ordered(keys, m).len(),
    ensures
        ({
            let x = ordered(keys, m)[a];
            let y = ordered(keys, m)[b];
            keys[x] < keys[y] || keys[x] == keys[y] && x < y
        }),
    decreases m,
{
    let o = ordered(keys, (m - 1) as nat);
    let p = positions(keys, m - 1);
    if b < o.len() {
        lemma_ordered_sorted(keys, (m - 1) as nat, a, b);
    } else {
        lemma_positions(keys, m - 1);
        assert(ordered(keys, m)[b] == p[b - o.len()]);
        if a < o.len() {
            lemma_at_slot(keys, (m - 1) as nat, a);
        } else {
            assert(ordered(keys, m)[a] == p[a - o.len()]);
        }
    }
}

proof fn lemma_positions_push(keys: Seq<u32>, i: int, v: int)
    requires
        0 <= i < keys.len(),
    ensures
        positions(keys.take(i + 1), v).len() == positions(keys.take(i), v).len() + if keys[i] == v {
            1int
        } else {
            0
        },
        positions(keys.take(i + 1), v).len() <= i + 1,
    decreases i,
{
    let t = keys.take(i + 1);
    assert(t.drop_last() =~= keys.take(i));
    if i > 0 {
        lemma_positions_push(keys, i - 1, v);
    } else {
        assert(keys.take(0).len() == 0);
    }
}

/// Sort positions by key.
pub fn stable_order(keys: &[u32], m: usize) -> (r: Vec<u32>)
    requires
        keys.len() <= 0xffff_ffff,
        forall|k: int| 0 <= k < keys.len() ==> #[trigger] keys[k] < m,
    ensures
        r.len() == keys.len(),
        ordered(keys@, m as nat).len() == keys.len(),
        forall|j: int| 0 <= j < r.len() ==> #[trigger] r[j] == ordered(keys@, m as nat)[j],
{
    let n: usize = keys.len();
    let ghost s = keys@;
    let mut next: Vec<u32> = vec![0; m];
    let mut i: usize = 0;
    while i < n
        invariant
            i <= n,
            n == keys.len(),
            s == keys@,
            n <= 0xffff_ffff,
            next.len() == m,
            forall|k: int| 0 <= k < keys.len() ==> #[trigger] keys[k] < m,
            forall|v: int|
                0 <= v < m ==> #[trigger] next[v] == positions(s.take(i as int), v).len(),
        decreases n - i,
    {
        let v: usize = keys[i] as usize;
        proof {
            lemma_positions_push(s, i as int, v as int);
            assert forall|w: int| 0 <= w < m implies #[trigger] positions(
                s.take(i + 1),
                w,
            ).len() == positions(s.take(i as int), w).len() + if w == v {
                1int
            } else {
                0
            } by {
                lemma_positions_push(s, i as int, w);
            }
        }
        next.set(v, next[v] + 1);
        i = i + 1;
    }
    proof {
        assert(s.take(n as int) =~= s);
        lemma_ordered_len(s, m as nat);
    }
    let mut v: usize = 0;
    let mut sum: u32 = 0;
    while v < m
        invariant
            v <= m,
            n == s.len(),
            n <= 0xffff_ffff,
            next.len() == m,
            ordered(s, m as nat).len() == n,
            sum == ordered(s, v as nat).len(),
            forall|w: int| v <= w < m ==> #[trigger] next[w] == positions(s, w).len(),
            forall|w: int| 0 <= w < v ==> #[trigger] next[w] == ordered(s, w as nat).len(),
        decreases m - v,
    {
        let count: u32 = next[v];
        next.set(v, sum);
        proof {
            lemma_ordered_prefix(s, (v + 1) as nat, m as nat);
        }
        sum = sum + count;
        v = v + 1;
    }
    let mut out: Vec<u32> = vec![0; n];
    i = 0;
    proof {
        assert(s.take(0) =~= Seq::<u32>::empty());
    }
    while i < n
        invariant
            i <= n,
            n == keys.len(),
            s == keys@,
            n <= 0xffff_ffff,
            next.len() == m,
            out.len() == n,
            ordered(s, m as nat).len() == n,
            forall|k: int| 0 <= k < keys.len() ==> #[trigger] keys[k] < m,
            forall|v: int|
                0 <= v < m ==> #[trigger] next[v] == ordered(s, v as nat).len() + positions(
                    s.take(i as int),
                    v,
                ).len(),
            forall|k: int| 0 <= k < i ==> out[#[trigger] slot(s, k)] == k,
        decreases n - i,
    {
        let v: usize = keys[i] as usize;
        proof {
            lemma_slot(s, m as nat, i as int);
            assert forall|w: int| 0 <= w < m implies #[trigger] positions(
                s.take(i + 1),
                w,
            ).len() == positions(s.take(i as int), w).len() + if w == v {
                1int
            } else {
                0
            } by {
                lemma_positions_push(s, i as int, w);
            }
            assert forall|k: int| 0 <= k < i implies #[trigger] slot(s, k) != slot(
                s,
                i as int,
            ) && 0 <= slot(s, k) < n by {
                assert(keys[k] < m);
                lemma_slot(s, m as nat, k);
            }
        }
        let at: usize = next[v] as usize;
        out.set(at, i as u32);
        next.set(v, next[v] + 1);
        i = i + 1;
    }
    proof {
        assert forall|j: int| 0 <= j < n implies #[trigger] out[j] == ordered(s, m as nat)[j] by {
            lemma_at_slot(s, m as nat, j);
        }
    }
    out
}

} // verus!
