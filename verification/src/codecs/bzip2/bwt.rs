//! The Burrows-Wheeler transform.
use crate::utils::sorting;
use crate::utils::sorting::stable_order;
use vstd::arithmetic::div_mod::*;
use vstd::arithmetic::mul::*;
use vstd::prelude::*;
use vstd::relations::*;
use vstd::seq_lib::*;
use vstd::set_lib::*;

verus! {

/// 256 to a power.
pub open spec fn span(n: nat) -> nat
    decreases n,
{
    if n == 0 {
        1
    } else {
        256 * span((n - 1) as nat)
    }
}

/// The first `h` bytes of the rotation from `i` on, as one number, so that
/// numbers compare as the rotations do.
pub open spec fn key(block: Seq<u8>, i: int, h: nat) -> nat
    decreases h,
{
    if h == 0 {
        0
    } else {
        256 * key(block, i, (h - 1) as nat) + block[(i + h - 1) % (block.len() as int)] as nat
    }
}

/// The order of a whole rotation.
pub open spec fn rotation(block: Seq<u8>, i: int) -> nat {
    key(block, i, block.len())
}

/// Each number below the length once.
pub open spec fn permutes(p: Seq<int>, n: nat) -> bool {
    &&& p.len() == n
    &&& forall|j: int| 0 <= j < n ==> 0 <= #[trigger] p[j] < n
    &&& forall|i: int, j: int| 0 <= i < j < n ==> p[i] != p[j]
}

/// Rows start at each place once, ascending by their first `h` bytes.
pub open spec fn rows(block: Seq<u8>, order: Seq<int>, h: nat) -> bool {
    &&& permutes(order, block.len())
    &&& forall|a: int, b: int|
        #![trigger order[a], order[b]]
        0 <= a < b < order.len() ==> key(block, order[a], h) <= key(block, order[b], h)
}

/// The last column of the sorted rotations, and the first row that holds the
/// block itself.
pub open spec fn transformed(block: Seq<u8>, last: Seq<u8>, origin: int) -> bool {
    &&& last.len() == block.len()
    &&& exists|order: Seq<int>| #[trigger]
        rows(block, order, block.len()) && {
            &&& forall|r: int|
                0 <= r < last.len() ==> #[trigger] last[r] == block[(order[r] - 1) % (
                block.len() as int)]
            &&& 0 <= origin < block.len()
            &&& rotation(block, order[origin]) == rotation(block, 0)
            &&& origin > 0 ==> rotation(block, order[origin - 1]) < rotation(block, 0)
        }
}

/// There are no more than `m` numbers below `m`.
proof fn lemma_room(p: Seq<int>, m: int)
    requires
        m >= 0,
        forall|i: int| 0 <= i < p.len() ==> 0 <= #[trigger] p[i] < m,
        forall|i: int, j: int| 0 <= i < j < p.len() ==> p[i] != p[j],
    ensures
        p.len() <= m,
    decreases m,
{
    if p.len() > 0 {
        assert(0 <= p[0] < m);
        if p.contains(m - 1) {
            let k = choose|k: int| 0 <= k < p.len() && p[k] == m - 1;
            let q = p.remove(k);
            assert forall|i: int| 0 <= i < q.len() implies 0 <= #[trigger] q[i] < m - 1 by {
                let j = if i < k {
                    i
                } else {
                    i + 1
                };
                assert(q[i] == p[j]);
                assert(p[j] != p[k]);
            }
            lemma_room(q, m - 1);
        } else {
            assert forall|i: int| 0 <= i < p.len() implies 0 <= #[trigger] p[i] < m - 1 by {
                assert(p[i] != m - 1);
            }
            lemma_room(p, m - 1);
        }
    }
}

/// Rows that start at each place once start at every place.
proof fn lemma_every_place(p: Seq<int>, n: nat, x: int)
    requires
        permutes(p, n),
        0 <= x < n,
    ensures
        p.contains(x),
{
    if !p.contains(x) {
        let q = p.push(x);
        assert forall|i: int, j: int| 0 <= i < j < q.len() implies q[i] != q[j] by {
            assert(q[i] == p[i]);
        }
        lemma_room(q, n as int);
    }
}

/// Sorted rows are no greater than rows sorted otherwise.
proof fn lemma_rows_agree(block: Seq<u8>, a: Seq<int>, b: Seq<int>, r: int)
    requires
        rows(block, a, block.len()),
        rows(block, b, block.len()),
        0 <= r < block.len(),
    ensures
        rotation(block, b[r]) <= rotation(block, a[r]),
{
    if rotation(block, a[r]) < rotation(block, b[r]) {
        let n = block.len();
        let q = Seq::new(
            (r + 1) as nat,
            |i: int| choose|k: int| 0 <= k < n && #[trigger] b[k] == a[i],
        );
        assert forall|i: int| 0 <= i <= r implies 0 <= #[trigger] q[i] < r && b[q[i]] == a[i] by {
            lemma_every_place(b, n, a[i]);
            let k = choose|k: int| 0 <= k < b.len() && b[k] == a[i];
            assert(0 <= k < n && b[k] == a[i]);
            assert(key(block, a[i], n) <= key(block, a[r], n));
            if q[i] > r {
                assert(key(block, b[r], n) <= key(block, b[q[i]], n));
            }
        }
        assert forall|i: int, j: int| 0 <= i < j < q.len() implies q[i] != q[j] by {
            assert(a[i] != a[j]);
            assert(b[q[i]] == a[i] && b[q[j]] == a[j]);
        }
        lemma_room(q, r);
    }
}

/// A block has one last column, and one first row that holds it.
pub proof fn lemma_one_turn(block: Seq<u8>, x: Seq<u8>, i: int, y: Seq<u8>, j: int)
    requires
        transformed(block, x, i),
        transformed(block, y, j),
    ensures
        x == y,
        i == j,
{
    let n = block.len();
    let a = choose|a: Seq<int>| #[trigger]
        rows(block, a, n) && {
            &&& forall|r: int| 0 <= r < x.len() ==> #[trigger] x[r] == block[(a[r] - 1) % (n as int)]
            &&& 0 <= i < n
            &&& rotation(block, a[i]) == rotation(block, 0)
            &&& i > 0 ==> rotation(block, a[i - 1]) < rotation(block, 0)
        };
    let b = choose|b: Seq<int>| #[trigger]
        rows(block, b, n) && {
            &&& forall|r: int| 0 <= r < y.len() ==> #[trigger] y[r] == block[(b[r] - 1) % (n as int)]
            &&& 0 <= j < n
            &&& rotation(block, b[j]) == rotation(block, 0)
            &&& j > 0 ==> rotation(block, b[j - 1]) < rotation(block, 0)
        };
    assert forall|r: int| 0 <= r < n implies rotation(block, #[trigger] a[r]) == rotation(
        block,
        b[r],
    ) by {
        lemma_rows_agree(block, a, b, r);
        lemma_rows_agree(block, b, a, r);
    }
    assert forall|r: int| 0 <= r < n implies #[trigger] x[r] == y[r] by {
        assert(rotation(block, a[r]) == rotation(block, b[r]));
        lemma_mod_add_multiples_vanish(a[r] - 1, n as int);
        lemma_mod_add_multiples_vanish(b[r] - 1, n as int);
        let k = (n - 1) as nat;
        assert(rotation(block, a[r]) == 256 * key(block, a[r], k) + block[(a[r] + n - 1) % (
        n as int)]);
        assert(rotation(block, b[r]) == 256 * key(block, b[r], k) + block[(b[r] + n - 1) % (
        n as int)]);
    }
    assert(x =~= y);
    if i < j {
        assert(rotation(block, a[i]) == rotation(block, b[i]));
        if i < j - 1 {
            assert(key(block, b[i], n) <= key(block, b[j - 1], n));
        }
    } else if j < i {
        assert(rotation(block, a[j]) == rotation(block, b[j]));
        if j < i - 1 {
            assert(key(block, a[j], n) <= key(block, a[i - 1], n));
        }
    }
}

/// The last column's bytes as sorting keys.
pub open spec fn column(last: Seq<u8>) -> Seq<u32> {
    Seq::new(last.len(), |i: int| last[i] as u32)
}

/// The row that follows each row.
pub open spec fn follows(last: Seq<u8>) -> Seq<int> {
    sorting::ordered(column(last), 256)
}

/// The bytes met in `n` steps from a row on.
pub open spec fn walk(last: Seq<u8>, row: int, n: nat) -> Seq<u8>
    decreases n,
{
    if n == 0 {
        Seq::empty()
    } else {
        seq![last[row]] + walk(last, follows(last)[row], (n - 1) as nat)
    }
}

/// The block that a last column and a row stand for.
pub open spec fn restored(last: Seq<u8>, origin: int) -> Seq<u8> {
    walk(last, follows(last)[origin], last.len())
}

proof fn lemma_key_bound(block: Seq<u8>, i: int, h: nat)
    ensures
        key(block, i, h) < span(h),
        span(h) > 0,
    decreases h,
{
    if h > 0 {
        lemma_key_bound(block, i, (h - 1) as nat);
    }
}

/// A rotation is its start and the start of a later rotation.
proof fn lemma_key_split(block: Seq<u8>, i: int, a: nat, b: nat)
    ensures
        key(block, i, a + b) == key(block, i, a) * span(b) + key(block, i + a, b),
    decreases b,
{
    let k = key(block, i, a);
    if b == 0 {
        assert(k * 1 == k);
    } else {
        lemma_key_split(block, i, a, (b - 1) as nat);
        let s = span((b - 1) as nat);
        assert(256 * (k * s) == k * (256 * s)) by (nonlinear_arith);
        assert(i + (a + b) - 1 == i + a + b - 1);
        assert((a + b - 1) as nat == a + (b - 1) as nat);
    }
}

/// Starts are taken modulo the length.
proof fn lemma_key_mod(block: Seq<u8>, i: int, j: int, h: nat)
    requires
        block.len() > 0,
        i % (block.len() as int) == j % (block.len() as int),
    ensures
        key(block, i, h) == key(block, j, h),
    decreases h,
{
    if h > 0 {
        let n = block.len() as int;
        lemma_key_mod(block, i, j, (h - 1) as nat);
        lemma_add_mod_noop(i, h - 1, n);
        lemma_add_mod_noop(j, h - 1, n);
    }
}

/// Longer starts sort as pairs of starts do.
proof fn lemma_pair_order(block: Seq<u8>, i: int, j: int, a: nat, b: nat)
    ensures
        key(block, i, a) < key(block, j, a) ==> key(block, i, a + b) < key(block, j, a + b),
        key(block, i, a) == key(block, j, a) ==> (key(block, i, a + b) <= key(block, j, a + b)
            <==> key(block, i + a, b) <= key(block, j + a, b)),
        key(block, i, a) == key(block, j, a) ==> (key(block, i, a + b) == key(block, j, a + b)
            <==> key(block, i + a, b) == key(block, j + a, b)),
        key(block, i, a + b) == key(block, j, a + b) ==> key(block, i, a) == key(block, j, a),
{
    lemma_key_split(block, i, a, b);
    lemma_key_split(block, j, a, b);
    lemma_key_bound(block, i + a, b);
    lemma_key_bound(block, j + a, b);
    let s = span(b);
    let x = key(block, i, a);
    let y = key(block, j, a);
    if x < y {
        assert(x * s + s <= y * s) by (nonlinear_arith)
            requires
                x < y,
                s > 0,
        ;
    } else if y < x {
        assert(y * s + s <= x * s) by (nonlinear_arith)
            requires
                y < x,
                s > 0,
        ;
    }
}

/// Equal rotations are equal byte by byte.
proof fn lemma_key_bytes(block: Seq<u8>, i: int, j: int, h: nat, t: int)
    requires
        key(block, i, h) == key(block, j, h),
        0 <= t < h,
    ensures
        block[(i + t) % (block.len() as int)] == block[(j + t) % (block.len() as int)],
    decreases h,
{
    if t < h - 1 {
        lemma_key_bytes(block, i, j, (h - 1) as nat, t);
    }
}

/// Equal rotations stay equal however far they are followed.
proof fn lemma_key_cycle(block: Seq<u8>, i: int, j: int, h: nat)
    requires
        block.len() > 0,
        rotation(block, i) == rotation(block, j),
    ensures
        key(block, i, h) == key(block, j, h),
    decreases h,
{
    if h > 0 {
        lemma_key_cycle(block, i, j, (h - 1) as nat);
        let n = block.len() as int;
        let t = (h - 1) % n;
        lemma_key_bytes(block, i, j, block.len(), t);
        lemma_add_mod_noop_right(i, h - 1, n);
        lemma_add_mod_noop_right(j, h - 1, n);
    }
}

/// Two permutations hold the same numbers.
proof fn lemma_permutes_multiset(p: Seq<int>, q: Seq<int>, n: nat)
    requires
        permutes(p, n),
        permutes(q, n),
    ensures
        p.to_multiset() == q.to_multiset(),
{
    broadcast use group_to_multiset_ensures;

    lemma_permutes_all(p, n);
    lemma_permutes_all(q, n);
    p.lemma_multiset_has_no_duplicates();
    q.lemma_multiset_has_no_duplicates();
    assert forall|x: int| p.to_multiset().count(x) == q.to_multiset().count(x) by {
        assert(p.contains(x) <==> 0 <= x < n);
        assert(q.contains(x) <==> 0 <= x < n);
        if 0 <= x < n {
            assert(p.to_multiset().contains(x));
            assert(q.to_multiset().contains(x));
        }
    }
    assert(p.to_multiset() =~= q.to_multiset());
}

/// A permutation holds every number.
proof fn lemma_permutes_all(p: Seq<int>, n: nat)
    requires
        permutes(p, n),
    ensures
        p.no_duplicates(),
        forall|x: int| #[trigger] p.contains(x) <==> 0 <= x < n,
{
    assert(p.no_duplicates());
    p.unique_seq_to_set();
    let all = set_int_range(0, n as int);
    lemma_int_range(0, n as int);
    assert(p.to_set().subset_of(all)) by {
        assert forall|x: int| p.to_set().contains(x) implies all.contains(x) by {
            assert(p.contains(x));
        }
    }
    lemma_subset_equality(p.to_set(), all);
    assert forall|x: int| #[trigger] p.contains(x) <==> 0 <= x < n by {
        assert(p.to_set().contains(x) == all.contains(x));
        assert(p.contains(x) <==> p.to_set().contains(x));
    }
}

/// What a function makes of the same numbers in two orders are the same
/// values.
proof fn lemma_values_multiset(p: Seq<int>, q: Seq<int>, g: spec_fn(int) -> int)
    requires
        p.to_multiset() == q.to_multiset(),
    ensures
        p.map_values(g).to_multiset() == q.map_values(g).to_multiset(),
    decreases p.len(),
{
    broadcast use group_to_multiset_ensures;

    assert(p.len() == p.to_multiset().len());
    assert(q.len() == q.to_multiset().len());
    if p.len() == 0 {
        assert(p.map_values(g) =~= q.map_values(g));
    } else {
        let x = p.last();
        assert(p.contains(x));
        assert(q.to_multiset().count(x) > 0);
        assert(q.contains(x));
        let t = choose|t: int| 0 <= t < q.len() && q[t] == x;
        let d = p.drop_last();
        let e = q.remove(t);
        assert(p =~= p.remove(p.len() - 1).push(x));
        assert(d =~= p.remove(p.len() - 1));
        assert(d.to_multiset() == p.to_multiset().remove(x));
        assert(e.to_multiset() == q.to_multiset().remove(x));
        lemma_values_multiset(d, e, g);
        assert(p.map_values(g) =~= d.map_values(g).push(g(x)));
        assert(q.map_values(g).remove(t) =~= e.map_values(g));
        assert(q.map_values(g)[t] == g(x));
        assert(q.map_values(g) =~= e.map_values(g).insert(t, g(x)));
        to_multiset_insert(e.map_values(g), t, g(x));
    }
}

/// The bytes sorted stably are the first column, and each row is followed by
/// the rotation one further.
proof fn lemma_follows(block: Seq<u8>, last: Seq<u8>, order: Seq<int>, row: int)
    requires
        block.len() > 0,
        rows(block, order, block.len()),
        last.len() == block.len(),
        forall|r: int|
            0 <= r < last.len() ==> #[trigger] last[r] == block[(order[r] - 1) % (
            block.len() as int)],
        0 <= row < block.len(),
    ensures
        0 <= follows(last)[row] < block.len(),
        rotation(block, order[follows(last)[row]]) == rotation(block, order[row] + 1),
{
    let n = block.len();
    let m = n as int;
    let c = column(last);
    let t = follows(last);
    sorting::lemma_ordered_len(c, 256);
    let p = Seq::new(n, |j: int| (order[t[j]] - 1) % m);
    let g = |i: int| rotation(block, i) as int;
    let leq = |x: int, y: int| x <= y;
    assert forall|j: int| 0 <= j < n implies 0 <= #[trigger] t[j] < n && sorting::slot(c, t[j])
        == j by {
        sorting::lemma_at_slot(c, 256, j);
    }
    assert(permutes(p, n)) by {
        assert forall|j: int| 0 <= j < n implies 0 <= #[trigger] p[j] < n by {
            lemma_mod_bound(order[t[j]] - 1, m);
        }
        assert forall|i: int, j: int| 0 <= i < j < n implies p[i] != p[j] by {
            assert(t[i] != t[j]);
            let x = order[t[i]];
            let y = order[t[j]];
            assert(x != y);
            assert(0 <= x < n && 0 <= y < n);
            lemma_back_one(x, m);
            lemma_back_one(y, m);
        }
    }
    lemma_permutes_multiset(order, p, n);
    lemma_values_multiset(order, p, g);
    let ko = order.map_values(g);
    let kp = p.map_values(g);
    assert(sorted_by(ko, leq)) by {
        assert forall|i: int, j: int| 0 <= i < j < ko.len() implies #[trigger] leq(
            ko[i],
            ko[j],
        ) by {
            assert(key(block, order[i], n) <= key(block, order[j], n));
        }
    }
    assert(sorted_by(kp, leq)) by {
        assert forall|i: int, j: int| 0 <= i < j < kp.len() implies #[trigger] leq(
            kp[i],
            kp[j],
        ) by {
            sorting::lemma_ordered_sorted(c, 256, i, j);
            let x = t[i];
            let y = t[j];
            lemma_shifted(block, order[x]);
            lemma_shifted(block, order[y]);
            assert(last[x] == block[p[i]]);
            assert(last[y] == block[p[j]]);
            let s = span((n - 1) as nat);
            lemma_key_bound(block, order[x], (n - 1) as nat);
            lemma_key_bound(block, order[y], (n - 1) as nat);
            if last[x] < last[y] {
                let (a, b) = (last[x] as nat, last[y] as nat);
                assert(a * s + s <= b * s) by (nonlinear_arith)
                    requires
                        a < b,
                ;
            } else {
                assert(x < y);
                assert(key(block, order[x], n) <= key(block, order[y], n));
                lemma_pair_order(block, order[y], order[x], (n - 1) as nat, 1);
            }
        }
    }
    assert(total_ordering(leq));
    lemma_sorted_unique(ko, kp, leq);
    assert(ko[row] == kp[row]);
    let x = t[row];
    assert(rotation(block, order[row]) == rotation(block, p[row]));
    lemma_step_on(block, order[row], p[row]);
    lemma_back_one(order[x], m);
    lemma_add_mod_noop(order[x] - 1, 1, m);
    lemma_mod_twice(order[x] - 1, m);
    lemma_add_mod_noop((order[x] - 1) % m, 1, m);
    lemma_key_mod(block, p[row] + 1, order[x], n);
}

/// One back, around the end.
proof fn lemma_back_one(x: int, n: int)
    requires
        0 <= x < n,
    ensures
        (x - 1) % n == if x == 0 {
            n - 1
        } else {
            x - 1
        },
{
    if x == 0 {
        lemma_fundamental_div_mod_converse(-1, n, -1, n - 1);
    } else {
        lemma_small_mod((x - 1) as nat, n as nat);
    }
}

/// The rotation one before is a byte and the start of the rotation.
proof fn lemma_shifted(block: Seq<u8>, x: int)
    requires
        0 <= x < block.len(),
    ensures
        ({
            let n = block.len();
            let b = (x - 1) % (n as int);
            rotation(block, b) == block[b] * span((n - 1) as nat) + key(block, x, (n - 1) as nat)
        }),
{
    let n = block.len();
    let b = (x - 1) % (n as int);
    lemma_back_one(x, n as int);
    lemma_key_split(block, b, 1, (n - 1) as nat);
    reveal_with_fuel(key, 2);
    lemma_small_mod(b as nat, n);
    assert(key(block, b, 1) == block[b]);
    if x == 0 {
        lemma_mod_self_0(n as int);
        lemma_small_mod(0, n);
    }
    lemma_key_mod(block, b + 1, x, (n - 1) as nat);
}

/// Equal rotations are equal one further.
proof fn lemma_step_on(block: Seq<u8>, i: int, j: int)
    requires
        block.len() > 0,
        rotation(block, i) == rotation(block, j),
    ensures
        rotation(block, i + 1) == rotation(block, j + 1),
{
    let n = block.len();
    lemma_key_cycle(block, i, j, 1);
    lemma_key_cycle(block, i, j, 1 + n);
    lemma_pair_order(block, i, j, 1, n);
}

proof fn lemma_walk(block: Seq<u8>, last: Seq<u8>, order: Seq<int>, row: int, at: int, n: nat)
    requires
        block.len() > 0,
        rows(block, order, block.len()),
        last.len() == block.len(),
        forall|r: int|
            0 <= r < last.len() ==> #[trigger] last[r] == block[(order[r] - 1) % (
            block.len() as int)],
        0 <= row < block.len(),
        0 <= at,
        at + n <= block.len(),
        rotation(block, order[row]) == rotation(block, at + 1),
    ensures
        walk(last, row, n) == block.subrange(at, at + n),
    decreases n,
{
    if n > 0 {
        let m = block.len() as int;
        let i = order[row];
        lemma_key_cycle(block, i, at + 1, (2 * m) as nat);
        lemma_key_bytes(block, i, at + 1, block.len(), m - 1);
        lemma_back_one(i, m);
        lemma_mod_add_multiples_vanish(i - 1, m);
        assert(i + (m - 1) == m + (i - 1));
        assert((i + (m - 1)) % m == (i - 1) % m);
        lemma_mod_add_multiples_vanish(at, m);
        assert(at + 1 + (m - 1) == m + at);
        lemma_small_mod(at as nat, m as nat);
        assert(last[row] == block[at]);
        lemma_follows(block, last, order, row);
        lemma_step_on(block, i, at + 1);
        let next = follows(last)[row];
        lemma_walk(block, last, order, next, at + 1, (n - 1) as nat);
        assert(seq![last[row]] + block.subrange(at + 1, at + n) =~= block.subrange(at, at + n));
    } else {
        assert(block.subrange(at, at) =~= Seq::<u8>::empty());
    }
}

/// The block comes back from its transform.
pub proof fn lemma_restored(block: Seq<u8>, last: Seq<u8>, origin: int)
    requires
        block.len() > 0,
        transformed(block, last, origin),
    ensures
        restored(last, origin) == block,
{
    let order = choose|order: Seq<int>| #[trigger]
        rows(block, order, block.len()) && {
            &&& forall|r: int|
                0 <= r < last.len() ==> #[trigger] last[r] == block[(order[r] - 1) % (
                block.len() as int)]
            &&& 0 <= origin < block.len()
            &&& rotation(block, order[origin]) == rotation(block, 0)
            &&& origin > 0 ==> rotation(block, order[origin - 1]) < rotation(block, 0)
        };
    lemma_follows(block, last, order, origin);
    lemma_step_on(block, order[origin], 0);
    lemma_walk(block, last, order, follows(last)[origin], 0, block.len());
    assert(block.subrange(0, block.len() as int) =~= block);
}

/// Positions as numbers.
spec fn ints(v: Seq<u32>) -> Seq<int> {
    Seq::new(v.len(), |j: int| v[j] as int)
}

/// Ranks compare as the first `h` bytes of the rotations do.
spec fn ranks(block: Seq<u8>, rank: Seq<u32>, h: nat) -> bool {
    &&& rank.len() == block.len()
    &&& forall|i: int, j: int|
        #![trigger rank[i], rank[j]]
        0 <= i < block.len() && 0 <= j < block.len() ==> (rank[i] < rank[j] <==> key(block, i, h)
            < key(block, j, h))
}

proof fn lemma_composed(p: Seq<int>, q: Seq<int>, r: Seq<int>, n: nat)
    requires
        permutes(p, n),
        permutes(q, n),
        r.len() == n,
        forall|j: int| 0 <= j < n ==> #[trigger] r[j] == p[q[j]],
    ensures
        permutes(r, n),
{
    assert forall|j: int| 0 <= j < n implies 0 <= #[trigger] r[j] < n by {
        assert(0 <= q[j] < n);
    }
    assert forall|i: int, j: int| 0 <= i < j < n implies r[i] != r[j] by {
        assert(q[i] != q[j]);
        assert(0 <= q[i] < n && 0 <= q[j] < n);
    }
}

proof fn lemma_ordered_permutes(keys: Seq<u32>, m: nat)
    requires
        forall|k: int| 0 <= k < keys.len() ==> #[trigger] keys[k] < m,
    ensures
        permutes(sorting::ordered(keys, m), keys.len()),
{
    let o = sorting::ordered(keys, m);
    sorting::lemma_ordered_len(keys, m);
    assert forall|j: int| 0 <= j < o.len() implies 0 <= #[trigger] o[j] < keys.len()
        && sorting::slot(keys, o[j]) == j by {
        sorting::lemma_at_slot(keys, m, j);
    }
}

/// Sorting by twice as many bytes.
proof fn lemma_round(
    block: Seq<u8>,
    order: Seq<int>,
    rank: Seq<u32>,
    moved: Seq<int>,
    keys: Seq<u32>,
    m: nat,
    next: Seq<int>,
    h: nat,
)
    requires
        rows(block, order, h),
        ranks(block, rank, h),
        0 < h,
        h < block.len(),
        moved.len() == block.len(),
        forall|k: int|
            0 <= k < block.len() ==> #[trigger] moved[k] == (order[k] - h) % (block.len() as int),
        keys.len() == block.len(),
        forall|k: int| 0 <= k < block.len() ==> #[trigger] keys[k] == rank[moved[k]],
        forall|k: int| 0 <= k < block.len() ==> #[trigger] keys[k] < m,
        next.len() == block.len(),
        forall|j: int|
            0 <= j < block.len() ==> #[trigger] next[j] == moved[sorting::ordered(keys, m)[j]],
    ensures
        rows(block, next, h + h),
{
    let n = block.len();
    let s = sorting::ordered(keys, m);
    lemma_ordered_permutes(keys, m);
    assert(permutes(moved, n)) by {
        assert forall|j: int| 0 <= j < n implies 0 <= #[trigger] moved[j] < n by {
            lemma_mod_bound(order[j] - h, n as int);
        }
        assert forall|i: int, j: int| 0 <= i < j < n implies moved[i] != moved[j] by {
            assert(order[i] != order[j]);
            assert(0 <= order[i] < n && 0 <= order[j] < n);
            lemma_back(order[i], h as int, n as int);
            lemma_back(order[j], h as int, n as int);
        }
    }
    lemma_composed(moved, s, next, n);
    assert forall|a: int, b: int|
        #![trigger next[a], next[b]]
        0 <= a < b < next.len() implies key(block, next[a], h + h) <= key(
        block,
        next[b],
        h + h,
    ) by {
        let x = s[a];
        let y = s[b];
        assert(0 <= x < n && 0 <= y < n);
        sorting::lemma_ordered_sorted(keys, m, a, b);
        let i = moved[x];
        let j = moved[y];
        assert(0 <= i < n && 0 <= j < n);
        assert(keys[x] == rank[i] && keys[y] == rank[j]);
        lemma_pair_order(block, i, j, h, h);
        if keys[x] == keys[y] {
            assert(x < y);
            assert(key(block, order[x], h) <= key(block, order[y], h));
            assert(0 <= order[x] < n && 0 <= order[y] < n);
            lemma_back(order[x], h as int, n as int);
            lemma_back(order[y], h as int, n as int);
            lemma_key_mod(block, i + h, order[x], h);
            lemma_key_mod(block, j + h, order[y], h);
            assert(!(rank[i] < rank[j]) && !(rank[j] < rank[i]));
        }
    }
}

/// `h` back, around the end.
proof fn lemma_back(x: int, h: int, n: int)
    requires
        0 <= x < n,
        0 <= h < n,
    ensures
        (x - h) % n == if x >= h {
            x - h
        } else {
            x - h + n
        },
        ((x - h) % n + h) % n == x % n,
{
    if x >= h {
        lemma_small_mod((x - h) as nat, n as nat);
    } else {
        lemma_fundamental_div_mod_converse(x - h, n, -1, x - h + n);
        lemma_mod_add_multiples_vanish(x, n);
        assert((x - h) % n + h == n + x);
    }
}

/// Rows sorted far enough are sorted.
proof fn lemma_sorted(block: Seq<u8>, order: Seq<int>, h: nat, origin: int)
    requires
        block.len() > 0,
        rows(block, order, h),
        h >= block.len() || forall|a: int, b: int|
            #![trigger order[a], order[b]]
            0 <= a < b < order.len() ==> key(block, order[a], h) < key(block, order[b], h),
        0 <= origin < block.len(),
        key(block, order[origin], h) == key(block, 0, h),
        origin > 0 ==> key(block, order[origin - 1], h) < key(block, 0, h),
    ensures
        rows(block, order, block.len()),
        rotation(block, order[origin]) == rotation(block, 0),
        origin > 0 ==> rotation(block, order[origin - 1]) < rotation(block, 0),
{
    let n = block.len();
    if h >= n {
        let d = (h - n) as nat;
        assert forall|a: int, b: int|
            #![trigger order[a], order[b]]
            0 <= a < b < order.len() implies key(block, order[a], n) <= key(
            block,
            order[b],
            n,
        ) by {
            lemma_pair_order(block, order[b], order[a], n, d);
        }
        lemma_pair_order(block, order[origin], 0, n, d);
        if origin > 0 {
            lemma_pair_order(block, 0, order[origin - 1], n, d);
            if rotation(block, order[origin - 1]) == rotation(block, 0) {
                lemma_key_cycle(block, order[origin - 1], 0, h);
            }
        }
    } else {
        let d = (n - h) as nat;
        assert forall|a: int, b: int|
            #![trigger order[a], order[b]]
            0 <= a < b < order.len() implies key(block, order[a], n) <= key(
            block,
            order[b],
            n,
        ) by {
            lemma_pair_order(block, order[a], order[b], h, d);
        }
        lemma_permutes_all(order, n);
        assert(order.contains(0));
        let z = choose|z: int| 0 <= z < n && order[z] == 0;
        if z < origin {
            assert(key(block, order[z], h) < key(block, order[origin], h));
        } else if origin < z {
            assert(key(block, order[origin], h) < key(block, order[z], h));
        }
        if origin > 0 {
            lemma_pair_order(block, order[origin - 1], 0, h, d);
        }
    }
}

/// Number the rows, equal rotations alike, by their ranks and the ranks
/// `h` further.
#[verifier::spinoff_prover]
#[verifier::rlimit(60)]
fn number(block: &[u8], order: &Vec<u32>, rank: &Vec<u32>, h: u64) -> (r: (Vec<u32>, bool))
    requires
        0 < h < block.len() <= 0xffff_ffff,
        rows(block@, ints(order@), (h + h) as nat),
        ranks(block@, rank@, h as nat),
    ensures
        ranks(block@, r.0@, (h + h) as nat),
        forall|i: int| 0 <= i < block.len() ==> #[trigger] r.0[i] < block.len(),
        r.1 ==> forall|a: int, b: int|
            #![trigger ints(order@)[a], ints(order@)[b]]
            0 <= a < b < order.len() ==> key(block@, ints(order@)[a], (h + h) as nat) < key(
                block@,
                ints(order@)[b],
                (h + h) as nat,
            ),
{
    let n: usize = block.len();
    let ghost o = ints(order@);
    let ghost g = (h + h) as nat;
    let ghost d = block@;
    let mut out: Vec<u32> = vec![0; n];
    let mut distinct: bool = true;
    let mut current: u32 = 0;
    let mut a: usize = 0;
    while a < n
        invariant
            a <= n,
            n == block.len(),
            d == block@,
            o == ints(order@),
            order.len() == n,
            rank.len() == n,
            out.len() == n,
            0 < h < n,
            n <= 0xffff_ffff,
            g == h + h,
            rows(d, o, g),
            ranks(d, rank@, h as nat),
            a == 0 ==> current == 0,
            a > 0 ==> current == out[o[a - 1]],
            forall|x: int| 0 <= x < a ==> out[#[trigger] o[x]] <= x,
            forall|x: int, y: int|
                #![trigger o[x], o[y]]
                0 <= x < y < a ==> (out[o[x]] < out[o[y]] <==> key(d, o[x], g) < key(d, o[y], g))
                    && out[o[x]] <= out[o[y]],
            distinct ==> forall|x: int, y: int|
                #![trigger o[x], o[y]]
                0 <= x < y < a ==> key(d, o[x], g) < key(d, o[y], g),
        decreases n - a,
    {
        let i: usize = order[a] as usize;
        assert(i == o[a as int]);
        let ghost was = out@;
        assert(a > 0 ==> out[o[a - 1]] <= a - 1);
        if a > 0 {
            let p: usize = order[a - 1] as usize;
            assert(p == o[a - 1]);
            let further: u64 = i as u64 + h;
            let fi: usize = if further >= n as u64 {
                (further - n as u64) as usize
            } else {
                further as usize
            };
            let further: u64 = p as u64 + h;
            let fp: usize = if further >= n as u64 {
                (further - n as u64) as usize
            } else {
                further as usize
            };
            proof {
                lemma_ahead(i as int, h as int, n as int);
                lemma_ahead(p as int, h as int, n as int);
                lemma_key_mod(d, i + h, fi as int, h as nat);
                lemma_key_mod(d, p + h, fp as int, h as nat);
                lemma_pair_order(d, i as int, p as int, h as nat, h as nat);
                assert(rank@[i as int] == rank@[p as int] <==> key(d, i as int, h as nat) == key(
                    d,
                    p as int,
                    h as nat,
                ));
                assert(rank@[fi as int] == rank@[fp as int] <==> key(d, fi as int, h as nat)
                    == key(d, fp as int, h as nat));
                assert(key(d, o[a - 1], g) <= key(d, o[a as int], g));
            }
            if rank[i] == rank[p] && rank[fi] == rank[fp] {
                distinct = false;
            } else {
                current = a as u32;
            }
        }
        out.set(i, current);
        proof {
            assert forall|x: int| 0 <= x < a implies out[#[trigger] o[x]] == was[o[x]] by {
                assert(o[x] != o[a as int]);
            }
            assert(current <= a);
            assert forall|x: int| 0 <= x < a + 1 implies out[#[trigger] o[x]] <= x by {
                if x < a {
                    assert(was[o[x]] <= x);
                }
            }
            assert forall|x: int, y: int|
                #![trigger o[x], o[y]]
                0 <= x < y < a + 1 implies (out[o[x]] < out[o[y]] <==> key(d, o[x], g) < key(
                d,
                o[y],
                g,
            )) && out[o[x]] <= out[o[y]] by {
                if y == a {
                    let w = o[a - 1];
                    assert(out[w] == was[w]);
                    assert(key(d, o[x], g) <= key(d, o[y], g));
                    if x < a - 1 {
                        assert(was[o[x]] <= was[w]);
                        assert(key(d, o[x], g) <= key(d, w, g));
                    }
                }
            }
            assert forall|x: int, y: int|
                #![trigger o[x], o[y]]
                distinct && 0 <= x < y < a + 1 implies key(d, o[x], g) < key(d, o[y], g) by {
                if y == a {
                    if x < a - 1 {
                        assert(key(d, o[x], g) < key(d, o[a - 1], g));
                    }
                }
            }
        }
        a = a + 1;
    }
    proof {
        lemma_permutes_all(o, n as nat);
        assert forall|i: int, j: int|
            #![trigger out@[i], out@[j]]
            0 <= i < n && 0 <= j < n implies (out@[i] < out@[j] <==> key(d, i, g) < key(
            d,
            j,
            g,
        )) by {
            assert(o.contains(i) && o.contains(j));
            let x = choose|x: int| 0 <= x < n && o[x] == i;
            let y = choose|y: int| 0 <= y < n && o[y] == j;
            if x < y {
                assert(out[o[x]] <= out[o[y]]);
            } else if y < x {
                assert(out[o[y]] <= out[o[x]]);
                assert(out[o[y]] < out[o[x]] <==> key(d, o[y], g) < key(d, o[x], g));
                assert(key(d, o[y], g) <= key(d, o[x], g));
            }
        }
        assert forall|i: int| 0 <= i < n implies #[trigger] out[i] < n by {
            assert(o.contains(i));
            let x = choose|x: int| 0 <= x < n && o[x] == i;
            assert(out[o[x]] <= x);
        }
    }
    (out, distinct)
}

/// `h` on, around the end.
proof fn lemma_ahead(x: int, h: int, n: int)
    requires
        0 <= x < n,
        0 <= h < n,
    ensures
        (x + h) % n == (if x + h >= n {
            x + h - n
        } else {
            x + h
        }) % n,
{
    if x + h >= n {
        lemma_mod_add_multiples_vanish(x + h - n, n);
        assert(x + h == n + (x + h - n));
    }
}

/// Sort the rotations of a block, and give their last column and the first
/// row that holds the block.
#[verifier::spinoff_prover]
#[verifier::rlimit(60)]
pub fn burrows_wheeler(block: &[u8]) -> (r: (Vec<u8>, usize))
    requires
        block.len() <= 0xffff_ffff,
    ensures
        block.len() == 0 ==> r.0.len() == 0 && r.1 == 0,
        block.len() > 0 ==> transformed(block@, r.0@, r.1 as int),
{
    let n: usize = block.len();
    if n == 0 {
        return (Vec::new(), 0);
    }
    let ghost d = block@;
    let mut rank: Vec<u32> = Vec::with_capacity(n);
    let mut i: usize = 0;
    while i < n
        invariant
            i <= n,
            n == block.len(),
            d == block@,
            rank.len() == i,
            forall|k: int| 0 <= k < i ==> #[trigger] rank[k] == d[k],
        decreases n - i,
    {
        rank.push(block[i] as u32);
        i = i + 1;
    }
    let mut order: Vec<u32> = stable_order(rank.as_slice(), 256);
    let mut bound: usize = 256;
    let mut h: u64 = 1;
    let mut distinct: bool = false;
    proof {
        lemma_ordered_permutes(rank@, 256);
        let o = ints(order@);
        assert(o =~= sorting::ordered(rank@, 256));
        assert forall|x: int| 0 <= x < n implies #[trigger] key(d, x, 1) == rank@[x] by {
            reveal_with_fuel(key, 2);
            lemma_small_mod(x as nat, n as nat);
        }
        assert forall|a: int, b: int|
            #![trigger o[a], o[b]]
            0 <= a < b < o.len() implies key(d, o[a], 1) <= key(d, o[b], 1) by {
            sorting::lemma_ordered_sorted(rank@, 256, a, b);
        }
    }
    while h < n as u64 && !distinct
        invariant
            n == block.len(),
            0 < n <= 0xffff_ffff,
            d == block@,
            0 < h <= 0x1_ffff_ffff,
            order.len() == n,
            rank.len() == n,
            rows(d, ints(order@), h as nat),
            ranks(d, rank@, h as nat),
            forall|k: int| 0 <= k < n ==> #[trigger] rank[k] < bound,
            distinct ==> forall|a: int, b: int|
                #![trigger ints(order@)[a], ints(order@)[b]]
                0 <= a < b < order.len() ==> key(d, ints(order@)[a], h as nat) < key(
                    d,
                    ints(order@)[b],
                    h as nat,
                ),
        decreases (if h < n {
            n - h
        } else {
            0
        }),
    {
        let ghost o = ints(order@);
        let mut moved: Vec<u32> = Vec::with_capacity(n);
        let mut keys: Vec<u32> = Vec::with_capacity(n);
        let mut k: usize = 0;
        while k < n
            invariant
                k <= n,
                n == block.len(),
                0 < n <= 0xffff_ffff,
                d == block@,
                0 < h < n,
                order.len() == n,
                rank.len() == n,
                o == ints(order@),
                permutes(o, n as nat),
                moved.len() == k,
                keys.len() == k,
                forall|k: int| 0 <= k < n ==> #[trigger] rank[k] < bound,
                forall|j: int| 0 <= j < k ==> #[trigger] moved[j] == (o[j] - h) % (n as int),
                forall|j: int| 0 <= j < k ==> #[trigger] moved[j] < n,
                forall|j: int| 0 <= j < k ==> #[trigger] keys[j] == rank[moved[j] as int],
                forall|j: int| 0 <= j < k ==> #[trigger] keys[j] < bound,
            decreases n - k,
        {
            let at: u64 = order[k] as u64;
            assert(at == o[k as int]);
            let back: u64 = if at >= h {
                at - h
            } else {
                at + n as u64 - h
            };
            proof {
                lemma_back(at as int, h as int, n as int);
            }
            moved.push(back as u32);
            keys.push(rank[back as usize]);
            k = k + 1;
        }
        let sorted: Vec<u32> = stable_order(keys.as_slice(), bound);
        let mut next: Vec<u32> = Vec::with_capacity(n);
        proof {
            lemma_ordered_permutes(keys@, bound as nat);
        }
        k = 0;
        while k < n
            invariant
                k <= n,
                sorted.len() == n,
                moved.len() == n,
                next.len() == k,
                permutes(sorting::ordered(keys@, bound as nat), n as nat),
                forall|j: int|
                    0 <= j < n ==> #[trigger] sorted[j] == sorting::ordered(
                        keys@,
                        bound as nat,
                    )[j],
                forall|j: int| 0 <= j < k ==> #[trigger] next[j] == moved[sorted[j] as int],
            decreases n - k,
        {
            assert(sorted[k as int] == sorting::ordered(keys@, bound as nat)[k as int]);
            next.push(moved[sorted[k] as usize]);
            k = k + 1;
        }
        proof {
            lemma_round(
                d,
                o,
                rank@,
                ints(moved@),
                keys@,
                bound as nat,
                ints(next@),
                h as nat,
            );
        }
        let (numbers, apart) = number(block, &next, &rank, h);
        order = next;
        rank = numbers;
        bound = n;
        distinct = apart;
        h = h + h;
    }
    let ghost o = ints(order@);
    let mut last: Vec<u8> = Vec::with_capacity(n);
    let mut origin: usize = n;
    i = 0;
    proof {
        lemma_permutes_all(o, n as nat);
        assert(o.contains(0));
    }
    while i < n
        invariant
            i <= n,
            n == block.len(),
            0 < n,
            d == block@,
            order.len() == n,
            rank.len() == n,
            o == ints(order@),
            rows(d, o, h as nat),
            ranks(d, rank@, h as nat),
            last.len() == i,
            o.contains(0),
            forall|r: int| 0 <= r < i ==> #[trigger] last[r] == d[(o[r] - 1) % (n as int)],
            origin < i || origin == n,
            origin < n ==> key(d, o[origin as int], h as nat) == key(d, 0, h as nat) && (origin > 0
                ==> key(d, o[origin - 1], h as nat) < key(d, 0, h as nat)),
            origin == n ==> forall|r: int|
                #![trigger o[r]]
                0 <= r < i ==> key(d, o[r], h as nat) != key(d, 0, h as nat),
        decreases n - i,
    {
        let at: usize = order[i] as usize;
        assert(at == o[i as int]);
        let before: usize = if at == 0 {
            n - 1
        } else {
            at - 1
        };
        proof {
            lemma_back_one(at as int, n as int);
            assert(rank@[at as int] == rank@[0] <==> key(d, at as int, h as nat) == key(
                d,
                0,
                h as nat,
            ));
            if origin == n && rank@[at as int] == rank@[0] && i > 0 {
                assert(key(d, o[i - 1], h as nat) <= key(d, o[i as int], h as nat));
            }
        }
        if origin == n && rank[at] == rank[0] {
            origin = i;
        }
        last.push(block[before]);
        i = i + 1;
    }
    proof {
        if origin == n {
            let z = choose|z: int| 0 <= z < n && o[z] == 0;
            assert(key(d, o[z], h as nat) == key(d, 0, h as nat));
        }
        lemma_sorted(d, o, h as nat, origin as int);
        assert(transformed(d, last@, origin as int));
    }
    (last, origin)
}

/// Walk a last column back to its block.
pub(crate) fn restore(last: &[u8], origin: usize) -> (r: Vec<u8>)
    requires
        origin < last.len() <= 0xffff_ffff,
    ensures
        r@ == restored(last@, origin as int),
        r.len() == last.len(),
{
    let n: usize = last.len();
    let mut keys: Vec<u32> = Vec::with_capacity(n);
    let mut i: usize = 0;
    while i < n
        invariant
            i <= n,
            n == last.len(),
            keys.len() == i,
            forall|k: int| 0 <= k < i ==> #[trigger] keys[k] == last[k],
        decreases n - i,
    {
        keys.push(last[i] as u32);
        i = i + 1;
    }
    let follow: Vec<u32> = stable_order(keys.as_slice(), 256);
    let ghost f = follows(last@);
    proof {
        assert(keys@ =~= column(last@));
        lemma_ordered_permutes(keys@, 256);
    }
    let mut out: Vec<u8> = Vec::with_capacity(n);
    let mut row: usize = follow[origin] as usize;
    let ghost all = restored(last@, origin as int);
    proof {
        assert(out@ + walk(last@, row as int, n as nat) =~= all);
    }
    i = 0;
    while i < n
        invariant
            i <= n,
            n == last.len(),
            f == follows(last@),
            follow.len() == n,
            permutes(f, n as nat),
            forall|j: int| 0 <= j < n ==> #[trigger] follow[j] == f[j],
            row < n,
            out.len() == i,
            out@ + walk(last@, row as int, (n - i) as nat) == all,
        decreases n - i,
    {
        let ghost was = out@;
        let ghost at = row as int;
        out.push(last[row]);
        assert(follow[row as int] == f[row as int]);
        row = follow[row] as usize;
        proof {
            assert(out@ + walk(last@, row as int, (n - i - 1) as nat) =~= was + (seq![last@[at]]
                + walk(last@, row as int, (n - i - 1) as nat)));
        }
        i = i + 1;
    }
    proof {
        assert(out@ + walk(last@, row as int, 0) =~= out@);
    }
    out
}

} // verus!
