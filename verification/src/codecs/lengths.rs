//! Code lengths for prefix codes: the package-merge construction, and the
//! sums by which a list of lengths is known to make a code.
use vstd::arithmetic::power2::*;
use vstd::prelude::*;

verus! {

/// How many entries of `s` equal `l`.
pub open spec fn cnt(s: Seq<u8>, l: int) -> nat
    decreases s.len(),
{
    if s.len() == 0 {
        0
    } else {
        cnt(s.drop_last(), l) + if s.last() as int == l {
            1nat
        } else {
            0
        }
    }
}

/// The Kraft sum of the codes no longer than `l`, in units of a code of
/// length `l`.
pub open spec fn kraft(s: Seq<u8>, l: int) -> nat
    decreases s.len(),
{
    if s.len() == 0 {
        0
    } else {
        kraft(s.drop_last(), l) + if 0 < s.last() as int <= l {
            pow2((l - s.last()) as nat)
        } else {
            0
        }
    }
}

/// Lengths up to `max` that make a code in which every long enough bit string
/// starts with exactly one code word.
pub open spec fn complete(s: Seq<u8>, max: int) -> bool {
    (forall|i: int| 0 <= i < s.len() ==> #[trigger] s[i] <= max) && kraft(s, max) == pow2(
        max as nat,
    )
}

/// The sum over all entries, an entry of zero counting as a code of length
/// zero.
pub open spec fn weight_sum(s: Seq<u8>, l: int) -> nat
    decreases s.len(),
{
    if s.len() == 0 {
        0
    } else {
        weight_sum(s.drop_last(), l) + pow2((l - s.last()) as nat)
    }
}

pub proof fn lemma_kraft_step(s: Seq<u8>, l: int)
    requires
        0 < l,
    ensures
        kraft(s, l) == 2 * kraft(s, l - 1) + cnt(s, l),
    decreases s.len(),
{
    if s.len() > 0 {
        lemma_kraft_step(s.drop_last(), l);
        let x = s.last() as int;
        if 0 < x < l {
            lemma_pow2_unfold((l - x) as nat);
        }
        lemma2_to64();
    }
}

pub proof fn lemma_kraft_zero(s: Seq<u8>)
    ensures
        kraft(s, 0) == 0,
    decreases s.len(),
{
    if s.len() > 0 {
        lemma_kraft_zero(s.drop_last());
    }
}

/// Beyond the longest code the sum only doubles.
pub proof fn lemma_kraft_extend(s: Seq<u8>, m: int, l: int)
    requires
        0 <= m <= l,
        forall|i: int| 0 <= i < s.len() ==> #[trigger] s[i] <= m,
    ensures
        kraft(s, l) == pow2((l - m) as nat) * kraft(s, m),
    decreases l,
{
    let k = kraft(s, m);
    if l == m {
        lemma2_to64();
        assert(1 * k == k);
    } else {
        lemma_kraft_extend(s, m, l - 1);
        lemma_kraft_step(s, l);
        lemma_cnt_above(s, m, l);
        lemma_pow2_unfold((l - m) as nat);
        let a = pow2((l - 1 - m) as nat);
        assert(pow2((l - m) as nat) * k == 2 * (a * k)) by (nonlinear_arith)
            requires
                pow2((l - m) as nat) == 2 * a,
        ;
    }
}

proof fn lemma_cnt_above(s: Seq<u8>, m: int, l: int)
    requires
        m < l,
        forall|i: int| 0 <= i < s.len() ==> #[trigger] s[i] <= m,
    ensures
        cnt(s, l) == 0,
    decreases s.len(),
{
    if s.len() > 0 {
        assert(s[s.len() - 1] <= m);
        assert forall|i: int| 0 <= i < s.drop_last().len() implies #[trigger] s.drop_last()[i]
            <= m by {
            assert(s[i] <= m);
        }
        lemma_cnt_above(s.drop_last(), m, l);
    }
}

/// The sum at a shorter length is no larger than its share.
pub proof fn lemma_kraft_monotone(s: Seq<u8>, l: int, m: int)
    requires
        0 <= l <= m,
    ensures
        kraft(s, l) * pow2((m - l) as nat) <= kraft(s, m),
    decreases m,
{
    let k = kraft(s, l);
    if l == m {
        lemma2_to64();
        assert(k * 1 == k);
    } else {
        lemma_kraft_monotone(s, l, m - 1);
        lemma_kraft_step(s, m);
        lemma_pow2_unfold((m - l) as nat);
        let a = pow2((m - 1 - l) as nat);
        assert(k * pow2((m - l) as nat) == 2 * (k * a)) by (nonlinear_arith)
            requires
                pow2((m - l) as nat) == 2 * a,
        ;
    }
}

/// In a code that is not over full no prefix of the lengths is either.
pub proof fn lemma_kraft_bound(s: Seq<u8>, l: int, m: int)
    requires
        0 <= l <= m,
        kraft(s, m) <= pow2(m as nat),
    ensures
        kraft(s, l) <= pow2(l as nat),
{
    lemma_kraft_monotone(s, l, m);
    lemma_pow2_adds(l as nat, (m - l) as nat);
    lemma_pow2_pos((m - l) as nat);
    let k = kraft(s, l);
    let d = pow2((m - l) as nat);
    assert(k <= pow2(l as nat)) by (nonlinear_arith)
        requires
            k * d <= pow2(l as nat) * d,
            d > 0,
    ;
}

pub proof fn lemma_kraft_update(s: Seq<u8>, j: int, x: u8, l: int)
    requires
        0 <= j < s.len(),
        s[j] == 0,
        0 < x <= l,
    ensures
        kraft(s.update(j, x), l) == kraft(s, l) + pow2((l - x) as nat),
    decreases s.len(),
{
    let t = s.update(j, x);
    if j == s.len() - 1 {
        assert(t.drop_last() =~= s.drop_last());
    } else {
        lemma_kraft_update(s.drop_last(), j, x, l);
        assert(t.drop_last() =~= s.drop_last().update(j, x));
    }
}

pub proof fn lemma_kraft_zeros(s: Seq<u8>, l: int)
    requires
        forall|i: int| 0 <= i < s.len() ==> s[i] == 0,
    ensures
        kraft(s, l) == 0,
    decreases s.len(),
{
    if s.len() > 0 {
        lemma_kraft_zeros(s.drop_last(), l);
    }
}

/// Trailing zeros add nothing.
pub proof fn lemma_kraft_trailing_zeros(s: Seq<u8>, n: int, l: int)
    requires
        0 <= n <= s.len(),
        forall|i: int| n <= i < s.len() ==> s[i] == 0,
    ensures
        kraft(s.take(n), l) == kraft(s, l),
    decreases s.len(),
{
    if n == s.len() {
        assert(s.take(n) =~= s);
    } else {
        lemma_kraft_trailing_zeros(s.drop_last(), n, l);
        assert(s.drop_last().take(n) =~= s.take(n));
    }
}

proof fn lemma_weight_step(s: Seq<u8>, l: int)
    requires
        forall|i: int| 0 <= i < s.len() ==> #[trigger] s[i] <= l,
    ensures
        weight_sum(s, l + 1) == 2 * weight_sum(s, l),
    decreases s.len(),
{
    if s.len() > 0 {
        assert(s[s.len() - 1] <= l);
        assert forall|i: int| 0 <= i < s.drop_last().len() implies #[trigger] s.drop_last()[i]
            <= l by {
            assert(s[i] <= l);
        }
        lemma_weight_step(s.drop_last(), l);
        lemma_pow2_unfold((l + 1 - s.last()) as nat);
    }
}

proof fn lemma_weight_update(s: Seq<u8>, j: int, x: u8, l: int)
    requires
        0 <= j < s.len(),
        s[j] <= l,
        x <= l,
    ensures
        weight_sum(s.update(j, x), l) + pow2((l - s[j]) as nat) == weight_sum(s, l) + pow2(
            (l - x) as nat,
        ),
    decreases s.len(),
{
    let t = s.update(j, x);
    if j == s.len() - 1 {
        assert(t.drop_last() =~= s.drop_last());
    } else {
        lemma_weight_update(s.drop_last(), j, x, l);
        assert(t.drop_last() =~= s.drop_last().update(j, x));
    }
}

proof fn lemma_weight_zeros(s: Seq<u8>)
    requires
        forall|i: int| 0 <= i < s.len() ==> s[i] == 0,
    ensures
        weight_sum(s, 0) == s.len(),
    decreases s.len(),
{
    lemma2_to64();
    if s.len() > 0 {
        lemma_weight_zeros(s.drop_last());
    }
}

proof fn lemma_weight_lower(s: Seq<u8>, l: int)
    ensures
        weight_sum(s, l) >= s.len(),
    decreases s.len(),
{
    if s.len() > 0 {
        lemma_weight_lower(s.drop_last(), l);
        lemma_pow2_pos((l - s.last()) as nat);
    }
}

/// One entry's share and at least one for each of the others.
proof fn lemma_weight_one(s: Seq<u8>, j: int, l: int)
    requires
        0 <= j < s.len(),
    ensures
        weight_sum(s, l) >= pow2((l - s[j]) as nat) + s.len() - 1,
    decreases s.len(),
{
    if j == s.len() - 1 {
        lemma_weight_lower(s.drop_last(), l);
    } else {
        lemma_weight_one(s.drop_last(), j, l);
        lemma_pow2_pos((l - s.last()) as nat);
    }
}

/// Something to take on a level: a symbol, or a pair of the level before.
#[derive(Clone, Copy)]
pub struct Item {
    pub weight: u64,
    pub is_leaf: bool,
}

/// How many of `n` things there are from the `i`-th on.
pub open spec fn left(n: nat, i: int) -> int {
    if i < n {
        n - i
    } else {
        0
    }
}

/// The symbols from the `i`-th on and the pairs of the level before from the
/// `j`-th on, merged by weight, a symbol first where they weigh the same.
pub open spec fn merged_from(w: Seq<u64>, previous: Seq<Item>, i: int, j: int) -> Seq<Item>
    decreases left(w.len(), i) + left(previous.len() / 2, j),
{
    if 0 <= i < w.len() && 0 <= j < previous.len() / 2 {
        let pair = previous[2 * j].weight + previous[2 * j + 1].weight;
        if w[i] <= pair {
            seq![Item { weight: w[i], is_leaf: true }] + merged_from(w, previous, i + 1, j)
        } else {
            seq![Item { weight: pair as u64, is_leaf: false }] + merged_from(w, previous, i, j + 1)
        }
    } else if 0 <= i < w.len() {
        seq![Item { weight: w[i], is_leaf: true }] + merged_from(w, previous, i + 1, j)
    } else if 0 <= j < previous.len() / 2 {
        let pair = previous[2 * j].weight + previous[2 * j + 1].weight;
        seq![Item { weight: pair as u64, is_leaf: false }] + merged_from(w, previous, i, j + 1)
    } else {
        Seq::empty()
    }
}

/// The items of a level. The lowest has the symbols alone, and each other
/// also the pairs of the one before.
pub open spec fn level_of(w: Seq<u64>, l: nat) -> Seq<Item>
    decreases l,
{
    if l == 0 {
        Seq::new(w.len(), |t: int| Item { weight: w[t], is_leaf: true })
    } else {
        merged_from(w, level_of(w, (l - 1) as nat), 0, 0)
    }
}

/// On how many of the lowest `l` levels symbol `k` is taken, where the first
/// `take` items of the top one are, and below it what its pairs are made of.
pub open spec fn times_taken(w: Seq<u64>, l: nat, take: int, k: int) -> nat
    decreases l,
{
    if l == 0 {
        0
    } else {
        let items = level_of(w, (l - 1) as nat);
        let here = if take < items.len() {
            take
        } else {
            items.len() as int
        };
        let leaves = leaves_in(items, here);
        (if k < leaves {
            1nat
        } else {
            0
        }) + times_taken(w, (l - 1) as nat, 2 * (here - leaves), k)
    }
}

/// How many of the first `t` items are leaves.
pub open spec fn leaves_in(s: Seq<Item>, t: int) -> int
    decreases t,
{
    if t <= 0 {
        0
    } else {
        leaves_in(s, t - 1) + if s[t - 1].is_leaf {
            1int
        } else {
            0
        }
    }
}

proof fn lemma_leaves_prefix(s: Seq<Item>, r: Seq<Item>, t: int)
    requires
        t <= s.len(),
        t <= r.len(),
        forall|i: int| 0 <= i < t ==> s[i] == r[i],
    ensures
        leaves_in(s, t) == leaves_in(r, t),
    decreases t,
{
    if t > 0 {
        lemma_leaves_prefix(s, r, t - 1);
    }
}

proof fn lemma_leaves_monotone(s: Seq<Item>, a: int, b: int)
    requires
        0 <= a <= b,
    ensures
        0 <= leaves_in(s, a) <= leaves_in(s, b),
        leaves_in(s, b) - leaves_in(s, a) <= b - a,
        leaves_in(s, a) <= a,
    decreases b,
{
    if b > 0 {
        if a < b {
            lemma_leaves_monotone(s, a, b - 1);
        } else {
            lemma_leaves_monotone(s, a - 1, b - 1);
        }
    }
}

/// The leaf number `k` stands somewhere before `t` if more than `k` leaves do.
proof fn lemma_find_leaf(s: Seq<Item>, k: int, t: int) -> (q: int)
    requires
        0 <= k < leaves_in(s, t),
        t <= s.len(),
    ensures
        0 <= q < t,
        s[q].is_leaf,
        leaves_in(s, q) == k,
    decreases t,
{
    if s[t - 1].is_leaf && leaves_in(s, t - 1) == k {
        t - 1
    } else {
        lemma_find_leaf(s, k, t - 1)
    }
}

/// The package number `j` stands somewhere before `t` if more than `j`
/// packages do.
proof fn lemma_find_package(s: Seq<Item>, j: int, t: int) -> (q: int)
    requires
        0 <= j < t - leaves_in(s, t),
        t <= s.len(),
    ensures
        0 <= q < t,
        !s[q].is_leaf,
        q - leaves_in(s, q) == j,
    decreases t,
{
    lemma_leaves_monotone(s, t - 1, t);
    if !s[t - 1].is_leaf && t - 1 - leaves_in(s, t - 1) == j {
        t - 1
    } else {
        lemma_find_package(s, j, t - 1)
    }
}

spec fn first_level(w: Seq<u64>, cur: Seq<Item>) -> bool {
    &&& cur.len() == w.len()
    &&& forall|t: int|
        0 <= t < cur.len() ==> (#[trigger] cur[t]).is_leaf && cur[t].weight == w[t]
}

/// What stands at place `t` of a level: the next leaf, or the next pair of
/// the level before, which is lighter than every leaf still to come.
spec fn place_ok(w: Seq<u64>, prev: Seq<Item>, cur: Seq<Item>, t: int) -> bool {
    let a = leaves_in(cur, t);
    if cur[t].is_leaf {
        a < w.len() && cur[t].weight == w[a]
    } else {
        &&& 2 * (t - a) + 1 < prev.len()
        &&& cur[t].weight == prev[2 * (t - a)].weight + prev[2 * (t - a) + 1].weight
        &&& forall|k: int| a <= k < w.len() ==> #[trigger] w[k] > cur[t].weight
    }
}

spec fn next_level(w: Seq<u64>, prev: Seq<Item>, cur: Seq<Item>) -> bool {
    &&& leaves_in(cur, cur.len() as int) == w.len()
    &&& cur.len() == w.len() + prev.len() / 2
    &&& forall|t: int| 0 <= t < cur.len() ==> #[trigger] place_ok(w, prev, cur, t)
}

spec fn sorted(w: Seq<u64>) -> bool {
    forall|i: int, j: int| 0 <= i <= j < w.len() ==> w[i] <= w[j]
}

/// Taking a prefix of a level and, below it, the pairs that its packages are
/// made of never takes a leaf below that was not taken above.
proof fn lemma_taken_leaves(w: Seq<u64>, prev: Seq<Item>, cur: Seq<Item>, take: int)
    requires
        sorted(w),
        next_level(w, prev, cur),
        0 <= take <= cur.len(),
        forall|t: int|
            0 <= t < prev.len() && (#[trigger] prev[t]).is_leaf ==> leaves_in(prev, t) < w.len()
                && prev[t].weight == w[leaves_in(prev, t)],
    ensures
        ({
            let a = leaves_in(cur, take);
            let p = take - a;
            &&& 0 <= a <= w.len()
            &&& 0 <= 2 * p <= prev.len()
            &&& leaves_in(prev, 2 * p) <= a
        }),
{
    let a = leaves_in(cur, take);
    let p = take - a;
    lemma_leaves_monotone(cur, take, cur.len() as int);
    let below = leaves_in(prev, 2 * p);
    lemma_leaves_monotone(prev, 0, 2 * p);
    if below > 0 {
        let k = below - 1;
        let q = lemma_find_leaf(prev, k, 2 * p);
        let j = q / 2;
        let t = lemma_find_package(cur, j, take);
        assert(place_ok(w, prev, cur, t));
        assert(prev[q].weight == w[k]);
        assert(cur[t].weight >= w[k]);
        lemma_leaves_monotone(cur, t, take);
        if k >= leaves_in(cur, t) {
            assert(w[k] > cur[t].weight);
        }
    }
}

proof fn lemma_first_level_leaves(w: Seq<u64>, cur: Seq<Item>, t: int)
    requires
        first_level(w, cur),
        0 <= t <= cur.len(),
    ensures
        leaves_in(cur, t) == t,
    decreases t,
{
    if t > 0 {
        lemma_first_level_leaves(w, cur, t - 1);
        assert(cur[t - 1].is_leaf);
    }
}

/// One level from the one before: the leaves and the pairs, merged by weight,
/// a leaf first where they weigh the same.
fn merge_level(w: &Vec<u64>, previous: &Vec<Item>, Ghost(bound): Ghost<int>) -> (merged: Vec<Item>)
    requires
        sorted(w@),
        w.len() + previous.len() < usize::MAX,
        0 <= bound < 0x4000_0000_0000_0000,
        forall|t: int| 0 <= t < w.len() ==> #[trigger] w[t] <= bound,
        forall|t: int| 0 <= t < previous.len() ==> (#[trigger] previous[t]).weight <= bound,
    ensures
        next_level(w@, previous@, merged@),
        merged@ == merged_from(w@, previous@, 0, 0),
        forall|t: int| 0 <= t < merged.len() ==> (#[trigger] merged[t]).weight <= 2 * bound,
{
    let pairs: usize = previous.len() / 2;
    let mut merged: Vec<Item> = Vec::with_capacity(w.len() + pairs);
    let mut i: usize = 0;
    let mut j: usize = 0;
    assert(merged@ + merged_from(w@, previous@, 0, 0) =~= merged_from(w@, previous@, 0, 0));
    while i < w.len() || j < pairs
        invariant
            merged@ + merged_from(w@, previous@, i as int, j as int) == merged_from(
                w@,
                previous@,
                0,
                0,
            ),
            sorted(w@),
            w.len() + previous.len() < usize::MAX,
            0 <= bound < 0x4000_0000_0000_0000,
            forall|t: int| 0 <= t < w.len() ==> #[trigger] w[t] <= bound,
            forall|t: int| 0 <= t < previous.len() ==> (#[trigger] previous[t]).weight <= bound,
            pairs == previous.len() / 2,
            i <= w.len(),
            j <= pairs,
            merged.len() == i + j,
            leaves_in(merged@, merged.len() as int) == i,
            forall|t: int| 0 <= t < merged.len() ==> #[trigger] place_ok(w@, previous@, merged@, t),
            forall|t: int| 0 <= t < merged.len() ==> (#[trigger] merged[t]).weight <= 2 * bound,
        decreases w.len() - i + pairs - j,
    {
        let ghost before = merged@;
        let ghost rest = merged_from(w@, previous@, i as int, j as int);
        let mut take_leaf: bool = false;
        let mut package: u64 = 0;
        if j < pairs {
            package = previous[2 * j].weight + previous[2 * j + 1].weight;
            take_leaf = i < w.len() && w[i] <= package;
        } else {
            take_leaf = true;
        }
        if take_leaf {
            merged.push(Item { weight: w[i], is_leaf: true });
            i = i + 1;
        } else {
            merged.push(Item { weight: package, is_leaf: false });
            j = j + 1;
        }
        proof {
            let after = merged_from(w@, previous@, i as int, j as int);
            assert(rest == seq![merged@.last()] + after);
            assert(merged@ + after =~= before + rest);
            let n = before.len() as int;
            lemma_leaves_prefix(before, merged@, n);
            assert forall|t: int| 0 <= t < merged.len() implies #[trigger] place_ok(
                w@,
                previous@,
                merged@,
                t,
            ) by {
                lemma_leaves_prefix(before, merged@, t);
                if t < n {
                    assert(place_ok(w@, previous@, before, t));
                    assert(merged@[t] == before[t]);
                }
            }
        }
    }
    assert(merged_from(w@, previous@, i as int, j as int) =~= Seq::empty());
    assert(merged@ + Seq::<Item>::empty() =~= merged@);
    merged
}

/// All levels, each but the first made of the one before.
spec fn levels_ok(w: Seq<u64>, levels: Seq<Vec<Item>>) -> bool {
    &&& levels.len() > 0
    &&& first_level(w, levels[0]@)
    &&& forall|k: int|
        1 <= k < levels.len() ==> next_level(w, levels[k - 1]@, (#[trigger] levels[k])@)
}

fn build_levels(w: &Vec<u64>, max_bits: usize) -> (levels: Vec<Vec<Item>>)
    requires
        sorted(w@),
        2 <= w.len() <= pow2(max_bits as nat),
        1 <= max_bits <= 20,
        forall|t: int| 0 <= t < w.len() ==> #[trigger] w[t] <= u32::MAX,
    ensures
        w.len() <= 0x10_0000,
        levels.len() == max_bits,
        levels_ok(w@, levels@),
        forall|k: int| 0 <= k < max_bits ==> (#[trigger] levels[k])@ == level_of(w@, k as nat),
        levels[max_bits - 1].len() >= 2 * w.len() - 2,
        leaves_in(levels[max_bits - 1]@, levels[max_bits - 1].len() as int) == w.len(),
{
    let n: usize = w.len();
    proof {
        lemma2_to64();
        if max_bits < 20 {
            lemma_pow2_strictly_increases(max_bits as nat, 20);
        }
    }
    let mut leaves: Vec<Item> = Vec::with_capacity(n);
    let mut i: usize = 0;
    while i < n
        invariant
            i <= n == w.len(),
            leaves.len() == i,
            forall|t: int|
                0 <= t < leaves.len() ==> (#[trigger] leaves[t]).is_leaf && leaves[t].weight == w[t],
        decreases n - i,
    {
        leaves.push(Item { weight: w[i], is_leaf: true });
        i = i + 1;
    }
    let mut levels: Vec<Vec<Item>> = Vec::with_capacity(max_bits);
    levels.push(leaves);
    proof {
        lemma_first_level_leaves(w@, levels[0]@, n as int);
        assert(levels[0]@ =~= level_of(w@, 0));
    }
    let ghost mut bound: int = u32::MAX as int;
    let mut l: usize = 1;
    while l < max_bits
        invariant
            n == w.len(),
            sorted(w@),
            2 <= n <= pow2(max_bits as nat) <= 0x10_0000,
            1 <= l <= max_bits <= 20,
            levels.len() == l,
            bound == u32::MAX * pow2((l - 1) as nat),
            forall|t: int| 0 <= t < w.len() ==> #[trigger] w[t] <= u32::MAX,
            levels_ok(w@, levels@),
            forall|k: int| 0 <= k < l ==> (#[trigger] levels[k])@ == level_of(w@, k as nat),
            leaves_in(levels[l - 1]@, levels[l - 1].len() as int) == n,
            forall|t: int|
                0 <= t < levels[l - 1].len() ==> (#[trigger] levels[l - 1][t]).weight <= bound,
            2 * n - pow2((max_bits - l + 1) as nat) <= levels[l - 1].len() <= 2 * n,
        decreases max_bits - l,
    {
        proof {
            lemma2_to64();
            lemma_pow2_pos((l - 1) as nat);
            if l - 1 < 20 {
                lemma_pow2_strictly_increases((l - 1) as nat, 20);
            }
            lemma_pow2_unfold(l as nat);
            lemma_pow2_unfold((max_bits - l + 1) as nat);
            assert(u32::MAX <= bound < 0x4000_0000_0000_0000) by (nonlinear_arith)
                requires
                    bound == u32::MAX * pow2((l - 1) as nat),
                    1 <= pow2((l - 1) as nat) <= 0x10_0000,
            ;
            assert(2 * bound == u32::MAX * pow2(l as nat)) by (nonlinear_arith)
                requires
                    bound == u32::MAX * pow2((l - 1) as nat),
                    pow2(l as nat) == 2 * pow2((l - 1) as nat),
            ;
        }
        let merged: Vec<Item> = merge_level(w, &levels[l - 1], Ghost(bound));
        let ghost before = levels@;
        levels.push(merged);
        proof {
            bound = 2 * bound;
            assert(levels@[0] == before[0]);
            assert forall|k: int| 0 <= k < l + 1 implies (#[trigger] levels[k])@ == level_of(
                w@,
                k as nat,
            ) by {
                if k < l {
                    assert(levels@[k] == before[k]);
                }
            }
            assert forall|k: int| 1 <= k < l + 1 implies next_level(
                w@,
                levels[k - 1]@,
                (#[trigger] levels[k])@,
            ) by {
                assert(levels@[k - 1] == before[k - 1]);
                if k < l {
                    assert(levels@[k] == before[k]);
                }
            }
        }
        l = l + 1;
    }
    proof {
        lemma2_to64();
    }
    levels
}

/// The lengths of a prefix code over leaves of the given weights, lightest
/// first, none longer than `max_bits`.
#[verifier::spinoff_prover]
#[verifier::rlimit(60)]
fn package_merge(w: &Vec<u64>, max_bits: usize) -> (lengths: Vec<u8>)
    requires
        sorted(w@),
        2 <= w.len() <= pow2(max_bits as nat),
        1 <= max_bits <= 20,
        forall|t: int| 0 <= t < w.len() ==> #[trigger] w[t] <= u32::MAX,
    ensures
        lengths.len() == w.len(),
        weight_sum(lengths@, max_bits as int) == pow2(max_bits as nat),
        forall|i: int| 0 <= i < lengths.len() ==> 1 <= #[trigger] lengths[i] <= max_bits,
        forall|i: int|
            0 <= i < lengths.len() ==> #[trigger] lengths[i] == times_taken(
                w@,
                max_bits as nat,
                2 * w.len() - 2,
                i,
            ),
{
    let n: usize = w.len();
    let levels: Vec<Vec<Item>> = build_levels(w, max_bits);
    let mut lengths: Vec<u8> = vec![0u8; n];
    let mut take: usize = 2 * n - 2;
    proof {
        lemma_weight_zeros(lengths@);
        lemma2_to64();
        let top = levels[max_bits - 1]@;
        lemma_leaves_monotone(top, take as int, top.len() as int);
    }
    let ghost mut taken: int = n as int;
    let mut level: usize = max_bits;
    while level > 0
        invariant
            n == w.len(),
            sorted(w@),
            2 <= n <= 0x10_0000,
            1 <= max_bits <= 20,
            level <= max_bits,
            levels.len() == max_bits,
            levels_ok(w@, levels@),
            forall|k: int| 0 <= k < max_bits ==> (#[trigger] levels[k])@ == level_of(w@, k as nat),
            forall|i: int|
                0 <= i < n ==> #[trigger] lengths[i] + times_taken(
                    w@,
                    level as nat,
                    take as int,
                    i,
                ) == times_taken(w@, max_bits as nat, 2 * n - 2, i),
            lengths.len() == n,
            take % 2 == 0,
            0 <= taken <= n,
            level > 0 ==> take <= levels[level - 1].len() && leaves_in(
                levels[level - 1]@,
                take as int,
            ) <= taken,
            level == 0 ==> take == 0,
            forall|i: int| 0 <= i < taken ==> #[trigger] lengths[i] == max_bits - level,
            forall|i: int| 0 <= i < n ==> #[trigger] lengths[i] <= max_bits - level,
            weight_sum(lengths@, max_bits - level) == pow2((max_bits - level) as nat) + take / 2,
        decreases level,
    {
        let ghost shorter = lengths@;
        level = level - 1;
        let ghost done = max_bits - level;
        let items: &Vec<Item> = &levels[level];
        let mut leaves_taken: usize = 0;
        let mut t: usize = 0;
        while t < take
            invariant
                t <= take <= items.len(),
                leaves_taken == leaves_in(items@, t as int),
                leaves_taken <= t,
            decreases take - t,
        {
            if items[t].is_leaf {
                leaves_taken = leaves_taken + 1;
            }
            t = t + 1;
        }
        proof {
            lemma_weight_step(lengths@, done - 1);
            lemma_pow2_unfold(done as nat);
            lemma_leaves_monotone(items@, 0, take as int);
        }
        let mut i: usize = 0;
        while i < leaves_taken
            invariant
                i <= leaves_taken <= taken <= n,
                lengths.len() == n,
                0 < done <= 20,
                forall|k: int| 0 <= k < i ==> #[trigger] lengths[k] == done,
                forall|k: int| i <= k < taken ==> #[trigger] lengths[k] == done - 1,
                forall|k: int| 0 <= k < n ==> #[trigger] lengths[k] <= done,
                weight_sum(lengths@, done) == pow2(done as nat) + take - i,
                shorter.len() == n,
                forall|k: int| 0 <= k < i ==> #[trigger] lengths[k] == shorter[k] + 1,
                forall|k: int| i <= k < n ==> #[trigger] lengths[k] == shorter[k],
            decreases leaves_taken - i,
        {
            proof {
                lemma_weight_update(lengths@, i as int, done as u8, done);
                lemma2_to64();
                assert(lengths[i as int] == done - 1);
            }
            lengths[i] = lengths[i] + 1;
            i = i + 1;
        }
        proof {
            taken = leaves_taken as int;
            if level > 0 {
                let prev = levels[level - 1]@;
                assert(next_level(w@, prev, levels[level as int]@));
                assert forall|t: int| 0 <= t < prev.len() && (#[trigger] prev[t]).is_leaf implies
                    leaves_in(prev, t) < w.len() && prev[t].weight == w@[leaves_in(prev, t)] by {
                    if level > 1 {
                        assert(next_level(w@, levels[level - 2]@, levels[level - 1]@));
                        assert(place_ok(w@, levels[level - 2]@, prev, t));
                    } else {
                        lemma_first_level_leaves(w@, prev, t);
                    }
                }
                lemma_taken_leaves(w@, prev, levels[level as int]@, take as int);
            } else {
                lemma_first_level_leaves(w@, levels[0]@, take as int);
            }
        }
        proof {
            assert(levels[level as int]@ == level_of(w@, level as nat));
            assert forall|i: int| 0 <= i < n implies #[trigger] lengths[i] + times_taken(
                w@,
                level as nat,
                2 * (take - leaves_taken),
                i,
            ) == times_taken(w@, max_bits as nat, 2 * n - 2, i) by {
                assert(shorter[i] + times_taken(w@, (level + 1) as nat, take as int, i)
                    == times_taken(w@, max_bits as nat, 2 * n - 2, i));
            }
        }
        take = 2 * (take - leaves_taken);
    }
    proof {
        assert forall|i: int| 0 <= i < lengths.len() implies 1 <= #[trigger] lengths[i]
            <= max_bits by {
            lemma_weight_one(lengths@, i, max_bits as int);
        }
    }
    lengths
}

/// The symbols below `s` that occur, lightest first, in order where they
/// weigh the same.
pub open spec fn by_weight(freqs: Seq<u32>, used: Seq<usize>, s: int) -> bool {
    &&& forall|i: int|
        0 <= i < used.len() ==> (#[trigger] used[i]) < s && freqs[used[i] as int] > 0
    &&& forall|i: int, j: int|
        #![trigger used[i], used[j]]
        0 <= i < j < used.len() ==> freqs[used[i] as int] < freqs[used[j] as int] || (
        freqs[used[i] as int] == freqs[used[j] as int] && used[i] < used[j])
    &&& forall|k: usize| k < s && freqs[k as int] > 0 ==> #[trigger] used.contains(k)
}

proof fn lemma_insert_symbol(freqs: Seq<u32>, used: Seq<usize>, at: int, s: usize)
    requires
        s < freqs.len(),
        freqs[s as int] > 0,
        by_weight(freqs, used, s as int),
        0 <= at <= used.len(),
        at > 0 ==> freqs[used[at - 1] as int] <= freqs[s as int],
        forall|i: int|
            at <= i < used.len() ==> freqs[#[trigger] used[i] as int] > freqs[s as int],
    ensures
        by_weight(freqs, used.insert(at, s), s + 1),
{
    let r = used.insert(at, s);
    assert forall|k: usize| k < s + 1 && freqs[k as int] > 0 implies #[trigger] r.contains(k) by {
        if k < s {
            assert(used.contains(k));
            let i = choose|i: int| 0 <= i < used.len() && used[i] == k;
            if i < at {
                assert(r[i] == k);
            } else {
                assert(r[i + 1] == k);
            }
        } else {
            assert(r[at] == s);
        }
    }
    assert forall|i: int| 0 <= i < r.len() implies (#[trigger] r[i]) < s + 1 && freqs[r[i] as int]
        > 0 by {
        if i < at {
            assert(r[i] == used[i]);
        } else if i > at {
            assert(r[i] == used[i - 1]);
        }
    }
    assert forall|i: int, j: int|
        #![trigger r[i], r[j]]
        0 <= i < j < r.len() implies freqs[r[i] as int] < freqs[r[j] as int] || (freqs[r[i] as int]
        == freqs[r[j] as int] && r[i] < r[j]) by {
        if j < at {
            assert(r[i] == used[i] && r[j] == used[j]);
        } else if j == at {
            assert(r[i] == used[i]);
            assert(r[j] == s);
            let last = used[at - 1];
            if i < at - 1 {
                assert(freqs[used[i] as int] <= freqs[last as int]);
            }
        } else if i < at {
            assert(r[i] == used[i] && r[j] == used[j - 1]);
        } else if i == at {
            assert(r[j] == used[j - 1]);
        } else {
            assert(r[i] == used[i - 1] && r[j] == used[j - 1]);
        }
    }
}

/// How many symbols occur.
pub open spec fn occurring(freqs: Seq<u32>) -> nat
    decreases freqs.len(),
{
    if freqs.len() == 0 {
        0
    } else {
        occurring(freqs.drop_last()) + if freqs.last() > 0 {
            1nat
        } else {
            0
        }
    }
}

/// No more symbols occur than there are.
pub proof fn lemma_occurring(freqs: Seq<u32>)
    ensures
        occurring(freqs) <= freqs.len(),
    decreases freqs.len(),
{
    if freqs.len() > 0 {
        lemma_occurring(freqs.drop_last());
    }
}

/// The symbols in use, lightest first, in order where they weigh the same.
fn symbols_by_weight(freqs: &[u32]) -> (used: Vec<usize>)
    ensures
        used.len() == occurring(freqs@),
        by_weight(freqs@, used@, freqs.len() as int),
{
    let mut used: Vec<usize> = Vec::new();
    let mut s: usize = 0;
    while s < freqs.len()
        invariant
            s <= freqs.len(),
            used.len() == occurring(freqs@.take(s as int)),
            by_weight(freqs@, used@, s as int),
        decreases freqs.len() - s,
    {
        assert(freqs@.take(s + 1).drop_last() =~= freqs@.take(s as int));
        if freqs[s] > 0 {
            let mut at: usize = used.len();
            while at > 0 && freqs[used[at - 1]] > freqs[s]
                invariant
                    at <= used.len(),
                    s < freqs.len(),
                    forall|i: int| 0 <= i < used.len() ==> (#[trigger] used[i]) < s,
                    forall|i: int| at <= i < used.len() ==> freqs[#[trigger] used[i] as int] > freqs[s as int],
                decreases at,
            {
                at = at - 1;
            }
            proof {
                lemma_insert_symbol(freqs@, used@, at as int, s);
            }
            used.insert(at, s);
        }
        s = s + 1;
    }
    assert(freqs@.take(s as int) =~= freqs@);
    used
}

/// What symbols that occur weigh.
pub open spec fn weights(freqs: Seq<u32>, used: Seq<usize>) -> Seq<u64> {
    Seq::new(used.len(), |k: int| freqs[used[k] as int] as u64)
}

/// The lengths by package-merge of the symbols that occur, lightest first.
/// A lone symbol has one bit, and so has a filler beside it.
pub open spec fn assigned(
    lengths: Seq<u8>,
    freqs: Seq<u32>,
    used: Seq<usize>,
    max_bits: nat,
) -> bool {
    let n = used.len() as int;
    let filler = if n == 1 && used[0] == 0 {
        1int
    } else {
        0
    };
    &&& lengths.len() == freqs.len()
    &&& forall|k: int|
        0 <= k < n ==> lengths[#[trigger] used[k] as int] == if n == 1 {
            1
        } else {
            times_taken(weights(freqs, used), max_bits, 2 * n - 2, k)
        }
    &&& forall|s: int|
        0 <= s < freqs.len() && freqs[s] == 0 ==> #[trigger] lengths[s] == if n == 1 && s
            == filler {
            1int
        } else {
            0
        }
}

/// The lengths by package-merge of all symbols that occur.
pub open spec fn assigns(lengths: Seq<u8>, freqs: Seq<u32>, max_bits: nat) -> bool {
    exists|used: Seq<usize>| #[trigger]
        by_weight(freqs, used, freqs.len() as int) && assigned(lengths, freqs, used, max_bits)
}

/// The lengths by package-merge of all symbols that occur: there is one such
/// list.
pub open spec fn lengths_for(freqs: Seq<u32>, max_bits: nat) -> Seq<u8> {
    choose|lengths: Seq<u8>| assigns(lengths, freqs, max_bits)
}

/// There is one order by weight.
proof fn lemma_one_order(freqs: Seq<u32>, a: Seq<usize>, b: Seq<usize>, k: int)
    requires
        by_weight(freqs, a, freqs.len() as int),
        by_weight(freqs, b, freqs.len() as int),
        0 <= k <= a.len(),
    ensures
        k <= b.len(),
        forall|i: int| 0 <= i < k ==> #[trigger] a[i] == b[i],
    decreases k,
{
    if k > 0 {
        lemma_one_order(freqs, a, b, k - 1);
        let x = a[k - 1];
        assert(x < freqs.len() && freqs[x as int] > 0);
        assert(b.contains(x));
        let j = choose|j: int| 0 <= j < b.len() && b[j] == x;
        if j < k - 1 {
            assert(a[j] == b[j]);
        }
        let y = b[k - 1];
        assert(y < freqs.len() && freqs[y as int] > 0);
        assert(a.contains(y));
        let m = choose|m: int| 0 <= m < a.len() && a[m] == y;
        if m < k - 1 {
            assert(a[m] == b[m]);
        }
        if j > k - 1 {
            assert(b[k - 1] == y && b[j] == x);
            if m > k - 1 {
                assert(a[k - 1] == x && a[m] == y);
            }
        }
    }
}

/// There is one list of lengths.
pub proof fn lemma_one_list(a: Seq<u8>, b: Seq<u8>, freqs: Seq<u32>, max_bits: nat)
    requires
        freqs.len() <= usize::MAX,
        assigns(a, freqs, max_bits),
        assigns(b, freqs, max_bits),
    ensures
        a == b,
        a == lengths_for(freqs, max_bits),
{
    lemma_two_lists(a, b, freqs, max_bits);
    lemma_two_lists(a, lengths_for(freqs, max_bits), freqs, max_bits);
}

proof fn lemma_two_lists(a: Seq<u8>, b: Seq<u8>, freqs: Seq<u32>, max_bits: nat)
    requires
        freqs.len() <= usize::MAX,
        assigns(a, freqs, max_bits),
        assigns(b, freqs, max_bits),
    ensures
        a == b,
{
    let n = freqs.len() as int;
    let u = choose|used: Seq<usize>| #[trigger]
        by_weight(freqs, used, n) && assigned(a, freqs, used, max_bits);
    let v = choose|used: Seq<usize>| #[trigger]
        by_weight(freqs, used, n) && assigned(b, freqs, used, max_bits);
    lemma_one_order(freqs, u, v, u.len() as int);
    lemma_one_order(freqs, v, u, v.len() as int);
    assert(u =~= v);
    assert forall|s: int| 0 <= s < n implies a[s] == b[s] by {
        if freqs[s] > 0 {
            assert(u.contains(s as usize));
            let k = choose|k: int| 0 <= k < u.len() && u[k] == s as usize;
            assert(a[u[k] as int] == b[u[k] as int]);
        }
    }
    assert(a =~= b);
}

/// Lengths of at most `max_bits` for a prefix code over the symbols that
/// occur. The code is complete whenever a symbol occurs; a lone symbol is
/// paired with a filler for that. No other code takes fewer bits.
pub fn assign_lengths(freqs: &[u32], max_bits: usize) -> (lengths: Vec<u8>)
    requires
        1 <= max_bits <= 20,
        occurring(freqs@) <= pow2(max_bits as nat),
    ensures
        lengths.len() == freqs.len(),
        forall|i: int| 0 <= i < lengths.len() ==> #[trigger] lengths[i] <= max_bits,
        forall|i: int| 0 <= i < freqs.len() && freqs[i] > 0 ==> #[trigger] lengths[i] > 0,
        forall|i: int|
            0 <= i < freqs.len() && #[trigger] lengths[i] > 0 ==> freqs[i] > 0 || i <= 1,
        (forall|i: int| 0 <= i < freqs.len() ==> freqs[i] == 0) ==> forall|i: int|
            0 <= i < lengths.len() ==> lengths[i] == 0,
        freqs.len() >= 2 && (exists|i: int| 0 <= i < freqs.len() && freqs[i] > 0) ==> complete(
            lengths@,
            max_bits as int,
        ),
        assigns(lengths@, freqs@, max_bits as nat),
        lengths@ == lengths_for(freqs@, max_bits as nat),
{
    let n: usize = freqs.len();
    let mut lengths: Vec<u8> = vec![0u8; n];
    let used: Vec<usize> = symbols_by_weight(freqs);
    proof {
        lemma2_to64();
        lemma_kraft_zeros(lengths@, max_bits as int);
    }
    if used.len() == 0 {
        assert forall|i: int| 0 <= i < freqs.len() implies freqs[i] == 0 by {
            if freqs[i] > 0 {
                assert(used@.contains(i as usize));
            }
        }
        assert(assigned(lengths@, freqs@, used@, max_bits as nat));
        proof {
            lemma_one_list(lengths@, lengths@, freqs@, max_bits as nat);
        }
        return lengths;
    }
    if used.len() == 1 {
        let first: usize = used[0];
        let filler: usize = if first == 0 {
            1
        } else {
            0
        };
        proof {
            lemma_kraft_update(lengths@, first as int, 1, max_bits as int);
            assert forall|i: int| 0 <= i < freqs.len() && freqs[i] > 0 implies i == first by {
                assert(used@.contains(i as usize));
            }
        }
        lengths[first] = 1;
        if filler < n {
            proof {
                lemma_kraft_update(lengths@, filler as int, 1, max_bits as int);
                lemma_pow2_unfold(max_bits as nat);
            }
            lengths[filler] = 1;
        }
        assert(assigned(lengths@, freqs@, used@, max_bits as nat));
        proof {
            lemma_one_list(lengths@, lengths@, freqs@, max_bits as nat);
        }
        return lengths;
    }
    let mut w: Vec<u64> = Vec::with_capacity(used.len());
    let mut i: usize = 0;
    while i < used.len()
        invariant
            i <= used.len(),
            w.len() == i,
            forall|k: int| 0 <= k < used.len() ==> (#[trigger] used[k]) < freqs.len(),
            forall|k: int| 0 <= k < i ==> #[trigger] w[k] == freqs[used[k] as int],
        decreases used.len() - i,
    {
        w.push(freqs[used[i]] as u64);
        i = i + 1;
    }
    proof {
        assert forall|a: int, b: int| 0 <= a <= b < w.len() implies w[a] <= w[b] by {
            if a < b {
                assert(freqs[used[a] as int] <= freqs[used[b] as int]);
            }
        }
    }
    let codes: Vec<u8> = package_merge(&w, max_bits);
    let mut i: usize = 0;
    proof {
        assert(codes@.take(0) =~= Seq::<u8>::empty());
    }
    while i < used.len()
        invariant
            i <= used.len() == codes.len(),
            lengths.len() == freqs.len(),
            1 <= max_bits <= 20,
            forall|k: int| 0 <= k < used.len() ==> (#[trigger] used[k]) < freqs.len()
                && freqs[used[k] as int] > 0,
            forall|a: int, b: int| 0 <= a < b < used.len() ==> used[a] != used[b],
            forall|k: int| 0 <= k < codes.len() ==> 1 <= #[trigger] codes[k] <= max_bits,
            forall|k: int| 0 <= k < i ==> lengths[#[trigger] used[k] as int] == codes[k],
            forall|k: int| i <= k < used.len() ==> lengths[#[trigger] used[k] as int] == 0,
            forall|s: int|
                0 <= s < freqs.len() && #[trigger] lengths[s] > 0 ==> freqs[s] > 0 && lengths[s]
                    <= max_bits,
            kraft(lengths@, max_bits as int) == weight_sum(codes@.take(i as int), max_bits as int),
        decreases used.len() - i,
    {
        proof {
            lemma_kraft_update(lengths@, used[i as int] as int, codes[i as int], max_bits as int);
            assert(codes@.take(i + 1).drop_last() =~= codes@.take(i as int));
            assert(lengths[used[i as int] as int] == 0);
        }
        lengths[used[i]] = codes[i];
        i = i + 1;
    }
    proof {
        assert(codes@.take(i as int) =~= codes@);
        assert forall|s: int| 0 <= s < freqs.len() && freqs[s] > 0 implies #[trigger] lengths[s]
            > 0 by {
            assert(used@.contains(s as usize));
            let k = choose|k: int| 0 <= k < used.len() && used[k] == s as usize;
            assert(lengths[used[k] as int] == codes[k]);
        }
        assert(freqs[used[0] as int] > 0);
        assert(w@ =~= weights(freqs@, used@));
        assert(assigned(lengths@, freqs@, used@, max_bits as nat));
        lemma_one_list(lengths@, lengths@, freqs@, max_bits as nat);
        assert forall|s: int| 0 <= s < lengths.len() implies #[trigger] lengths[s] <= max_bits by {
            if lengths[s] > 0 {
            }
        }
    }
    lengths
}

} // verus!
