//! Package-merge makes the shortest code.
use crate::codecs::lengths;
use crate::codecs::lengths::Item;
use vstd::arithmetic::div_mod::*;
use vstd::arithmetic::power2::*;
use vstd::prelude::*;

verus! {

/// What the first `t` symbols weigh.
spec fn front(w: Seq<u64>, t: int) -> int
    decreases t,
{
    if t <= 0 {
        0
    } else {
        front(w, t - 1) + w[t - 1]
    }
}

/// What the first `t` items weigh.
spec fn heap(s: Seq<Item>, t: int) -> int
    decreases t,
{
    if t <= 0 {
        0
    } else {
        heap(s, t - 1) + s[t - 1].weight
    }
}

/// What the `j`-th pair of a level weighs.
spec fn pair(s: Seq<Item>, j: int) -> int {
    s[2 * j].weight + s[2 * j + 1].weight
}

spec fn rising(s: Seq<Item>) -> bool {
    forall|a: int, b: int| 0 <= a <= b < s.len() ==> s[a].weight <= s[b].weight
}

spec fn ordered(w: Seq<u64>) -> bool {
    forall|a: int, b: int| 0 <= a <= b < w.len() ==> w[a] <= w[b]
}

spec fn at_most(s: Seq<Item>, bound: int) -> bool {
    forall|t: int| 0 <= t < s.len() ==> (#[trigger] s[t]).weight <= bound
}

/// What merging starts from.
spec fn mergeable(w: Seq<u64>, prev: Seq<Item>, bound: int) -> bool {
    &&& ordered(w)
    &&& rising(prev)
    &&& 0 <= bound < 0x4000_0000_0000_0000
    &&& forall|t: int| 0 <= t < w.len() ==> #[trigger] w[t] <= bound
    &&& at_most(prev, bound)
}

proof fn lemma_pairs_rise(prev: Seq<Item>, a: int, b: int)
    requires
        rising(prev),
        0 <= a <= b,
        2 * b + 1 < prev.len(),
    ensures
        pair(prev, a) <= pair(prev, b),
{
    assert(prev[2 * a].weight <= prev[2 * b].weight);
    assert(prev[2 * a + 1].weight <= prev[2 * b + 1].weight);
}

/// Merging leaves no item lighter than what went in.
proof fn lemma_merged_lower(w: Seq<u64>, prev: Seq<Item>, i: int, j: int, bound: int, c: int)
    requires
        mergeable(w, prev, bound),
        0 <= i <= w.len(),
        0 <= j <= prev.len() / 2,
        i < w.len() ==> c <= w[i],
        j < prev.len() / 2 ==> c <= pair(prev, j),
    ensures
        forall|t: int|
            0 <= t < lengths::merged_from(w, prev, i, j).len() ==> c <= (
            #[trigger] lengths::merged_from(w, prev, i, j)[t]).weight,
    decreases (w.len() - i) + (prev.len() / 2 - j),
{
    let m = lengths::merged_from(w, prev, i, j);
    let pairs = prev.len() / 2;
    if i < w.len() || j < pairs {
        let leaf = j >= pairs || i < w.len() && w[i] <= pair(prev, j);
        let rest = if leaf {
            lengths::merged_from(w, prev, i + 1, j)
        } else {
            lengths::merged_from(w, prev, i, j + 1)
        };
        if j < pairs {
            assert(prev[2 * j].weight <= bound && prev[2 * j + 1].weight <= bound);
        }
        if leaf {
            lemma_merged_lower(w, prev, i + 1, j, bound, c);
        } else {
            if j + 1 < pairs {
                lemma_pairs_rise(prev, j, j + 1);
            }
            lemma_merged_lower(w, prev, i, j + 1, bound, c);
        }
        assert(m =~= seq![m[0]] + rest);
        assert forall|t: int| 0 <= t < m.len() implies c <= (#[trigger] m[t]).weight by {
            if t > 0 {
                assert(m[t] == rest[t - 1]);
            }
        }
    }
}

/// What merging leaves: as many items as went in, in order, none heavier than
/// two of the heaviest.
proof fn lemma_merged(w: Seq<u64>, prev: Seq<Item>, i: int, j: int, bound: int)
    requires
        mergeable(w, prev, bound),
        0 <= i <= w.len(),
        0 <= j <= prev.len() / 2,
    ensures
        ({
            let m = lengths::merged_from(w, prev, i, j);
            &&& m.len() == (w.len() - i) + (prev.len() / 2 - j)
            &&& at_most(m, 2 * bound)
            &&& rising(m)
        }),
    decreases (w.len() - i) + (prev.len() / 2 - j),
{
    let m = lengths::merged_from(w, prev, i, j);
    let pairs = prev.len() / 2;
    if i < w.len() || j < pairs {
        let leaf = j >= pairs || i < w.len() && w[i] <= pair(prev, j);
        let rest = if leaf {
            lengths::merged_from(w, prev, i + 1, j)
        } else {
            lengths::merged_from(w, prev, i, j + 1)
        };
        let head = m[0].weight as int;
        if j < pairs {
            assert(prev[2 * j].weight <= bound && prev[2 * j + 1].weight <= bound);
        }
        if leaf {
            lemma_merged(w, prev, i + 1, j, bound);
            assert(head == w[i]);
        } else {
            lemma_merged(w, prev, i, j + 1, bound);
            assert(head == pair(prev, j));
            if j + 1 < pairs {
                lemma_pairs_rise(prev, j, j + 1);
            }
        }
        assert(m =~= seq![m[0]] + rest);
        lemma_merged_lower(w, prev, i, j, bound, head);
        assert(at_most(m, 2 * bound)) by {
            assert forall|t: int| 0 <= t < m.len() implies (#[trigger] m[t]).weight <= 2
                * bound by {
                if t > 0 {
                    assert(m[t] == rest[t - 1]);
                }
            }
        }
        assert(rising(m)) by {
            assert forall|a: int, b: int| 0 <= a <= b < m.len() implies m[a].weight
                <= m[b].weight by {
                if a > 0 {
                    assert(m[a] == rest[a - 1]);
                    assert(m[b] == rest[b - 1]);
                } else {
                    assert(head <= m[b].weight);
                }
            }
        }
    }
}

proof fn lemma_heap_front(x: Item, s: Seq<Item>, t: int)
    requires
        0 < t <= s.len() + 1,
    ensures
        heap(seq![x] + s, t) == x.weight + heap(s, t - 1),
    decreases t,
{
    let m = seq![x] + s;
    if t > 1 {
        lemma_heap_front(x, s, t - 1);
        assert(m[t - 1] == s[t - 2]);
    } else {
        assert(heap(m, 0) == 0);
        assert(m[0] == x);
    }
}

proof fn lemma_leaves_front(x: Item, s: Seq<Item>, t: int)
    requires
        0 < t <= s.len() + 1,
    ensures
        lengths::leaves_in(seq![x] + s, t) == lengths::leaves_in(s, t - 1) + if x.is_leaf {
            1int
        } else {
            0
        },
    decreases t,
{
    let m = seq![x] + s;
    if t > 1 {
        lemma_leaves_front(x, s, t - 1);
        assert(m[t - 1] == s[t - 2]);
    } else {
        assert(lengths::leaves_in(m, 0) == 0);
        assert(m[0] == x);
    }
}

/// The lightest items weigh no more than as many symbols and pairs, and just
/// as much as the symbols and pairs that they are.
#[verifier::spinoff_prover]
#[verifier::rlimit(60)]
proof fn lemma_merged_heap(
    w: Seq<u64>,
    prev: Seq<Item>,
    i: int,
    j: int,
    a: int,
    q: int,
    bound: int,
)
    requires
        mergeable(w, prev, bound),
        0 <= i <= i + a <= w.len(),
        0 <= j <= j + q <= prev.len() / 2,
    ensures
        ({
            let m = lengths::merged_from(w, prev, i, j);
            let leaves = lengths::leaves_in(m, a + q);
            &&& heap(m, a + q) <= front(w, i + a) - front(w, i) + heap(prev, 2 * (j + q)) - heap(
                prev,
                2 * j,
            )
            &&& 0 <= leaves <= w.len() - i
            &&& 0 <= a + q - leaves <= prev.len() / 2 - j
            &&& heap(m, a + q) == front(w, i + leaves) - front(w, i) + heap(
                prev,
                2 * (j + a + q - leaves),
            ) - heap(prev, 2 * j)
        }),
    decreases (w.len() - i) + (prev.len() / 2 - j),
{
    let m = lengths::merged_from(w, prev, i, j);
    let pairs = prev.len() / 2;
    lemma_merged(w, prev, i, j, bound);
    if a + q > 0 {
        let leaf = j >= pairs || i < w.len() && w[i] <= pair(prev, j);
        let rest = if leaf {
            lengths::merged_from(w, prev, i + 1, j)
        } else {
            lengths::merged_from(w, prev, i, j + 1)
        };
        if j < pairs {
            assert(prev[2 * j].weight <= bound && prev[2 * j + 1].weight <= bound);
            assert(heap(prev, 2 * j + 2) == heap(prev, 2 * j) + pair(prev, j)) by {
                assert(heap(prev, 2 * j + 1) == heap(prev, 2 * j) + prev[2 * j].weight);
            }
        }
        assert(m =~= seq![m[0]] + rest);
        lemma_heap_front(m[0], rest, a + q);
        lemma_leaves_front(m[0], rest, a + q);
        if leaf {
            assert(i < w.len());
            assert(front(w, i + 1) == front(w, i) + w[i]);
            if a > 0 {
                lemma_merged_heap(w, prev, i + 1, j, a - 1, q, bound);
            } else {
                lemma_merged_heap(w, prev, i + 1, j, 0, q - 1, bound);
                let last = j + q - 1;
                lemma_pairs_rise(prev, j, last);
                assert(heap(prev, 2 * last + 2) == heap(prev, 2 * last) + pair(prev, last)) by {
                    assert(heap(prev, 2 * last + 1) == heap(prev, 2 * last)
                        + prev[2 * last].weight);
                }
            }
        } else {
            if q > 0 {
                lemma_merged_heap(w, prev, i, j + 1, a, q - 1, bound);
            } else {
                lemma_merged_heap(w, prev, i, j + 1, a - 1, 0, bound);
                assert(w[i] <= w[i + a - 1]);
                assert(front(w, i + a) == front(w, i + a - 1) + w[i + a - 1]);
            }
        }
    }
}

/// What a level is like.
proof fn lemma_level(w: Seq<u64>, l: nat)
    requires
        ordered(w),
        l <= 20,
        forall|t: int| 0 <= t < w.len() ==> #[trigger] w[t] <= u32::MAX,
    ensures
        rising(lengths::level_of(w, l)),
        at_most(lengths::level_of(w, l), u32::MAX * pow2(l)),
        l == 0 ==> lengths::level_of(w, l).len() == w.len(),
        l > 0 ==> lengths::level_of(w, l).len() == w.len() + lengths::level_of(
            w,
            (l - 1) as nat,
        ).len() / 2 && mergeable(
            w,
            lengths::level_of(w, (l - 1) as nat),
            u32::MAX * pow2((l - 1) as nat),
        ),
    decreases l,
{
    lemma2_to64();
    if l > 0 {
        let k = (l - 1) as nat;
        lemma_level(w, k);
        let bound = u32::MAX * pow2(k);
        lemma_pow2_pos(k);
        if k < 20 {
            lemma_pow2_strictly_increases(k, 20);
        }
        lemma_pow2_unfold(l);
        assert(u32::MAX <= bound < 0x4000_0000_0000_0000) by (nonlinear_arith)
            requires
                bound == u32::MAX * pow2(k),
                1 <= pow2(k) <= 0x10_0000,
        ;
        assert(2 * bound == u32::MAX * pow2(l)) by (nonlinear_arith)
            requires
                bound == u32::MAX * pow2(k),
                pow2(l) == 2 * pow2(k),
        ;
        lemma_merged(w, lengths::level_of(w, k), 0, 0, bound);
    } else {
        assert(u32::MAX * 1 == u32::MAX);
    }
}

/// The cost of the first `n` symbols taken as often as package-merge takes
/// them.
spec fn taken_cost(w: Seq<u64>, l: nat, take: int, n: int) -> int
    decreases n,
{
    if n <= 0 {
        0
    } else {
        taken_cost(w, l, take, n - 1) + w[n - 1] * lengths::times_taken(w, l, take, n - 1)
    }
}

proof fn lemma_taken_split(w: Seq<u64>, l: nat, take: int, leaves: int, below: int, n: int)
    requires
        0 <= leaves,
        n <= w.len(),
        forall|k: int| #[trigger]
            lengths::times_taken(w, l + 1, take, k) == (if k < leaves {
                1nat
            } else {
                0
            }) + lengths::times_taken(w, l, below, k),
    ensures
        taken_cost(w, l + 1, take, n) == front(
            w,
            if n < leaves {
                n
            } else {
                leaves
            },
        ) + taken_cost(w, l, below, n),
    decreases n,
{
    if n > 0 {
        lemma_taken_split(w, l, take, leaves, below, n - 1);
        let x = w[n - 1] as int;
        let y = lengths::times_taken(w, l, below, n - 1) as int;
        assert(x * (1 + y) == x + x * y) by (nonlinear_arith);
        assert(x * (0 + y) == x * y);
        if n - 1 < leaves {
            assert(front(w, n) == front(w, n - 1) + w[n - 1]);
        }
    }
}

proof fn lemma_nothing_taken(w: Seq<u64>, take: int, n: int)
    ensures
        taken_cost(w, 0, take, n) == 0,
    decreases n,
{
    if n > 0 {
        lemma_nothing_taken(w, take, n - 1);
        assert(w[n - 1] * 0 == 0);
    }
}

proof fn lemma_lowest(w: Seq<u64>, t: int)
    requires
        0 <= t <= w.len(),
    ensures
        heap(lengths::level_of(w, 0), t) == front(w, t),
        lengths::leaves_in(lengths::level_of(w, 0), t) == t,
    decreases t,
{
    if t > 0 {
        lemma_lowest(w, t - 1);
    }
}

/// The first items of a level weigh what is taken with them.
proof fn lemma_taken(w: Seq<u64>, l: nat, take: int)
    requires
        ordered(w),
        l < 20,
        forall|t: int| 0 <= t < w.len() ==> #[trigger] w[t] <= u32::MAX,
        0 <= take <= lengths::level_of(w, l).len(),
    ensures
        taken_cost(w, l + 1, take, w.len() as int) == heap(lengths::level_of(w, l), take),
    decreases l,
{
    let items = lengths::level_of(w, l);
    let n = w.len() as int;
    let leaves = lengths::leaves_in(items, take);
    lemma_level(w, l);
    if l == 0 {
        lemma_lowest(w, take);
        lemma_taken_split(w, 0, take, take, 0, n);
        lemma_nothing_taken(w, 0, n);
    } else {
        let k = (l - 1) as nat;
        let prev = lengths::level_of(w, k);
        let bound = u32::MAX * pow2(k);
        let a = if take < n {
            take
        } else {
            n
        };
        lemma_merged_heap(w, prev, 0, 0, a, take - a, bound);
        let below = 2 * (take - leaves);
        lemma_taken_split(w, l, take, leaves, below, n);
        lemma_taken(w, k, below);
    }
}

/// How many of the first `n` symbols have at least `d` bits.
spec fn long(s: Seq<u8>, d: int, n: int) -> int
    decreases n,
{
    if n <= 0 {
        0
    } else {
        long(s, d, n - 1) + if s[n - 1] >= d {
            1int
        } else {
            0
        }
    }
}

/// What they weigh.
spec fn long_weight(w: Seq<u64>, s: Seq<u8>, d: int, n: int) -> int
    decreases n,
{
    if n <= 0 {
        0
    } else {
        long_weight(w, s, d, n - 1) + if s[n - 1] >= d {
            w[n - 1] as int
        } else {
            0
        }
    }
}

proof fn lemma_long(w: Seq<u64>, s: Seq<u8>, d: int, n: int)
    requires
        ordered(w),
        0 <= n <= w.len(),
    ensures
        0 <= long(s, d, n) <= n,
        long_weight(w, s, d, n) >= front(w, long(s, d, n)),
    decreases n,
{
    if n > 0 {
        lemma_long(w, s, d, n - 1);
        let c = long(s, d, n - 1);
        assert(w[c] <= w[n - 1]);
        assert(front(w, c + 1) == front(w, c) + w[c]);
    }
}

/// How many items the bits from the `d`-th on make, two of a bit making one
/// of the bit before it.
spec fn made(s: Seq<u8>, d: int, max: int) -> int
    decreases max + 1 - d,
{
    if d > max {
        0
    } else {
        long(s, d, s.len() as int) + made(s, d + 1, max) / 2
    }
}

/// What the bits from the `d`-th on cost.
spec fn spent(w: Seq<u64>, s: Seq<u8>, d: int, max: int) -> int
    decreases max + 1 - d,
{
    if d > max {
        0
    } else {
        long_weight(w, s, d, s.len() as int) + spent(w, s, d + 1, max)
    }
}

proof fn lemma_heap_grows(s: Seq<Item>, a: int, b: int)
    requires
        a <= b,
    ensures
        heap(s, a) <= heap(s, b),
    decreases b - a,
{
    if a < b {
        lemma_heap_grows(s, a, b - 1);
    }
}

/// No bits cost less than as many items of a level as they make.
proof fn lemma_spent(w: Seq<u64>, s: Seq<u8>, d: int, max: int)
    requires
        ordered(w),
        w.len() == s.len(),
        forall|t: int| 0 <= t < w.len() ==> #[trigger] w[t] <= u32::MAX,
        1 <= d <= max <= 20,
    ensures
        0 <= made(s, d, max) <= lengths::level_of(w, (max - d) as nat).len(),
        spent(w, s, d, max) >= heap(lengths::level_of(w, (max - d) as nat), made(s, d, max)),
    decreases max - d,
{
    let n = s.len() as int;
    let l = (max - d) as nat;
    lemma_long(w, s, d, n);
    lemma_level(w, l);
    let c = long(s, d, n);
    if d == max {
        assert(made(s, d + 1, max) == 0);
        assert(spent(w, s, d + 1, max) == 0);
        lemma_lowest(w, c);
    } else {
        lemma_spent(w, s, d + 1, max);
        let k = (l - 1) as nat;
        let prev = lengths::level_of(w, k);
        let m = made(s, d + 1, max);
        lemma_heap_grows(prev, 2 * (m / 2), m);
        lemma_merged_heap(w, prev, 0, 0, c, m / 2, u32::MAX * pow2(k));
    }
}

/// The cost of a code.
pub open spec fn cost(w: Seq<u64>, s: Seq<u8>, n: int) -> int
    decreases n,
{
    if n <= 0 {
        0
    } else {
        cost(w, s, n - 1) + w[n - 1] * s[n - 1]
    }
}

spec fn cost_from(w: Seq<u64>, s: Seq<u8>, d: int, n: int) -> int
    decreases n,
{
    if n <= 0 {
        0
    } else {
        cost_from(w, s, d, n - 1) + if s[n - 1] >= d {
            w[n - 1] * (s[n - 1] - d + 1)
        } else {
            0
        }
    }
}

proof fn lemma_cost_split(w: Seq<u64>, s: Seq<u8>, d: int, n: int)
    ensures
        cost_from(w, s, d, n) == long_weight(w, s, d, n) + cost_from(w, s, d + 1, n),
    decreases n,
{
    if n > 0 {
        lemma_cost_split(w, s, d, n - 1);
        let x = w[n - 1] as int;
        let y = s[n - 1] - d;
        assert(x * (y + 1) == x + x * y) by (nonlinear_arith);
        assert(x * 0 == 0);
    }
}

proof fn lemma_no_cost(w: Seq<u64>, s: Seq<u8>, d: int, n: int)
    requires
        n <= s.len(),
        forall|t: int| 0 <= t < s.len() ==> #[trigger] s[t] < d,
    ensures
        cost_from(w, s, d, n) == 0,
    decreases n,
{
    if n > 0 {
        lemma_no_cost(w, s, d, n - 1);
        assert(s[n - 1] < d);
    }
}

proof fn lemma_spent_is_cost(w: Seq<u64>, s: Seq<u8>, d: int, max: int)
    requires
        1 <= d <= max + 1,
        forall|t: int| 0 <= t < s.len() ==> #[trigger] s[t] <= max,
    ensures
        spent(w, s, d, max) == cost_from(w, s, d, s.len() as int),
    decreases max + 1 - d,
{
    if d > max {
        lemma_no_cost(w, s, d, s.len() as int);
    } else {
        lemma_spent_is_cost(w, s, d + 1, max);
        lemma_cost_split(w, s, d, s.len() as int);
    }
}

proof fn lemma_whole_cost(w: Seq<u64>, s: Seq<u8>, n: int)
    requires
        n <= s.len(),
    ensures
        cost_from(w, s, 1, n) == cost(w, s, n),
    decreases n,
{
    if n > 0 {
        lemma_whole_cost(w, s, n - 1);
        assert(w[n - 1] * (s[n - 1] - 1 + 1) == w[n - 1] * s[n - 1]);
        assert(s[n - 1] == 0 ==> w[n - 1] * s[n - 1] == 0) by (nonlinear_arith);
    }
}

/// The width of the bits from the `d`-th on, in units of the last.
spec fn width(s: Seq<u8>, d: int, max: int) -> int
    decreases max + 1 - d,
{
    if d > max {
        0
    } else {
        long(s, d, s.len() as int) * pow2((max - d) as nat) + width(s, d + 1, max)
    }
}

proof fn lemma_made(s: Seq<u8>, d: int, max: int)
    requires
        1 <= d <= max,
    ensures
        0 <= width(s, d, max),
        made(s, d, max) == width(s, d, max) / pow2((max - d) as nat) as int,
    decreases max - d,
{
    let n = s.len() as int;
    let p = pow2((max - d) as nat) as int;
    let c = long(s, d, n);
    lemma_pow2_pos((max - d) as nat);
    lemma_long_range(s, d, n);
    if d == max {
        lemma2_to64();
        assert(made(s, d + 1, max) == 0);
        assert(width(s, d + 1, max) == 0);
        assert(c * 1 == c);
        assert(c / 1 == c);
    } else {
        lemma_made(s, d + 1, max);
        let v = width(s, d + 1, max);
        let half = pow2((max - d - 1) as nat) as int;
        lemma_pow2_pos((max - d - 1) as nat);
        lemma_pow2_unfold((max - d) as nat);
        lemma_div_denominator(v, half, 2);
        assert(half * 2 == p);
        assert(0 <= c * p) by (nonlinear_arith)
            requires
                0 <= c,
                0 < p,
        ;
        lemma_hoist_over_denominator(v, c, p as nat);
        assert(v / p + c == (v + c * p) / p);
    }
}

proof fn lemma_long_range(s: Seq<u8>, d: int, n: int)
    requires
        0 <= n,
    ensures
        0 <= long(s, d, n) <= n,
    decreases n,
{
    if n > 0 {
        lemma_long_range(s, d, n - 1);
    }
}

spec fn width_from(s: Seq<u8>, d: int, max: int, n: int) -> int
    decreases n,
{
    if n <= 0 {
        0
    } else {
        width_from(s, d, max, n - 1) + if s[n - 1] >= d {
            pow2((max - d + 1) as nat) - pow2((max - s[n - 1]) as nat)
        } else {
            0
        }
    }
}

proof fn lemma_width_split(s: Seq<u8>, d: int, max: int, n: int)
    requires
        1 <= d <= max,
        n <= s.len(),
    ensures
        width_from(s, d, max, n) == long(s, d, n) * pow2((max - d) as nat) + width_from(
            s,
            d + 1,
            max,
            n,
        ),
    decreases n,
{
    let p = pow2((max - d) as nat) as int;
    if n > 0 {
        lemma_width_split(s, d, max, n - 1);
        lemma_pow2_unfold((max - d + 1) as nat);
        let c = long(s, d, n - 1);
        assert((c + 1) * p == c * p + p) by (nonlinear_arith);
        assert((c + 0) * p == c * p);
    } else {
        assert(0 * p == 0);
    }
}

proof fn lemma_no_width(s: Seq<u8>, d: int, max: int, n: int)
    requires
        n <= s.len(),
        forall|t: int| 0 <= t < s.len() ==> #[trigger] s[t] < d,
    ensures
        width_from(s, d, max, n) == 0,
    decreases n,
{
    if n > 0 {
        lemma_no_width(s, d, max, n - 1);
        assert(s[n - 1] < d);
    }
}

proof fn lemma_width(s: Seq<u8>, d: int, max: int)
    requires
        1 <= d <= max + 1,
        forall|t: int| 0 <= t < s.len() ==> #[trigger] s[t] <= max,
    ensures
        width(s, d, max) == width_from(s, d, max, s.len() as int),
    decreases max + 1 - d,
{
    if d > max {
        lemma_no_width(s, d, max, s.len() as int);
    } else {
        lemma_width(s, d + 1, max);
        lemma_width_split(s, d, max, s.len() as int);
    }
}

proof fn lemma_whole_width(s: Seq<u8>, max: int, n: int)
    requires
        0 <= n <= s.len(),
        forall|t: int| 0 <= t < s.len() ==> 1 <= #[trigger] s[t] <= max,
    ensures
        width_from(s, 1, max, n) == n * pow2(max as nat) - lengths::weight_sum(s.take(n), max),
    decreases n,
{
    let p = pow2(max as nat) as int;
    if n > 0 {
        lemma_whole_width(s, max, n - 1);
        assert(s.take(n).drop_last() =~= s.take(n - 1));
        assert(s[n - 1] >= 1);
        assert((n - 1) * p + p == n * p) by (nonlinear_arith);
    } else {
        assert(0 * p == 0);
        assert(s.take(0).len() == 0);
    }
}

/// Of all prefix codes for symbols of these weights, the lightest first, in
/// which no word is longer than `max` bits, none costs less than the one of
/// package-merge.
pub proof fn lemma_shortest(w: Seq<u64>, max: int, r: Seq<u8>, s: Seq<u8>)
    requires
        1 <= max <= 20,
        2 <= w.len(),
        forall|a: int, b: int| 0 <= a <= b < w.len() ==> w[a] <= w[b],
        forall|t: int| 0 <= t < w.len() ==> #[trigger] w[t] <= u32::MAX,
        r.len() == w.len(),
        forall|t: int|
            0 <= t < r.len() ==> #[trigger] r[t] == lengths::times_taken(
                w,
                max as nat,
                2 * w.len() - 2,
                t,
            ),
        s.len() == w.len(),
        forall|t: int| 0 <= t < s.len() ==> 1 <= #[trigger] s[t] <= max,
        lengths::weight_sum(s, max) <= pow2(max as nat),
    ensures
        cost(w, r, w.len() as int) <= cost(w, s, w.len() as int),
{
    let n = w.len() as int;
    let l = (max - 1) as nat;
    let items = lengths::level_of(w, l);
    lemma_spent(w, s, 1, max);
    lemma_spent_is_cost(w, s, 1, max);
    lemma_whole_cost(w, s, n);
    lemma_width(s, 1, max);
    lemma_whole_width(s, max, n);
    assert(s.take(n) =~= s);
    lemma_made(s, 1, max);
    let half = pow2(l) as int;
    lemma_pow2_pos(l);
    lemma_pow2_unfold(max as nat);
    let v = width(s, 1, max);
    assert(v >= (2 * n - 2) * half) by (nonlinear_arith)
        requires
            v >= n * (2 * half) - 2 * half,
    ;
    lemma_div_is_ordered((2 * n - 2) * half, v, half);
    lemma_div_by_multiple(2 * n - 2, half);
    lemma_heap_grows(items, 2 * n - 2, made(s, 1, max));
    lemma_taken(w, l, 2 * n - 2);
    lemma_taken_is_cost(w, max as nat, 2 * n - 2, r, n);
}

proof fn lemma_taken_is_cost(w: Seq<u64>, l: nat, take: int, r: Seq<u8>, n: int)
    requires
        n <= r.len(),
        forall|t: int| 0 <= t < r.len() ==> #[trigger] r[t] == lengths::times_taken(w, l, take, t),
    ensures
        cost(w, r, n) == taken_cost(w, l, take, n),
    decreases n,
{
    if n > 0 {
        lemma_taken_is_cost(w, l, take, r, n - 1);
        assert(r[n - 1] == lengths::times_taken(w, l, take, n - 1));
    }
}

/// How many bits the first `n` symbols take, each as often as it occurs.
pub open spec fn total(freqs: Seq<u32>, s: Seq<u8>, n: int) -> int
    decreases n,
{
    if n <= 0 {
        0
    } else {
        total(freqs, s, n - 1) + freqs[n - 1] * s[n - 1]
    }
}

proof fn lemma_total_update(freqs: Seq<u32>, s: Seq<u8>, j: int, x: u8, n: int)
    requires
        0 <= j < s.len(),
        s[j] == 0,
        0 <= n <= s.len(),
    ensures
        total(freqs, s.update(j, x), n) == total(freqs, s, n) + if j < n {
            freqs[j] * x
        } else {
            0
        },
    decreases n,
{
    if n > 0 {
        lemma_total_update(freqs, s, j, x, n - 1);
        assert(freqs[n - 1] * 0 == 0);
    }
}

/// The lengths of the symbols in use, in their order.
spec fn picked(s: Seq<u8>, used: Seq<usize>) -> Seq<u8> {
    Seq::new(used.len(), |k: int| s[used[k] as int])
}

/// The lengths of the first `k` symbols in use, all others being zero.
spec fn filled(s: Seq<u8>, used: Seq<usize>, k: int) -> Seq<u8>
    decreases k,
{
    if k <= 0 {
        Seq::new(s.len(), |i: int| 0u8)
    } else {
        filled(s, used, k - 1).update(used[k - 1] as int, s[used[k - 1] as int])
    }
}

proof fn lemma_no_total(freqs: Seq<u32>, s: Seq<u8>, n: int)
    requires
        n <= s.len(),
        forall|i: int| 0 <= i < s.len() ==> s[i] == 0,
    ensures
        total(freqs, s, n) == 0,
    decreases n,
{
    if n > 0 {
        lemma_no_total(freqs, s, n - 1);
        assert(freqs[n - 1] * 0 == 0);
    }
}

proof fn lemma_filled(freqs: Seq<u32>, s: Seq<u8>, used: Seq<usize>, max: int, k: int)
    requires
        lengths::by_weight(freqs, used, freqs.len() as int),
        s.len() == freqs.len(),
        forall|i: int| 0 <= i < used.len() ==> 1 <= s[#[trigger] used[i] as int] <= max,
        0 <= k <= used.len(),
    ensures
        filled(s, used, k).len() == s.len(),
        forall|i: int| 0 <= i < k ==> filled(s, used, k)[#[trigger] used[i] as int] == s[used[i] as int],
        forall|i: int| k <= i < used.len() ==> filled(s, used, k)[#[trigger] used[i] as int] == 0,
        forall|x: int|
            0 <= x < s.len() && freqs[x] == 0 ==> #[trigger] filled(s, used, k)[x] == 0,
        lengths::kraft(filled(s, used, k), max) == lengths::weight_sum(
            picked(s, used).take(k),
            max,
        ),
        total(freqs, filled(s, used, k), s.len() as int) == cost(
            lengths::weights(freqs, used),
            picked(s, used),
            k,
        ),
    decreases k,
{
    let here = filled(s, used, k);
    let all = picked(s, used);
    if k == 0 {
        lengths::lemma_kraft_zeros(here, max);
        lemma_no_total(freqs, here, s.len() as int);
        assert(all.take(0).len() == 0);
    } else {
        lemma_filled(freqs, s, used, max, k - 1);
        let before = filled(s, used, k - 1);
        let j = used[k - 1] as int;
        assert(used[k - 1] < freqs.len());
        assert(before[used[k - 1] as int] == 0);
        lengths::lemma_kraft_update(before, j, s[j], max);
        lemma_total_update(freqs, before, j, s[j], s.len() as int);
        assert(all.take(k).drop_last() =~= all.take(k - 1));
        assert(all[k - 1] == s[j]);
        assert forall|a: int| 0 <= a < used.len() && a != k - 1 implies (#[trigger] used[a]) != j by {
            if a < k - 1 {
                assert(used[a] != used[k - 1]);
            } else {
                assert(used[k - 1] != used[a]);
            }
        }
        assert(lengths::weights(freqs, used)[k - 1] == freqs[j]);
    }
}

/// Of all prefix codes for the symbols that occur in which no word is longer
/// than `max` bits, none takes fewer bits than the one that
/// [`lengths::assign_lengths`] gives.
pub proof fn lemma_assigned_shortest(freqs: Seq<u32>, max: nat, r: Seq<u8>, s: Seq<u8>)
    requires
        1 <= max <= 20,
        freqs.len() <= usize::MAX,
        exists|a: int, b: int|
            0 <= a < b < freqs.len() && #[trigger] freqs[a] > 0 && #[trigger] freqs[b] > 0,
        lengths::assigns(r, freqs, max),
        forall|i: int| 0 <= i < r.len() && freqs[i] > 0 ==> 1 <= #[trigger] r[i] <= max,
        s.len() == freqs.len(),
        forall|i: int|
            0 <= i < s.len() ==> if freqs[i] > 0 {
                1 <= #[trigger] s[i] <= max
            } else {
                s[i] == 0
            },
        lengths::kraft(s, max as int) <= pow2(max),
    ensures
        total(freqs, r, freqs.len() as int) <= total(freqs, s, freqs.len() as int),
{
    let used = choose|used: Seq<usize>| #[trigger]
        lengths::by_weight(freqs, used, freqs.len() as int) && lengths::assigned(
            r,
            freqs,
            used,
            max,
        );
    let n = used.len() as int;
    let w = lengths::weights(freqs, used);
    let (a, b) = choose|a: int, b: int|
        0 <= a < b < freqs.len() && #[trigger] freqs[a] > 0 && #[trigger] freqs[b] > 0;
    assert(n >= 2) by {
        assert(used.contains(a as usize));
        assert(used.contains(b as usize));
        let x = choose|x: int| 0 <= x < used.len() && used[x] == a as usize;
        let y = choose|y: int| 0 <= y < used.len() && used[y] == b as usize;
        assert(x != y);
    }
    assert forall|a: int, b: int| 0 <= a <= b < w.len() implies w[a] <= w[b] by {
        if a < b {
            assert(freqs[used[a] as int] <= freqs[used[b] as int]);
        }
    }
    let pr = picked(r, used);
    assert forall|t: int| 0 <= t < pr.len() implies #[trigger] pr[t] == lengths::times_taken(
        w,
        max,
        2 * w.len() - 2,
        t,
    ) by {
        assert(r[used[t] as int] == pr[t]);
    }
    assert forall|t: int| 0 <= t < used.len() implies 1 <= s[#[trigger] used[t] as int] <= max by {
        assert(freqs[used[t] as int] > 0);
    }
    assert forall|t: int| 0 <= t < used.len() implies 1 <= r[#[trigger] used[t] as int] <= max by {
        assert(freqs[used[t] as int] > 0);
    }
    lemma_filled(freqs, s, used, max as int, n);
    lemma_filled(freqs, r, used, max as int, n);
    lemma_whole(freqs, s, used);
    lemma_whole(freqs, r, used);
    assert(picked(s, used).take(n) =~= picked(s, used));
    lemma_shortest(w, max as int, picked(r, used), picked(s, used));
}

proof fn lemma_whole(freqs: Seq<u32>, s: Seq<u8>, used: Seq<usize>)
    requires
        lengths::by_weight(freqs, used, freqs.len() as int),
        s.len() == freqs.len(),
        forall|i: int| 0 <= i < s.len() && freqs[i] == 0 ==> #[trigger] s[i] == 0,
        filled(s, used, used.len() as int).len() == s.len(),
        forall|i: int|
            0 <= i < used.len() ==> filled(s, used, used.len() as int)[#[trigger] used[i] as int]
                == s[used[i] as int],
        forall|x: int|
            0 <= x < s.len() && freqs[x] == 0 ==> #[trigger] filled(
                s,
                used,
                used.len() as int,
            )[x] == 0,
        freqs.len() <= usize::MAX,
    ensures
        filled(s, used, used.len() as int) == s,
{
    let f = filled(s, used, used.len() as int);
    assert forall|x: int| 0 <= x < s.len() implies f[x] == s[x] by {
        if freqs[x] > 0 {
            assert(used.contains(x as usize));
            let k = choose|k: int| 0 <= k < used.len() && used[k] == x as usize;
            assert(f[used[k] as int] == s[used[k] as int]);
        }
    }
    assert(f =~= s);
}

} // verus!
