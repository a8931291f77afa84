//! Tables whose counts add up: every symbol has its share of states, and the
//! ranges that follow them tile the table.
use crate::codecs::zstd::fse;
use crate::codecs::zstd::fse::{Entry, MAX_TABLE_LOG, MIN_TABLE_LOG};
use crate::codecs::zstd::sequences::{
    DEFAULT_LITERAL_LENGTH, DEFAULT_LITERAL_LENGTH_LOG, DEFAULT_MATCH_LENGTH,
    DEFAULT_MATCH_LENGTH_LOG, DEFAULT_OFFSET, DEFAULT_OFFSET_LOG,
};
use crate::utils::bits;
use vstd::arithmetic::div_mod::*;
use vstd::arithmetic::mul::*;
use vstd::arithmetic::power2::*;
use vstd::prelude::*;
use vstd::set_lib::*;

verus! {

/// How many states the symbols from `i` on ask for in the spread.
pub open spec fn rest(counts: Seq<i32>, i: int) -> nat
    decreases counts.len() - i,
{
    if i >= counts.len() {
        0
    } else {
        fse::wanted(counts, i) + rest(counts, i + 1)
    }
}

/// How many of the symbols from `i` on are rare.
pub open spec fn rarities(counts: Seq<i32>, i: int) -> nat
    decreases counts.len() - i,
{
    if i >= counts.len() {
        0
    } else {
        (if counts[i] == -1 {
            1nat
        } else {
            0
        }) + rarities(counts, i + 1)
    }
}

/// A distribution over all states of a table and no more.
pub open spec fn distributed(counts: Seq<i32>, log: nat) -> bool {
    &&& MIN_TABLE_LOG <= log <= MAX_TABLE_LOG
    &&& counts.len() <= 256
    &&& rarities(counts, 0) + rest(counts, 0) == pow2(log)
}

/// How many of the first `n` states are taken and stand for `s`.
spec fn held(symbols: Seq<u8>, marks: Set<int>, s: u8, n: int) -> nat
    decreases n,
{
    if n <= 0 {
        0
    } else {
        held(symbols, marks, s, n - 1) + if marks.contains(n - 1) && symbols[n - 1] == s {
            1nat
        } else {
            0
        }
    }
}

/// One more state is taken.
proof fn lemma_held(symbols: Seq<u8>, marks: Set<int>, s: u8, n: int, p: int, v: u8)
    requires
        0 <= p < symbols.len(),
        0 <= n <= symbols.len(),
        !marks.contains(p),
    ensures
        held(symbols.update(p, v), marks.insert(p), s, n) == held(symbols, marks, s, n) + if p < n
            && v == s {
            1nat
        } else {
            0
        },
    decreases n,
{
    if n > 0 {
        lemma_held(symbols, marks, s, n - 1, p, v);
    }
}

proof fn lemma_held_all(symbols: Seq<u8>, marks: Set<int>, s: u8, n: int)
    requires
        forall|p: int| 0 <= p < n ==> marks.contains(p),
    ensures
        held(symbols, marks, s, n) == fse::ranked(symbols, s, n),
    decreases n,
{
    if n > 0 {
        lemma_held_all(symbols, marks, s, n - 1);
    }
}

proof fn lemma_held_none(symbols: Seq<u8>, marks: Set<int>, s: u8, n: int)
    requires
        forall|p: int| 0 <= p < n ==> !marks.contains(p),
    ensures
        held(symbols, marks, s, n) == 0,
    decreases n,
{
    if n > 0 {
        lemma_held_none(symbols, marks, s, n - 1);
    }
}

/// Whether `s` is one of the rare symbols below `i`.
spec fn tag(counts: Seq<i32>, s: u8, i: int) -> nat {
    if s < i && s < counts.len() && counts[s as int] == -1 {
        1
    } else {
        0
    }
}

/// The rare symbols take one state each.
proof fn lemma_rare(counts: Seq<i32>, i: int, symbols: Seq<u8>, high: nat)
    requires
        0 <= i <= counts.len() <= 256,
        high <= symbols.len(),
        rarities(counts, i) <= high,
        forall|s: u8|
            #[trigger] held(
                symbols,
                set_int_range(high as int, symbols.len() as int),
                s,
                symbols.len() as int,
            ) == tag(counts, s, i),
    ensures
        fse::rare(counts, i, symbols, high) matches Some((sy, h)) && h == high - rarities(counts, i)
            && sy.len() == symbols.len() && forall|s: u8|
            #[trigger] held(
                sy,
                set_int_range(h as int, symbols.len() as int),
                s,
                symbols.len() as int,
            ) == tag(counts, s, counts.len() as int),
    decreases counts.len() - i,
{
    let size = symbols.len() as int;
    if i < counts.len() {
        if counts[i] == -1 {
            let marks = set_int_range(high as int, size);
            let next = symbols.update(high - 1, i as u8);
            assert(set_int_range(high - 1, size) =~= marks.insert(high - 1));
            assert forall|s: u8|
                #[trigger] held(next, set_int_range(high - 1, size), s, size) == tag(
                    counts,
                    s,
                    i + 1,
                ) by {
                lemma_held(symbols, marks, s, size, high - 1, i as u8);
                assert(held(symbols, marks, s, size) == tag(counts, s, i));
            }
            lemma_rare(counts, i + 1, next, (high - 1) as nat);
        } else {
            assert forall|s: u8|
                #[trigger] held(symbols, set_int_range(high as int, size), s, size) == tag(
                    counts,
                    s,
                    i + 1,
                ) by {
                assert(tag(counts, s, i + 1) == tag(counts, s, i));
            }
            lemma_rare(counts, i + 1, symbols, high);
        }
    }
}

/// The number that undoes the stride.
spec fn unstride(size: nat) -> int {
    if size == 32 {
        7
    } else if size == 64 {
        3
    } else if size == 128 {
        91
    } else if size == 256 {
        11
    } else {
        363
    }
}

/// Where the walk in strides stands after `k` of them.
spec fn pos(size: nat, k: int) -> int {
    (k * fse::stride(size)) % (size as int)
}

/// After how many strides the walk comes to `p`.
spec fn idx(size: nat, p: int) -> int {
    (p * unstride(size)) % (size as int)
}

spec fn walkable(size: nat) -> bool {
    size == 32 || size == 64 || size == 128 || size == 256 || size == 512
}

proof fn lemma_undone(size: int, a: int, b: int, m: int, k: int)
    requires
        size > 0,
        a * b == 1 + size * m,
        0 <= k < size,
    ensures
        (((k * a) % size) * b) % size == k,
{
    lemma_mul_mod_noop_left(k * a, b, size);
    assert((k * a) * b == k + (m * k) * size) by (nonlinear_arith)
        requires
            a * b == 1 + size * m,
    ;
    lemma_mod_multiples_vanish(m * k, k, size);
    assert((m * k) * size == size * (m * k)) by (nonlinear_arith);
    lemma_small_mod(k as nat, size as nat);
}

/// The walk comes to every state once.
proof fn lemma_walk(size: nat, k: int)
    requires
        walkable(size),
        0 <= k < size,
    ensures
        0 <= pos(size, k) < size,
        0 <= idx(size, k) < size,
        idx(size, pos(size, k)) == k,
        pos(size, idx(size, k)) == k,
{
    let a = fse::stride(size) as int;
    let b = unstride(size);
    let m = if size == 32 {
        5int
    } else if size == 64 {
        2
    } else if size == 128 {
        59
    } else if size == 256 {
        7
    } else {
        229
    };
    assert(a * b == 1 + size * m && b * a == 1 + size * m) by (nonlinear_arith)
        requires
            size == 32 && a == 23 && b == 7 && m == 5 || size == 64 && a == 43 && b == 3 && m == 2
                || size == 128 && a == 83 && b == 91 && m == 59 || size == 256 && a == 163 && b
                == 11 && m == 7 || size == 512 && a == 323 && b == 363 && m == 229,
    ;
    lemma_undone(size as int, a, b, m, k);
    lemma_undone(size as int, b, a, m, k);
}

proof fn lemma_walk_step(size: nat, k: int)
    requires
        size > 0,
    ensures
        (pos(size, k) + fse::stride(size)) % (size as int) == pos(size, k + 1),
        pos(size, size as int) == 0,
        pos(size, 0) == 0,
        0 <= pos(size, k) < size,
{
    let a = fse::stride(size) as int;
    lemma_add_mod_noop(k * a, a, size as int);
    lemma_add_mod_noop(pos(size, k), a, size as int);
    lemma_mod_twice(k * a, size as int);
    assert((k + 1) * a == k * a + a) by (nonlinear_arith);
    assert(size * a == a * size) by (nonlinear_arith);
    lemma_mod_multiples_basic(a, size as int);
    lemma_mod_bound(k * a, size as int);
    lemma_small_mod(0, size);
    assert(0 * a == 0) by (nonlinear_arith);
}

/// The next free state in the walk.
proof fn lemma_settle(size: nat, high: nat, k: int, tries: nat) -> (k2: int)
    requires
        walkable(size),
        0 <= k <= size,
        0 < high,
        tries >= size - k,
    ensures
        k <= k2 <= size,
        fse::settle(pos(size, k) as nat, size, high, tries) == Some(pos(size, k2) as nat),
        pos(size, k2) < high,
        forall|q: int| k <= q < k2 ==> #[trigger] pos(size, q) >= high,
    decreases size - k,
{
    lemma_walk_step(size, k);
    if pos(size, k) < high {
        k
    } else {
        let k2 = lemma_settle(size, high, k + 1, (tries - 1) as nat);
        assert forall|q: int| k <= q < k2 implies #[trigger] pos(size, q) >= high by {
            if q > k {
                assert(k + 1 <= q);
            }
        }
        k2
    }
}

/// The states taken once the walk stands after `k` strides.
spec fn marked(size: nat, high: nat, k: int) -> Set<int> {
    Set::new(|p: int| 0 <= p < size && (p >= high || idx(size, p) < k))
}

/// How many states `s` has taken when `left` are still owed to symbol `i`.
spec fn taken(counts: Seq<i32>, s: u8, i: int, left: nat) -> int {
    if s >= counts.len() {
        0
    } else if counts[s as int] == -1 {
        1
    } else if s < i {
        fse::wanted(counts, s as int) as int
    } else if s == i {
        fse::wanted(counts, i) - left
    } else {
        0
    }
}

proof fn lemma_marked_len(size: nat, high: nat, k: int)
    ensures
        marked(size, high, k).finite(),
        marked(size, high, k).len() <= size,
{
    lemma_int_range(0, size as int);
    lemma_len_subset(marked(size, high, k), set_int_range(0, size as int));
}

/// The spread gives every symbol its share and ends where it began.
proof fn lemma_spread(
    counts: Seq<i32>,
    i: int,
    left: nat,
    k: int,
    symbols: Seq<u8>,
    high: nat,
)
    requires
        walkable(symbols.len()),
        0 <= i <= counts.len() <= 256,
        left <= fse::wanted(counts, i),
        0 <= k <= symbols.len(),
        high <= symbols.len(),
        high > 0 ==> pos(symbols.len(), k) < high,
        high == 0 ==> k == 0,
        marked(symbols.len(), high, k).len() + left + rest(counts, i + 1) == symbols.len(),
        forall|s: u8|
            #[trigger] held(symbols, marked(symbols.len(), high, k), s, symbols.len() as int)
                == taken(counts, s, i, left),
    ensures
        fse::spread(counts, i, left, pos(symbols.len(), k) as nat, symbols, high) matches Some(
            (sy, at),
        ) && at == 0 && sy.len() == symbols.len() && forall|s: u8|
            #[trigger] fse::ranked(sy, s, symbols.len() as int) == fse::share_at(counts, s as int),
    decreases counts.len() - i, left,
{
    let size = symbols.len();
    let marks = marked(size, high, k);
    lemma_marked_len(size, high, k);
    lemma_int_range(0, size as int);
    lemma_walk_step(size, k);
    if i >= counts.len() {
        assert(left == 0);
        let all = set_int_range(0, size as int);
        assert(marks.subset_of(all));
        lemma_subset_equality(marks, all);
        if high > 0 && k < size {
            let p = pos(size, k);
            lemma_walk(size, k);
            assert(all.contains(p));
            assert(!marks.contains(p));
        }
        assert forall|s: u8|
            #[trigger] fse::ranked(symbols, s, size as int) == fse::share_at(
                counts,
                s as int,
            ) by {
            assert forall|p: int| 0 <= p < size implies marks.contains(p) by {
                assert(all.contains(p));
            }
            lemma_held_all(symbols, marks, s, size as int);
            assert(held(symbols, marks, s, size as int) == taken(counts, s, i, left));
        }
    } else if left == 0 {
        assert forall|s: u8|
            #[trigger] held(symbols, marks, s, size as int) == taken(
                counts,
                s,
                i + 1,
                fse::wanted(counts, i + 1),
            ) by {
            assert(held(symbols, marks, s, size as int) == taken(counts, s, i, left));
        }
        lemma_spread(counts, i + 1, fse::wanted(counts, i + 1), k, symbols, high);
    } else {
        if high == 0 || k == size {
            assert(marks =~= set_int_range(0, size as int)) by {
                assert forall|p: int| 0 <= p < size implies marks.contains(p) by {
                    lemma_walk(size, p);
                }
            }
        }
        let p = pos(size, k);
        lemma_walk(size, k);
        let k2 = lemma_settle(size, high, k + 1, size);
        let next = symbols.update(p, i as u8);
        let more = marked(size, high, k2);
        assert(more =~= marks.insert(p)) by {
            assert forall|q: int| more.contains(q) <==> marks.insert(p).contains(q) by {
                if 0 <= q < size {
                    lemma_walk(size, q);
                    if q < high && k < idx(size, q) < k2 {
                        assert(pos(size, idx(size, q)) >= high);
                    }
                }
            }
        }
        assert forall|s: u8|
            #[trigger] held(next, more, s, size as int) == taken(counts, s, i, (left - 1) as nat) by {
            lemma_held(symbols, marks, s, size as int, p, i as u8);
            assert(held(symbols, marks, s, size as int) == taken(counts, s, i, left));
        }
        lemma_spread(counts, i, (left - 1) as nat, k2, next, high);
    }
}

/// Every symbol of a distribution stands in as many states as its share.
pub proof fn lemma_placed(counts: Seq<i32>, log: nat)
    requires
        distributed(counts, log),
    ensures
        fse::placed(counts, pow2(log)) matches Some(sy) && sy.len() == pow2(log) && forall|s: u8|
            #[trigger] fse::ranked(sy, s, pow2(log) as int) == fse::share_at(counts, s as int),
{
    lemma2_to64();
    let size = pow2(log);
    assert(walkable(size)) by {
        assert(log == 5 || log == 6 || log == 7 || log == 8 || log == 9);
    }
    let blank = Seq::new(size, |i: int| 0u8);
    let none = set_int_range(size as int, size as int);
    assert forall|s: u8| #[trigger] held(blank, none, s, size as int) == tag(counts, s, 0) by {
        lemma_held_none(blank, none, s, size as int);
    }
    lemma_rare(counts, 0, blank, size);
    let (symbols, high) = fse::rare(counts, 0, blank, size)->Some_0;
    let marks = set_int_range(high as int, size as int);
    assert(marked(size, high, 0) =~= marks) by {
        assert forall|p: int| 0 <= p < size implies idx(size, p) >= 0 by {
            lemma_walk(size, p);
        }
    }
    lemma_int_range(high as int, size as int);
    lemma_walk_step(size, 0);
    assert forall|s: u8|
        #[trigger] held(symbols, marked(size, high, 0), s, size as int) == taken(
            counts,
            s,
            0,
            fse::wanted(counts, 0),
        ) by {
        assert(held(symbols, marks, s, size as int) == tag(counts, s, counts.len() as int));
    }
    lemma_spread(counts, 0, fse::wanted(counts, 0), 0, symbols, high);
}

/// A distribution makes a table.
pub proof fn lemma_built(counts: Seq<i32>, log: nat)
    requires
        distributed(counts, log),
    ensures
        fse::built(counts, log) is Ok,
{
    lemma_placed(counts, log);
    let size = pow2(log);
    let symbols = fse::placed(counts, size)->Some_0;
    assert forall|j: int| 0 <= j < symbols.len() implies #[trigger] fse::entry_at(
        counts,
        symbols,
        log,
        j,
    ) is Some by {
        let s = symbols[j];
        let n = fse::slot(counts, symbols, j);
        assert(fse::ranked(symbols, s, size as int) == fse::share_at(counts, s as int));
        lemma_ranked_below(symbols, s, j, size as int);
        lemma_ranked_bound(symbols, s, size as int);
        bits::lemma_log2(n);
        lemma_pow2_unfold(log + 1);
        if bits::log2(n) > log {
            if bits::log2(n) > log + 1 {
                lemma_pow2_strictly_increases(log + 1, bits::log2(n));
            }
        }
    }
}

/// A state of `s` is counted among those before any later state.
proof fn lemma_ranked_below(symbols: Seq<u8>, s: u8, j: int, n: int)
    requires
        0 <= j < n,
        symbols[j] == s,
    ensures
        fse::ranked(symbols, s, j) < fse::ranked(symbols, s, n),
    decreases n,
{
    if j < n - 1 {
        lemma_ranked_below(symbols, s, j, n - 1);
    }
}

/// There are no more states of a symbol than states.
proof fn lemma_ranked_bound(symbols: Seq<u8>, s: u8, n: int)
    requires
        0 <= n,
    ensures
        fse::ranked(symbols, s, n) <= n,
    decreases n,
{
    if n > 0 {
        lemma_ranked_bound(symbols, s, n - 1);
    }
}

/// The `k`-th state of a symbol.
proof fn lemma_ranked_state(symbols: Seq<u8>, s: u8, n: int, k: nat) -> (j: int)
    requires
        0 <= n <= symbols.len(),
        k < fse::ranked(symbols, s, n),
    ensures
        0 <= j < n,
        symbols[j] == s,
        fse::ranked(symbols, s, j) == k,
    decreases n,
{
    if symbols[n - 1] == s && fse::ranked(symbols, s, n - 1) == k {
        n - 1
    } else {
        lemma_ranked_state(symbols, s, n - 1, k)
    }
}

/// A symbol that stands in as many states as its share can come before any
/// state: one of its states leads there.
pub proof fn lemma_covered(counts: Seq<i32>, symbols: Seq<u8>, log: nat, s: u8, t: int) -> (j: int)
    requires
        log <= MAX_TABLE_LOG,
        symbols.len() == pow2(log),
        fse::share_at(counts, s as int) == fse::ranked(symbols, s, symbols.len() as int),
        fse::share_at(counts, s as int) > 0,
        0 <= t < symbols.len(),
    ensures
        0 <= j < symbols.len(),
        fse::entry_at(counts, symbols, log, j) matches Some(e) && e.symbol == s && e.base <= t < e.base
            + pow2(e.bits as nat),
{
    let c = fse::share_at(counts, s as int);
    let size = pow2(log);
    let l = bits::log2(c);
    let x = size + t;
    lemma_ranked_bound(symbols, s, symbols.len() as int);
    bits::lemma_log2(c);
    if log < l {
        lemma_pow2_strictly_increases(log, l);
    }
    let w = (log - l) as nat;
    lemma_pow2_adds(l, w);
    lemma_pow2_adds(l + 1, w);
    lemma_pow2_unfold(log + 1);
    lemma_pow2_unfold(l + 1);
    lemma_pow2_unfold(l + 2);
    lemma_pow2_pos(w);
    lemma_pow2_pos(l);
    let p = pow2(w) as int;
    if x >= c * p {
        let n = x / p;
        assert(c <= n && n * p <= x < n * p + p && n < pow2(l + 1)) by (nonlinear_arith)
            requires
                p > 0,
                x >= c * p,
                n == x / p,
                x < pow2(l + 1) * p,
        ;
        bits::lemma_log2_unique(n as nat, l);
        assert(n < 2 * c);
        let j = lemma_ranked_state(symbols, s, symbols.len() as int, (n - c) as nat);
        assert(fse::slot(counts, symbols, j) == n);
        fse::lemma_entry(counts, symbols, log, j);
        j
    } else {
        assert(w > 0) by {
            lemma2_to64();
            if w == 0 {
                assert(c * p == c) by (nonlinear_arith)
                    requires
                        p == 1,
                ;
            }
        }
        let v = (w - 1) as nat;
        lemma_pow2_unfold(w);
        lemma_pow2_pos(v);
        lemma_pow2_adds(l + 1, v);
        let q = pow2(v) as int;
        let n = x / q;
        assert(pow2(l + 1) <= n && n * q <= x < n * q + q && n < 2 * c) by (nonlinear_arith)
            requires
                q > 0,
                p == 2 * q,
                x < c * p,
                n == x / q,
                x >= pow2(l + 1) * q,
        ;
        bits::lemma_log2_unique(n as nat, l + 1);
        let j = lemma_ranked_state(symbols, s, symbols.len() as int, (n - c) as nat);
        assert(fse::slot(counts, symbols, j) == n);
        fse::lemma_entry(counts, symbols, log, j);
        j
    }
}

/// States of one symbol lead to different states.
proof fn lemma_apart(counts: Seq<i32>, symbols: Seq<u8>, log: nat, i: int, j: int, t: int)
    requires
        log <= MAX_TABLE_LOG,
        symbols.len() == pow2(log),
        0 <= i < j < symbols.len(),
        symbols[i] == symbols[j],
        fse::share_at(counts, symbols[i] as int) == fse::ranked(
            symbols,
            symbols[i],
            symbols.len() as int,
        ),
        fse::entry_at(counts, symbols, log, i) is Some,
        fse::entry_at(counts, symbols, log, j) is Some,
        fse::covers(fse::entry_at(counts, symbols, log, i)->Some_0, symbols[i], t),
    ensures
        !fse::covers(fse::entry_at(counts, symbols, log, j)->Some_0, symbols[i], t),
{
    let s = symbols[i];
    let c = fse::share_at(counts, s as int);
    let a = fse::slot(counts, symbols, i);
    let b = fse::slot(counts, symbols, j);
    lemma_ranked_below(symbols, s, i, j);
    lemma_ranked_below(symbols, s, j, symbols.len() as int);
    fse::lemma_entry(counts, symbols, log, i);
    fse::lemma_entry(counts, symbols, log, j);
    bits::lemma_log2(a);
    bits::lemma_log2(b);
    let la = bits::log2(a);
    let lb = bits::log2(b);
    let p = pow2((log - la) as nat) as int;
    let q = pow2((log - lb) as nat) as int;
    if la == lb {
        assert(a * p + p <= b * p) by (nonlinear_arith)
            requires
                a + 1 <= b,
                p >= 0,
        ;
    } else {
        assert(la < lb) by {
            if lb < la {
                if lb + 1 < la {
                    lemma_pow2_strictly_increases(lb + 1, la);
                }
            }
        }
        assert(lb == la + 1) by {
            lemma_pow2_unfold(la + 2);
            if la + 2 < lb {
                lemma_pow2_strictly_increases(la + 2, lb);
            }
        }
        lemma_pow2_unfold((log - la) as nat);
        assert(p == 2 * q);
        assert(b * q + q <= a * p) by (nonlinear_arith)
            requires
                b + 1 <= 2 * a,
                p == 2 * q,
                q >= 0,
        ;
    }
}

/// In the table of a distribution, the ranges that follow the states of one
/// symbol tile the table: for every state exactly one state of the symbol
/// leads to it.
pub proof fn lemma_tiled(counts: Seq<i32>, log: nat, s: u8, t: int) -> (j: int)
    requires
        distributed(counts, log),
        fse::share_at(counts, s as int) > 0,
        0 <= t < pow2(log),
    ensures
        fse::built(counts, log) matches Ok(table) && 0 <= j < table.entries.len() && fse::covers(
            table.entries[j],
            s,
            t,
        ) && forall|i: int|
            0 <= i < table.entries.len() && #[trigger] fse::covers(table.entries[i], s, t) ==> i == j,
{
    lemma_placed(counts, log);
    lemma_built(counts, log);
    let symbols = fse::placed(counts, pow2(log))->Some_0;
    let table = fse::built(counts, log)->Ok_0;
    assert(fse::ranked(symbols, s, symbols.len() as int) == fse::share_at(counts, s as int));
    let j = lemma_covered(counts, symbols, log, s, t);
    assert forall|i: int|
        0 <= i < table.entries.len()
            && #[trigger] fse::covers(table.entries[i], s, t) implies i == j by {
        assert(fse::entry_at(counts, symbols, log, i) is Some);
        assert(symbols[i] == s && symbols[j] == s);
        if i < j {
            lemma_apart(counts, symbols, log, i, j, t);
        } else if j < i {
            lemma_apart(counts, symbols, log, j, i, t);
        }
    }
    j
}

#[verifier::spinoff_prover]
#[verifier::rlimit(60)]
proof fn lemma_default_literal_length()
    ensures
        distributed(DEFAULT_LITERAL_LENGTH@, DEFAULT_LITERAL_LENGTH_LOG as nat),
{
    lemma2_to64();
    reveal_with_fuel(rest, 37);
    reveal_with_fuel(rarities, 37);
}

#[verifier::spinoff_prover]
#[verifier::rlimit(60)]
proof fn lemma_default_match_length()
    ensures
        distributed(DEFAULT_MATCH_LENGTH@, DEFAULT_MATCH_LENGTH_LOG as nat),
{
    lemma2_to64();
    reveal_with_fuel(rest, 54);
    reveal_with_fuel(rarities, 54);
}

#[verifier::spinoff_prover]
#[verifier::rlimit(60)]
proof fn lemma_default_offset()
    ensures
        distributed(DEFAULT_OFFSET@, DEFAULT_OFFSET_LOG as nat),
{
    lemma2_to64();
    reveal_with_fuel(rest, 30);
    reveal_with_fuel(rarities, 30);
}

/// The distributions that the format defines are distributions over their
/// tables.
pub proof fn lemma_defaults()
    ensures
        distributed(DEFAULT_LITERAL_LENGTH@, DEFAULT_LITERAL_LENGTH_LOG as nat),
        distributed(DEFAULT_MATCH_LENGTH@, DEFAULT_MATCH_LENGTH_LOG as nat),
        distributed(DEFAULT_OFFSET@, DEFAULT_OFFSET_LOG as nat),
{
    lemma_default_literal_length();
    lemma_default_match_length();
    lemma_default_offset();
}

proof fn lemma_some_lead(entries: Seq<Entry>, s: u8, t: int, j: int, n: int)
    requires
        0 <= j < n,
        fse::covers(entries[j], s, t),
    ensures
        fse::lead_of(entries, s, t, n) is Some,
    decreases n,
{
    if j < n - 1 {
        lemma_some_lead(entries, s, t, j, n - 1);
    }
}

proof fn lemma_some_first(entries: Seq<Entry>, s: u8, j: int, from: int)
    requires
        from <= j < entries.len(),
        entries[j].symbol == s,
    ensures
        fse::first_of(entries, s, from) is Some,
    decreases entries.len() - from,
{
    if from < j {
        lemma_some_first(entries, s, j, from + 1);
    }
}

/// In the table of a distribution, a symbol that has a share can be written
/// last and before every state.
pub proof fn lemma_writable(counts: Seq<i32>, log: nat, s: u8, t: int)
    requires
        distributed(counts, log),
        fse::share_at(counts, s as int) > 0,
        0 <= t < pow2(log),
    ensures
        fse::built(counts, log) matches Ok(table) && fse::first_of(table.entries, s, 0) is Some
            && fse::lead_of(table.entries, s, t, table.entries.len() as int) is Some
            && table.entries.len() == pow2(log),
{
    let j = lemma_tiled(counts, log, s, t);
    lemma_placed(counts, log);
    let table = fse::built(counts, log)->Ok_0;
    lemma_some_lead(table.entries, s, t, j, table.entries.len() as int);
    lemma_some_first(table.entries, s, j, 0);
}

/// Every symbol of the distributions that the format defines has a share.
pub proof fn lemma_default_shares(i: int)
    ensures
        0 <= i < 36 ==> fse::share_at(DEFAULT_LITERAL_LENGTH@, i) > 0,
        0 <= i < 53 ==> fse::share_at(DEFAULT_MATCH_LENGTH@, i) > 0,
        0 <= i < 29 ==> fse::share_at(DEFAULT_OFFSET@, i) > 0,
{
}

} // verus!
