//! How the symbols of an LZMA stream are written: which decisions stand for
//! each of them, and with which probability each decision is coded.
use crate::codecs::lzma::range;
use crate::codecs::lzma::range::Dec;
use crate::codecs::lzma::syntax;
use crate::codecs::lzma::syntax::{Lz, Outcome, Properties};
use crate::utils::bits;
use crate::utils::lz;
use vstd::arithmetic::div_mod::*;
use vstd::arithmetic::power2::*;
use vstd::prelude::*;

verus! {

/// A decision.
pub enum Choice {
    /// A bit that is coded with the probability of a slot.
    Slot(int, int),
    /// A bit that is as likely as not.
    Even(int),
}

/// The decoder after it has read these decisions, if it does read them.
pub open spec fn told(data: Seq<u8>, d: Dec, plan: Seq<Choice>) -> Option<Dec>
    decreases plan.len(),
{
    if plan.len() == 0 {
        Some(d)
    } else {
        match told(data, d, plan.drop_last()) {
            None => None,
            Some(e) => match plan.last() {
                Choice::Slot(i, bit) => {
                    let (b, f) = range::slot_read(data, e, i);
                    if b == bit {
                        Some(f)
                    } else {
                        None
                    }
                },
                Choice::Even(bit) => {
                    let (b, c) = range::even_read(data, e.coder);
                    if b == bit {
                        Some(Dec { coder: c, ..e })
                    } else {
                        None
                    }
                },
            },
        }
    }
}

/// One of the bits of a number, the lowest being number zero.
pub open spec fn bit_of(v: int, k: int) -> int {
    v / pow2(k as nat) as int % 2
}

/// A number of `n` bits, the highest first. Each bit has a probability of its
/// own for every value of the bits before it.
pub open spec fn tree_plan(base: int, v: int, n: nat) -> Seq<Choice> {
    Seq::new(
        n,
        |k: int|
            Choice::Slot(
                base + pow2(k as nat) as int + v / pow2((n - k) as nat) as int,
                bit_of(v, n - 1 - k),
            ),
    )
}

/// A one and the lowest `k` bits of a number, the lowest first.
pub open spec fn mirrored(v: int, k: nat) -> int
    decreases k,
{
    if k == 0 {
        1
    } else {
        2 * mirrored(v, (k - 1) as nat) + bit_of(v, k - 1)
    }
}

/// A number of `n` bits, the lowest first.
pub open spec fn reverse_plan(base: int, v: int, n: nat) -> Seq<Choice> {
    Seq::new(n, |k: int| Choice::Slot(base + mirrored(v, k as nat), bit_of(v, k)))
}

/// A number of `n` bits that are not modelled, the highest first.
pub open spec fn even_plan(v: int, n: nat) -> Seq<Choice> {
    Seq::new(n, |k: int| Choice::Even(bit_of(v, n - 1 - k)))
}

/// The length of a match, of 2 to 273 bytes.
pub open spec fn length_plan(base: int, len: int, pos: int) -> Seq<Choice> {
    if len < 10 {
        seq![Choice::Slot(base, 0)] + tree_plan(base + 2 + 8 * pos, len - 2, 3)
    } else if len < 18 {
        seq![Choice::Slot(base, 1), Choice::Slot(base + 1, 0)] + tree_plan(
            base + 130 + 8 * pos,
            len - 10,
            3,
        )
    } else {
        seq![Choice::Slot(base, 1), Choice::Slot(base + 1, 1)] + tree_plan(
            base + 258,
            len - 18,
            8,
        )
    }
}

/// How many bits of a distance stand behind its slot: all but the two highest.
pub open spec fn width_of(d: int) -> nat {
    (bits::log2(d as nat) - 1) as nat
}

/// The slot of a distance less one: how many bits it has, and the second
/// highest of them.
pub open spec fn slot_for(d: int) -> int {
    if d < 4 {
        d
    } else {
        2 * bits::log2(d as nat) as int + bit_of(d, width_of(d) as int)
    }
}

/// A distance less one, of a match of `len` bytes.
pub open spec fn distance_plan(d: int, len: int) -> Seq<Choice> {
    let row = if len < 5 {
        len - 2
    } else {
        3
    };
    let first = tree_plan(432 + 64 * row, slot_for(d), 6);
    let w = width_of(d);
    let low = d % pow2(w) as int;
    if d < 4 {
        first
    } else if d < 128 {
        first + reverse_plan(688 + d - low - slot_for(d), low, w)
    } else {
        first + even_plan(low / 16, (w - 4) as nat) + reverse_plan(803, low % 16, 4)
    }
}

proof fn lemma_prefix(data: Seq<u8>, d: Dec, plan: Seq<Choice>, k: int)
    requires
        0 <= k <= plan.len(),
        told(data, d, plan) is Some,
    ensures
        told(data, d, plan.take(k)) is Some,
    decreases plan.len(),
{
    if k == plan.len() {
        assert(plan.take(k) =~= plan);
    } else {
        lemma_prefix(data, d, plan.drop_last(), k);
        assert(plan.drop_last().take(k) =~= plan.take(k));
    }
}

/// Decisions that follow others.
pub proof fn lemma_told_concat(data: Seq<u8>, d: Dec, a: Seq<Choice>, b: Seq<Choice>)
    ensures
        told(data, d, a + b) == match told(data, d, a) {
            None => None::<Dec>,
            Some(e) => told(data, e, b),
        },
    decreases b.len(),
{
    if b.len() == 0 {
        assert(a + b =~= a);
    } else {
        assert((a + b).drop_last() =~= a + b.drop_last());
        assert((a + b).last() == b.last());
        lemma_told_concat(data, d, a, b.drop_last());
    }
}

proof fn lemma_one(data: Seq<u8>, d: Dec, i: int, bit: int)
    ensures
        told(data, d, seq![Choice::Slot(i, bit)]) == if range::slot_read(data, d, i).0 == bit {
            Some(range::slot_read(data, d, i).1)
        } else {
            None
        },
{
    let plan = seq![Choice::Slot(i, bit)];
    assert(plan.drop_last() =~= Seq::<Choice>::empty());
    assert(told(data, d, plan.drop_last()) == Some(d));
}

proof fn lemma_two(data: Seq<u8>, d: Dec, i: int, a: int, j: int, b: int)
    ensures
        told(data, d, seq![Choice::Slot(i, a), Choice::Slot(j, b)]) == {
            let (x, e) = range::slot_read(data, d, i);
            let (y, f) = range::slot_read(data, e, j);
            if x == a && y == b {
                Some(f)
            } else {
                None
            }
        },
{
    lemma_one(data, d, i, a);
    let plan = seq![Choice::Slot(i, a), Choice::Slot(j, b)];
    assert(plan.drop_last() =~= seq![Choice::Slot(i, a)]);
}

proof fn lemma_halved(v: int, j: nat)
    requires
        v >= 0,
    ensures
        v / pow2(j) as int == 2 * (v / pow2(j + 1) as int) + bit_of(v, j as int),
        v % pow2(j + 1) as int == v % pow2(j) as int + bit_of(v, j as int) * pow2(j),
{
    lemma_pow2_pos(j);
    lemma_pow2_unfold(j + 1);
    lemma_div_denominator(v, pow2(j) as int, 2);
    let q = v / pow2(j) as int;
    let p = pow2(j) as int;
    assert(pow2(j + 1) == p * 2);
    assert(q == 2 * (q / 2) + q % 2);
    lemma_fundamental_div_mod(v, p);
    lemma_fundamental_div_mod(v, p * 2);
    assert(v % (p * 2) == v % p + (q % 2) * p) by (nonlinear_arith)
        requires
            v == p * q + v % p,
            v == (p * 2) * (q / 2) + v % (p * 2),
            q == 2 * (q / 2) + q % 2,
    ;
}

proof fn lemma_tree_part(data: Seq<u8>, d: Dec, base: int, v: int, n: nat, k: nat)
    requires
        told(data, d, tree_plan(base, v, n)) is Some,
        0 <= v < pow2(n),
        k <= n,
    ensures
        told(data, d, tree_plan(base, v, n).take(k as int)) == Some(
            range::walked(data, d, base, k).1,
        ),
        range::walked(data, d, base, k).0 == pow2(k) as int + v / pow2((n - k) as nat) as int,
    decreases k,
{
    let plan = tree_plan(base, v, n);
    lemma_prefix(data, d, plan, k as int);
    if k == 0 {
        lemma2_to64();
        lemma_basic_div(v, pow2(n) as int);
    } else {
        lemma_tree_part(data, d, base, v, n, (k - 1) as nat);
        assert(plan.take(k as int).drop_last() =~= plan.take(k - 1));
        assert(plan.take(k as int).last() == plan[k - 1]);
        lemma_halved(v, (n - k) as nat);
        assert((n - k) as nat + 1 == (n - (k - 1)) as nat);
        lemma_pow2_unfold(k);
    }
}

/// A number, the highest bit first.
pub proof fn lemma_tree(data: Seq<u8>, d: Dec, base: int, v: int, n: nat)
    requires
        told(data, d, tree_plan(base, v, n)) is Some,
        0 <= v < pow2(n),
    ensures
        told(data, d, tree_plan(base, v, n)) == Some(range::tree_read(data, d, base, n).1),
        range::tree_read(data, d, base, n).0 == v,
{
    lemma_tree_part(data, d, base, v, n, n);
    assert(tree_plan(base, v, n).take(n as int) =~= tree_plan(base, v, n));
    lemma2_to64();
}

proof fn lemma_reverse_part(data: Seq<u8>, d: Dec, base: int, v: int, n: nat, k: nat)
    requires
        told(data, d, reverse_plan(base, v, n)) is Some,
        0 <= v,
        k <= n,
    ensures
        told(data, d, reverse_plan(base, v, n).take(k as int)) == Some(
            range::reverse_walked(data, d, base, k).2,
        ),
        range::reverse_walked(data, d, base, k).0 == mirrored(v, k),
        range::reverse_walked(data, d, base, k).1 == v % pow2(k) as int,
    decreases k,
{
    let plan = reverse_plan(base, v, n);
    lemma_prefix(data, d, plan, k as int);
    if k == 0 {
        lemma2_to64();
    } else {
        lemma_reverse_part(data, d, base, v, n, (k - 1) as nat);
        assert(plan.take(k as int).drop_last() =~= plan.take(k - 1));
        assert(plan.take(k as int).last() == plan[k - 1]);
        lemma_halved(v, (k - 1) as nat);
    }
}

/// A number, the lowest bit first.
pub proof fn lemma_reverse(data: Seq<u8>, d: Dec, base: int, v: int, n: nat)
    requires
        told(data, d, reverse_plan(base, v, n)) is Some,
        0 <= v < pow2(n),
    ensures
        told(data, d, reverse_plan(base, v, n)) == Some(range::reverse_walked(data, d, base, n).2),
        range::reverse_walked(data, d, base, n).1 == v,
{
    lemma_reverse_part(data, d, base, v, n, n);
    assert(reverse_plan(base, v, n).take(n as int) =~= reverse_plan(base, v, n));
    lemma_small_mod(v as nat, pow2(n));
}

proof fn lemma_even_part(data: Seq<u8>, d: Dec, v: int, n: nat, k: nat)
    requires
        told(data, d, even_plan(v, n)) is Some,
        0 <= v < pow2(n),
        k <= n,
    ensures
        told(data, d, even_plan(v, n).take(k as int)) == Some(
            Dec { coder: range::direct_read(data, d.coder, k).1, ..d },
        ),
        range::direct_read(data, d.coder, k).0 == v / pow2((n - k) as nat) as int,
    decreases k,
{
    let plan = even_plan(v, n);
    lemma_prefix(data, d, plan, k as int);
    if k == 0 {
        lemma_basic_div(v, pow2(n) as int);
    } else {
        lemma_even_part(data, d, v, n, (k - 1) as nat);
        assert(plan.take(k as int).drop_last() =~= plan.take(k - 1));
        assert(plan.take(k as int).last() == plan[k - 1]);
        lemma_halved(v, (n - k) as nat);
        assert((n - k) as nat + 1 == (n - (k - 1)) as nat);
    }
}

/// A number that is not modelled.
pub proof fn lemma_even(data: Seq<u8>, d: Dec, v: int, n: nat)
    requires
        told(data, d, even_plan(v, n)) is Some,
        0 <= v < pow2(n),
    ensures
        told(data, d, even_plan(v, n)) == Some(
            Dec { coder: range::direct_read(data, d.coder, n).1, ..d },
        ),
        range::direct_read(data, d.coder, n).0 == v,
{
    lemma_even_part(data, d, v, n, n);
    assert(even_plan(v, n).take(n as int) =~= even_plan(v, n));
    lemma2_to64();
}

/// What the decisions of a length say.
pub proof fn lemma_length(data: Seq<u8>, d: Dec, base: int, len: int, pos: int)
    requires
        told(data, d, length_plan(base, len, pos)) is Some,
        2 <= len <= 273,
    ensures
        told(data, d, length_plan(base, len, pos)) == Some(
            syntax::length(data, d, base, pos).1,
        ),
        syntax::length(data, d, base, pos).0 == len - 2,
{
    reveal(syntax::length);
    lemma2_to64();
    if len < 10 {
        let t = tree_plan(base + 2 + 8 * pos, len - 2, 3);
        lemma_told_concat(data, d, seq![Choice::Slot(base, 0)], t);
        lemma_one(data, d, base, 0);
        let e = range::slot_read(data, d, base).1;
        lemma_tree(data, e, base + 2 + 8 * pos, len - 2, 3);
    } else if len < 18 {
        let t = tree_plan(base + 130 + 8 * pos, len - 10, 3);
        lemma_told_concat(
            data,
            d,
            seq![Choice::Slot(base, 1), Choice::Slot(base + 1, 0)],
            t,
        );
        lemma_two(data, d, base, 1, base + 1, 0);
        let e = range::slot_read(data, range::slot_read(data, d, base).1, base + 1).1;
        lemma_tree(data, e, base + 130 + 8 * pos, len - 10, 3);
    } else {
        let t = tree_plan(base + 258, len - 18, 8);
        lemma_told_concat(
            data,
            d,
            seq![Choice::Slot(base, 1), Choice::Slot(base + 1, 1)],
            t,
        );
        lemma_two(data, d, base, 1, base + 1, 1);
        let e = range::slot_read(data, range::slot_read(data, d, base).1, base + 1).1;
        lemma_tree(data, e, base + 258, len - 18, 8);
    }
}

/// The two highest bits of a distance and its slot.
proof fn lemma_slot(d: int)
    requires
        4 <= d < 0x1_0000_0000,
    ensures
        ({
            let w = width_of(d);
            let slot = slot_for(d);
            &&& 1 <= w <= 30
            &&& slot / 2 - 1 == w
            &&& 4 <= slot < 64
            &&& d == (2 + slot % 2) * pow2(w) + d % pow2(w) as int
            &&& 0 <= d % (pow2(w) as int)
            &&& (d % (pow2(w) as int)) < pow2(w)
            &&& (slot < 14 <==> d < 128)
        }),
{
    let k = bits::log2(d as nat);
    bits::lemma_log2(d as nat);
    lemma2_to64();
    if k < 2 {
        lemma_pow2_strictly_increases(k + 1, 3);
        if k + 1 < 2 {
            lemma_pow2_strictly_increases(k + 1, 2);
        }
    }
    if k >= 32 {
        if k > 32 {
            lemma_pow2_strictly_increases(32, k);
        }
    }
    if k < 7 {
        if k + 1 < 7 {
            lemma_pow2_strictly_increases(k + 1, 7);
        }
    } else if k > 7 {
        lemma_pow2_strictly_increases(7, k);
    }
    let w = (k - 1) as nat;
    let p = pow2(w) as int;
    lemma_pow2_pos(w);
    lemma_pow2_unfold(k);
    lemma_pow2_unfold(k + 1);
    let q = d / p;
    lemma_fundamental_div_mod(d, p);
    assert(2 <= q < 4) by (nonlinear_arith)
        requires
            d == p * q + d % p,
            0 <= d % p < p,
            2 * p <= d < 4 * p,
            p > 0,
    ;
    assert(d == (2 + q % 2) * p + d % p) by (nonlinear_arith)
        requires
            d == p * q + d % p,
            q == 2 + q % 2,
    ;
}

/// What the decisions of a distance say.
pub proof fn lemma_distance(data: Seq<u8>, e: Dec, d: int, len: int)
    requires
        told(data, e, distance_plan(d, len)) is Some,
        0 <= d < 0x1_0000_0000,
        2 <= len,
    ensures
        told(data, e, distance_plan(d, len)) == Some(syntax::distance(data, e, len - 2).1),
        syntax::distance(data, e, len - 2).0 == d,
{
    reveal(syntax::distance);
    lemma2_to64();
    let row = if len < 5 {
        len - 2
    } else {
        3
    };
    let slot = slot_for(d);
    let first = tree_plan(432 + 64 * row, slot, 6);
    let w = width_of(d);
    let p = pow2(w) as int;
    let low = d % p;
    if d < 4 {
        lemma_tree(data, e, 432 + 64 * row, slot, 6);
    } else {
        lemma_slot(d);
        if d < 128 {
            let rest = reverse_plan(688 + d - low - slot, low, w);
            lemma_told_concat(data, e, first, rest);
            lemma_tree(data, e, 432 + 64 * row, slot, 6);
            let e1 = range::tree_read(data, e, 432 + 64 * row, 6).1;
            lemma_reverse(data, e1, 688 + d - low - slot, low, w);
        } else {
            let mid = even_plan(low / 16, (w - 4) as nat);
            let last = reverse_plan(803, low % 16, 4);
            lemma_told_concat(data, e, first + mid, last);
            lemma_told_concat(data, e, first, mid);
            lemma_tree(data, e, 432 + 64 * row, slot, 6);
            let e1 = range::tree_read(data, e, 432 + 64 * row, 6).1;
            lemma_pow2_adds((w - 4) as nat, 4);
            let r = pow2((w - 4) as nat) as int;
            assert(p == r * 16);
            assert(low / 16 < r);
            lemma_even(data, e1, low / 16, (w - 4) as nat);
            let e2 = Dec {
                coder: range::direct_read(data, e1.coder, (w - 4) as nat).1,
                ..e1
            };
            lemma_reverse(data, e2, 803, low % 16, 4);
            assert(low == 16 * (low / 16) + low % 16);
        }
    }
}

/// The kinds of symbols.
pub enum Kind {
    /// A byte.
    Literal,
    /// A match at a new distance.
    Fresh,
    /// A match at one of the last four distances.
    Repeat,
    /// A byte at the last distance.
    Short,
}

/// How many literals stand at the end.
pub open spec fn literals(ks: Seq<Kind>) -> int
    decreases ks.len(),
{
    if ks.len() == 0 || ks.last() !is Literal {
        0
    } else {
        1 + literals(ks.drop_last())
    }
}

/// What the decisions depend on: of which kind the last symbols were. After
/// three literals, or before any match, nothing else matters.
pub open spec fn state_of(ks: Seq<Kind>) -> int {
    let n = literals(ks);
    let j = ks.len() - 1 - n;
    if n >= 3 || j < 0 {
        0
    } else {
        let alone = j == 0 || ks[j - 1] is Literal;
        let rank = match ks[j] {
            Kind::Repeat => 1int,
            Kind::Short => if alone {
                2
            } else {
                1
            },
            _ => 0,
        };
        if n == 0 {
            if alone {
                7 + rank
            } else {
                10 + rank
            }
        } else if n == 1 {
            4 + rank
        } else {
            1 + rank
        }
    }
}

proof fn lemma_literals(ks: Seq<Kind>)
    ensures
        0 <= literals(ks) <= ks.len(),
        literals(ks) < ks.len() ==> ks[ks.len() - 1 - literals(ks)] !is Literal,
        0 <= state_of(ks) < 12,
        state_of(ks) < 7 <==> ks.len() == 0 || ks.last() is Literal,
    decreases ks.len(),
{
    if ks.len() > 0 && ks.last() is Literal {
        lemma_literals(ks.drop_last());
    }
}

/// How the state goes on.
proof fn lemma_state(ks: Seq<Kind>, k: Kind)
    ensures
        0 <= state_of(ks) < 12,
        state_of(ks.push(k)) == match k {
            Kind::Literal => syntax::after_literal(state_of(ks)),
            Kind::Fresh => if state_of(ks) < 7 {
                7
            } else {
                10
            },
            Kind::Repeat => if state_of(ks) < 7 {
                8
            } else {
                11
            },
            Kind::Short => if state_of(ks) < 7 {
                9
            } else {
                11
            },
        },
{
    lemma_literals(ks);
    lemma_literals(ks.push(k));
    assert(ks.push(k).drop_last() =~= ks);
    if k is Literal {
        assert(literals(ks.push(k)) == 1 + literals(ks));
    }
}

/// Where in a group of `2^pb` positions a position is.
pub open spec fn place(p: Properties, at: int) -> int {
    at % pow2(p.pb as nat) as int
}

/// The decisions of a match at a new distance.
pub open spec fn fresh_plan(state: int, pos: int, len: int, dist: int) -> Seq<Choice> {
    seq![Choice::Slot(16 * state + pos, 1), Choice::Slot(192 + state, 0)] + (length_plan(
        819,
        len,
        pos,
    ) + distance_plan(dist - 1, len))
}

/// A match at a distance that is given: it is the last distance from now on.
pub proof fn lemma_fresh(
    data: Seq<u8>,
    p: Properties,
    s: Lz,
    ks: Seq<Kind>,
    len: int,
    dist: int,
    e: Dec,
)
    requires
        s.state == state_of(ks),
        s.reps.len() == 4,
        0 <= s.total <= syntax::MAX_TOTAL,
        2 <= len <= 273,
        1 <= dist <= s.hist.len(),
        dist <= p.dict_size,
        told(data, s.dec, fresh_plan(s.state, place(p, s.total), len, dist)) == Some(e),
    ensures
        syntax::step(data, p, s) == Outcome::Next(
            Lz {
                dec: e,
                state: state_of(ks.push(Kind::Fresh)),
                reps: seq![(dist - 1) as u32, s.reps[0], s.reps[1], s.reps[2]],
                hist: lz::copied(s.hist, dist, len as nat),
                total: s.total + len,
            },
        ),
{
    reveal(syntax::step);
    let pos = place(p, s.total);
    let a = seq![Choice::Slot(16 * s.state + pos, 1), Choice::Slot(192 + s.state, 0)];
    let b = length_plan(819, len, pos);
    let c = distance_plan(dist - 1, len);
    lemma_state(ks, Kind::Fresh);
    lemma_told_concat(data, s.dec, a, b + c);
    lemma_two(data, s.dec, 16 * s.state + pos, 1, 192 + s.state, 0);
    let d2 = range::slot_read(
        data,
        range::slot_read(data, s.dec, 16 * s.state + pos).1,
        192 + s.state,
    ).1;
    lemma_told_concat(data, d2, b, c);
    lemma_length(data, d2, 819, len, pos);
    lemma_distance(data, syntax::length(data, d2, 819, pos).1, dist - 1, len);
}

/// The decisions of the end marker: a match at a distance that is too long.
pub open spec fn marker_plan(state: int, pos: int, len: int) -> Seq<Choice> {
    fresh_plan(state, pos, len, 0x1_0000_0000)
}

/// The end marker ends the stream, whatever length it has.
pub proof fn lemma_marker(
    data: Seq<u8>,
    p: Properties,
    s: Lz,
    ks: Seq<Kind>,
    len: int,
    e: Dec,
)
    requires
        s.state == state_of(ks),
        0 <= s.total <= syntax::MAX_TOTAL,
        2 <= len <= 273,
        told(data, s.dec, marker_plan(s.state, place(p, s.total), len)) == Some(e),
    ensures
        syntax::step(data, p, s) matches Outcome::Marker(t) && t.dec == e && t.hist == s.hist,
{
    reveal(syntax::step);
    let pos = place(p, s.total);
    let a = seq![Choice::Slot(16 * s.state + pos, 1), Choice::Slot(192 + s.state, 0)];
    let b = length_plan(819, len, pos);
    let c = distance_plan(0xffff_ffff, len);
    lemma_told_concat(data, s.dec, a, b + c);
    lemma_two(data, s.dec, 16 * s.state + pos, 1, 192 + s.state, 0);
    let d2 = range::slot_read(
        data,
        range::slot_read(data, s.dec, 16 * s.state + pos).1,
        192 + s.state,
    ).1;
    lemma_told_concat(data, d2, b, c);
    lemma_length(data, d2, 819, len, pos);
    lemma_distance(data, syntax::length(data, d2, 819, pos).1, 0xffff_ffff, len);
}

/// Which of the last distances: as many ones as there are later ones.
pub open spec fn which_plan(state: int, pos: int, i: int) -> Seq<Choice> {
    let ones = Seq::new(i as nat, |j: int| Choice::Slot(204 + 12 * j + state, 1));
    if i == 0 {
        seq![Choice::Slot(204 + state, 0), Choice::Slot(240 + 16 * state + pos, 1)]
    } else if i < 3 {
        ones.push(Choice::Slot(204 + 12 * i + state, 0))
    } else {
        ones
    }
}

/// The decisions of a match at the `i`th last distance.
pub open spec fn repeat_plan(state: int, pos: int, len: int, i: int) -> Seq<Choice> {
    seq![Choice::Slot(16 * state + pos, 1), Choice::Slot(192 + state, 1)] + (which_plan(
        state,
        pos,
        i,
    ) + length_plan(1333, len, pos))
}

proof fn lemma_which(data: Seq<u8>, d: Dec, state: int, pos: int, i: int)
    requires
        0 <= i < 4,
        told(data, d, which_plan(state, pos, i)) is Some,
    ensures
        ({
            let (g0, d0) = range::slot_read(data, d, 204 + state);
            let (g1, d1) = range::slot_read(data, d0, 216 + state);
            let (g2, d2) = range::slot_read(data, d1, 228 + state);
            let (l, d3) = range::slot_read(data, d0, 240 + 16 * state + pos);
            &&& (i == 0 ==> g0 == 0 && l == 1 && told(data, d, which_plan(state, pos, i)) == Some(
                d3,
            ))
            &&& (i == 1 ==> g0 == 1 && g1 == 0 && told(data, d, which_plan(state, pos, i)) == Some(
                d1,
            ))
            &&& (i == 2 ==> g0 == 1 && g1 == 1 && g2 == 0 && told(
                data,
                d,
                which_plan(state, pos, i),
            ) == Some(d2))
            &&& (i == 3 ==> g0 == 1 && g1 == 1 && g2 == 1 && told(
                data,
                d,
                which_plan(state, pos, i),
            ) == Some(d2))
        }),
{
    let plan = which_plan(state, pos, i);
    if i == 0 {
        lemma_two(data, d, 204 + state, 0, 240 + 16 * state + pos, 1);
    } else if i == 1 {
        assert(plan =~= seq![Choice::Slot(204 + state, 1), Choice::Slot(216 + state, 0)]);
        lemma_two(data, d, 204 + state, 1, 216 + state, 0);
    } else {
        let head = seq![Choice::Slot(204 + state, 1), Choice::Slot(216 + state, 1)];
        lemma_two(data, d, 204 + state, 1, 216 + state, 1);
        assert(plan.drop_last() =~= head);
        assert(plan.last() == Choice::Slot(
            228 + state,
            if i == 2 {
                0
            } else {
                1
            },
        ));
    }
}

/// A match at one of the last four distances: that one comes first from now
/// on, and the others keep their order.
#[verifier::spinoff_prover]
pub proof fn lemma_repeat(
    data: Seq<u8>,
    p: Properties,
    s: Lz,
    ks: Seq<Kind>,
    len: int,
    i: int,
    e: Dec,
)
    requires
        s.state == state_of(ks),
        s.reps.len() == 4,
        0 <= i < 4,
        0 <= s.total <= syntax::MAX_TOTAL,
        2 <= len <= 273,
        s.reps[i] < s.hist.len(),
        told(data, s.dec, repeat_plan(s.state, place(p, s.total), len, i)) == Some(e),
    ensures
        syntax::step(data, p, s) == Outcome::Next(
            Lz {
                dec: e,
                state: state_of(ks.push(Kind::Repeat)),
                reps: seq![s.reps[i]] + s.reps.remove(i),
                hist: lz::copied(s.hist, s.reps[i] + 1, len as nat),
                total: s.total + len,
            },
        ),
{
    reveal(syntax::step);
    let pos = place(p, s.total);
    let a = seq![Choice::Slot(16 * s.state + pos, 1), Choice::Slot(192 + s.state, 1)];
    let b = which_plan(s.state, pos, i);
    let c = length_plan(1333, len, pos);
    lemma_state(ks, Kind::Repeat);
    lemma_told_concat(data, s.dec, a, b + c);
    lemma_two(data, s.dec, 16 * s.state + pos, 1, 192 + s.state, 1);
    let d2 = range::slot_read(
        data,
        range::slot_read(data, s.dec, 16 * s.state + pos).1,
        192 + s.state,
    ).1;
    lemma_told_concat(data, d2, b, c);
    lemma_which(data, d2, s.state, pos, i);
    let d3 = told(data, d2, b)->0;
    lemma_length(data, d3, 1333, len, pos);
    let front = seq![s.reps[i]] + s.reps.remove(i);
    if i == 0 {
        assert(front =~= s.reps);
    } else if i == 1 {
        assert(front =~= seq![s.reps[1], s.reps[0], s.reps[2], s.reps[3]]);
    } else if i == 2 {
        assert(front =~= seq![s.reps[2], s.reps[0], s.reps[1], s.reps[3]]);
    } else {
        assert(front =~= seq![s.reps[3], s.reps[0], s.reps[1], s.reps[2]]);
    }
}

/// The decisions of a single byte at the last distance.
pub open spec fn short_plan(state: int, pos: int) -> Seq<Choice> {
    seq![Choice::Slot(16 * state + pos, 1), Choice::Slot(192 + state, 1)] + seq![
        Choice::Slot(204 + state, 0),
        Choice::Slot(240 + 16 * state + pos, 0),
    ]
}

/// A single byte at the last distance: the distances stay as they are.
pub proof fn lemma_short(data: Seq<u8>, p: Properties, s: Lz, ks: Seq<Kind>, e: Dec)
    requires
        s.state == state_of(ks),
        s.reps.len() == 4,
        0 <= s.total <= syntax::MAX_TOTAL,
        s.reps[0] < s.hist.len(),
        told(data, s.dec, short_plan(s.state, place(p, s.total))) == Some(e),
    ensures
        syntax::step(data, p, s) == Outcome::Next(
            Lz {
                dec: e,
                state: state_of(ks.push(Kind::Short)),
                reps: s.reps,
                hist: lz::copied(s.hist, s.reps[0] + 1, 1),
                total: s.total + 1,
            },
        ),
{
    reveal(syntax::step);
    let pos = place(p, s.total);
    let a = seq![Choice::Slot(16 * s.state + pos, 1), Choice::Slot(192 + s.state, 1)];
    let b = seq![Choice::Slot(204 + s.state, 0), Choice::Slot(240 + 16 * s.state + pos, 0)];
    lemma_state(ks, Kind::Short);
    lemma_told_concat(data, s.dec, a, b);
    lemma_two(data, s.dec, 16 * s.state + pos, 1, 192 + s.state, 1);
    let d2 = range::slot_read(
        data,
        range::slot_read(data, s.dec, 16 * s.state + pos).1,
        192 + s.state,
    ).1;
    lemma_two(data, d2, 204 + s.state, 0, 240 + 16 * s.state + pos, 0);
    reveal_with_fuel(lz::copied, 2);
    assert(lz::copied(s.hist, s.reps[0] + 1, 1) =~= s.hist.push(
        s.hist[s.hist.len() - s.reps[0] - 1],
    ));
}

/// The table of a literal: the low `lp` bits of the position and the high `lc`
/// bits of the byte before.
pub open spec fn table_of(p: Properties, low: int, high: int) -> int {
    1847 + 0x300 * (low * pow2(p.lc as nat) + high)
}

/// The decisions of a byte. After a match, `near` is the byte at the last
/// distance: as long as the bits agree with it, its next bit picks one of two
/// other tables.
pub open spec fn byte_plan(table: int, near: Option<int>, v: int) -> Seq<Choice> {
    Seq::new(
        8,
        |k: int|
            Choice::Slot(
                table + pow2(k as nat) as int + v / pow2((8 - k) as nat) as int + match near {
                    Some(m) => if m / pow2((8 - k) as nat) as int == v / pow2(
                        (8 - k) as nat,
                    ) as int {
                        256 + 256 * bit_of(m, 7 - k)
                    } else {
                        0
                    },
                    None => 0,
                },
                bit_of(v, 7 - k),
            ),
    )
}

proof fn lemma_byte_part(
    data: Seq<u8>,
    d: Dec,
    table: int,
    near: Option<int>,
    v: int,
    k: nat,
)
    requires
        told(data, d, byte_plan(table, near, v)) is Some,
        0 <= v < 256,
        near matches Some(m) ==> 0 <= m < 256,
        k <= 8,
    ensures
        told(data, d, byte_plan(table, near, v).take(k as int)) == Some(
            syntax::literal_walked(data, d, table, near, k).1,
        ),
        syntax::literal_walked(data, d, table, near, k).0 == pow2(k) as int + v / pow2(
            (8 - k) as nat,
        ) as int,
    decreases k,
{
    let plan = byte_plan(table, near, v);
    lemma2_to64();
    lemma_prefix(data, d, plan, k as int);
    if k == 0 {
        assert(v / 256 == 0);
    } else {
        let j = (k - 1) as nat;
        lemma_byte_part(data, d, table, near, v, j);
        assert(plan.take(k as int).drop_last() =~= plan.take(k - 1));
        assert(plan.take(k as int).last() == plan[k - 1]);
        lemma_halved(v, (8 - k) as nat);
        assert((8 - k) as nat + 1 == (8 - j) as nat);
        lemma_pow2_unfold(k);
        if let Some(m) = near {
            lemma_above(m, j);
            lemma_above(m, k);
            let top = m / pow2((7 - j) as nat) as int;
            assert((8 - k) as nat == (7 - j) as nat);
            assert((256 + m) / pow2((7 - j) as nat) as int == 2 * pow2(j) + top);
            assert((2 * pow2(j) + top) % 2 == top % 2);
            assert(bit_of(m, 7 - j) == top % 2);
        }
        let symbol = syntax::literal_walked(data, d, table, near, j).0;
        assert(Choice::Slot(
            syntax::literal_slot(table, near, symbol, j),
            bit_of(v, 7 - j),
        ) == plan[j as int]);
    }
}

proof fn lemma_above(m: int, j: nat)
    requires
        j <= 8,
        0 <= m < 256,
    ensures
        (256 + m) / pow2((8 - j) as nat) as int == pow2(j) as int + m / pow2(
            (8 - j) as nat,
        ) as int,
{
    lemma2_to64();
    lemma_pow2_adds(j, (8 - j) as nat);
    lemma_pow2_pos((8 - j) as nat);
    let a = pow2(j) as int;
    let b = pow2((8 - j) as nat) as int;
    lemma_hoist_over_denominator(m, a, b as nat);
    assert(a * b == 256);
}

/// A byte at position `total`, in a table that the position and the byte
/// before pick.
pub proof fn lemma_literal(
    data: Seq<u8>,
    p: Properties,
    s: Lz,
    ks: Seq<Kind>,
    turns: int,
    low: int,
    high: int,
    rest: int,
    byte: u8,
    e: Dec,
)
    requires
        syntax::props_ok(p),
        s.state == state_of(ks),
        0 <= s.total <= syntax::MAX_TOTAL,
        s.total == turns * pow2(p.lp as nat) + low,
        0 <= low < pow2(p.lp as nat),
        syntax::previous_byte(s.hist) == high * pow2((8 - p.lc) as nat) + rest,
        0 <= rest < pow2((8 - p.lc) as nat),
        ks.len() > 0 && ks.last() !is Literal ==> s.reps[0] < s.hist.len(),
        ({
            let near = if ks.len() > 0 && ks.last() !is Literal {
                Some(s.hist[s.hist.len() - 1 - s.reps[0]] as int)
            } else {
                None
            };
            told(
                data,
                s.dec,
                seq![Choice::Slot(16 * s.state + place(p, s.total), 0)] + byte_plan(
                    table_of(p, low, high),
                    near,
                    byte as int,
                ),
            ) == Some(e)
        }),
    ensures
        syntax::step(data, p, s) == Outcome::Next(
            Lz {
                dec: e,
                state: state_of(ks.push(Kind::Literal)),
                reps: s.reps,
                hist: s.hist.push(byte),
                total: s.total + 1,
            },
        ),
{
    reveal(syntax::step);
    let pos = place(p, s.total);
    let table = table_of(p, low, high);
    let near = if ks.len() > 0 && ks.last() !is Literal {
        Some(s.hist[s.hist.len() - 1 - s.reps[0]] as int)
    } else {
        None
    };
    lemma_state(ks, Kind::Literal);
    lemma_literals(ks);
    lemma_fundamental_div_mod_converse(s.total, pow2(p.lp as nat) as int, turns, low);
    lemma_fundamental_div_mod_converse(
        syntax::previous_byte(s.hist),
        pow2((8 - p.lc) as nat) as int,
        high,
        rest,
    );
    assert(syntax::literal_base(p, s.total, syntax::previous_byte(s.hist)) == table);
    let a = seq![Choice::Slot(16 * s.state + pos, 0)];
    let b = byte_plan(table, near, byte as int);
    lemma_told_concat(data, s.dec, a, b);
    lemma_one(data, s.dec, 16 * s.state + pos, 0);
    let d1 = range::slot_read(data, s.dec, 16 * s.state + pos).1;
    lemma_byte_part(data, d1, table, near, byte as int, 8);
    lemma2_to64();
    assert(b.take(8) =~= b);
}

/// The properties byte: `pb`, `lp` and `lc` as digits. Dictionaries are of
/// 4 KiB at least and of 1 GiB at most.
pub proof fn lemma_properties(lc: u32, lp: u32, pb: u32, dict: u32)
    requires
        lc <= 8,
        lp <= 4,
        pb <= 4,
    ensures
        syntax::props_from((pb * 5 + lp) * 9 + lc, dict as int) == if dict > 0x4000_0000 {
            None
        } else {
            Some(
                Properties {
                    lc,
                    lp,
                    pb,
                    dict_size: if dict < 4096 {
                        4096
                    } else {
                        dict
                    },
                },
            )
        },
{
    let byte = (pb * 5 + lp) * 9 + lc;
    assert(byte == 9 * (5 * pb + lp) + lc);
    assert(byte / 9 == 5 * pb + lp);
    assert(byte / 45 == pb);
}

} // verus!
