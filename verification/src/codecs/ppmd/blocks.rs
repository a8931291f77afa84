//! The sizes of blocks, and the classes that numbers of symbols fall into.
use crate::codecs::ppmd;
use crate::codecs::ppmd::arena;
use crate::codecs::ppmd::arena::INDEXES;
use crate::codecs::ppmd::h;
use crate::codecs::ppmd::rules;
use crate::codecs::ppmd::rules::{Chain, Model};
use vstd::prelude::*;

verus! {

/// Blocks of one to four units, then of every second, every third and every
/// fourth number up to 128.
pub proof fn lemma_sizes(i: int)
    requires
        0 <= i < 37,
    ensures
        arena::units_of(0) == 1,
        arena::units_of(37) == 128,
        arena::units_of(i + 1) - arena::units_of(i) == 1 + if i + 1 < 16 {
            (i + 1) / 4
        } else {
            3
        },
{
}

/// A block has as many units as are asked for, and no smaller one has.
pub proof fn lemma_size(nu: u32)
    requires
        1 <= nu <= 128,
    ensures
        0 <= arena::index_of(nu) < 38,
        arena::units_of(arena::index_of(nu)) >= nu,
        arena::index_of(nu) > 0 ==> arena::units_of(arena::index_of(nu) - 1) < nu,
{
}

/// Larger sizes have more units.
pub proof fn lemma_sizes_rise(i: int, j: int)
    requires
        0 <= i < j < 38,
    ensures
        arena::units_of(i) < arena::units_of(j),
{
}

/// The sum of the numbers below `t`.
pub open spec fn below(t: int) -> int
    decreases t,
{
    if t <= 0 {
        0
    } else {
        below(t - 1) + t - 1
    }
}

/// In variant H the classes from three on have one number, two, three and so
/// on.
pub proof fn lemma_classes_h(t: int, r: int)
    requires
        1 <= t,
        0 <= r < t,
    ensures
        h::rules::ns2indx(3 + below(t) + r) == t + 2,
        h::rules::class_at(3 + below(t) + r) == (t + 2, t - r),
    decreases t, r,
{
    reveal_with_fuel(below, 2);
    lemma_below(t);
    if r > 0 {
        lemma_classes_h(t, r - 1);
    } else if t > 1 {
        lemma_classes_h(t - 1, t - 2);
    }
}

/// In variant I those from five on.
pub proof fn lemma_classes(t: int, r: int)
    requires
        1 <= t,
        0 <= r < t,
    ensures
        rules::ns2indx(5 + below(t) + r) == t + 4,
        rules::class_at(5 + below(t) + r) == (t + 4, t - r),
    decreases t, r,
{
    reveal_with_fuel(below, 2);
    lemma_below(t);
    if r > 0 {
        lemma_classes(t, r - 1);
    } else if t > 1 {
        lemma_classes(t - 1, t - 2);
    }
}

proof fn lemma_below(t: int)
    ensures
        below(t) >= 0,
        t > 1 ==> below(t) >= 1,
    decreases t,
{
    if t > 0 {
        lemma_below(t - 1);
    }
}

/// What is written is read.
pub proof fn lemma_number(b: Seq<u8>, at: u32, v: u32)
    requires
        at + 4 <= b.len(),
    ensures
        arena::get32(arena::put32(b, at, v), at) == v,
{
}

/// A block that is freed is the next one of its size, and once it is taken the
/// list is as it was.
pub proof fn lemma_freed(m: Model, node: u32, i: int)
    requires
        0 <= i < INDEXES,
        m.free_list.len() == INDEXES,
        m.stamps.len() == INDEXES,
        node + 12 <= m.base.len(),
        node + 12 <= 0xffff_ffff,
    ensures
        rules::first_free(rules::insert_node(m, node, i), i) == node,
        rules::insert_node(m, node, i).stamps[i] == m.stamps[i].wrapping_add(1),
        rules::remove_node(rules::insert_node(m, node, i), i).free_list == m.free_list,
        rules::remove_node(rules::insert_node(m, node, i), i).stamps == m.stamps,
        forall|k: int|
            0 <= k < m.base.len() && !(node <= k < node + 12) ==> #[trigger] rules::insert_node(
                m,
                node,
                i,
            ).base[k] == m.base[k],
        rules::insert_node(m, node, i).base.len() == m.base.len(),
{
    let b = m.base;
    let b1 = arena::put32(b, node, rules::EMPTY_NODE);
    let b2 = arena::put32(b1, (node + 4) as u32, m.free_list[i]);
    let b3 = arena::put32(b2, (node + 8) as u32, arena::units_of(i));
    lemma_number(b1, (node + 4) as u32, m.free_list[i]);
    let r = rules::insert_node(m, node, i);
    assert(r.base == b3);
    assert(arena::get32(b3, (node + 4) as u32) == arena::get32(b2, (node + 4) as u32));
    assert(rules::remove_node(r, i).free_list =~= m.free_list);
    assert(m.stamps[i].wrapping_add(1).wrapping_sub(1) == m.stamps[i]);
    assert(rules::remove_node(r, i).stamps =~= m.stamps);
}

/// The model once units are freed as blocks of two sizes that follow one
/// another, or of one size if `b` is negative.
pub open spec fn as_blocks(m: Model, at: u32, a: int, b: int) -> Model {
    if b < 0 {
        rules::insert_node(m, at, a)
    } else {
        rules::insert_node(
            rules::insert_node(m, (at + 12 * arena::units_of(a)) as u32, b),
            at,
            a,
        )
    }
}

/// Whether two such sizes have `nu` units, the first as many as can be.
pub open spec fn make_up(nu: u32, a: int, b: int) -> bool {
    &&& 0 <= a < INDEXES
    &&& b < INDEXES
    &&& nu == arena::units_of(a) + if b < 0 {
        0
    } else {
        arena::units_of(b) as int
    }
    &&& a + 1 < INDEXES ==> arena::units_of(a + 1) > nu
}

/// Units that are freed go into the lists without any left over.
pub proof fn lemma_placed(m: Model, at: u32, nu: u32)
    requires
        1 <= nu <= 128,
        at + 12 * nu <= 0xffff_ffff,
    ensures
        exists|a: int, b: int| #[trigger]
            make_up(nu, a, b) && rules::place_units(m, at, nu) == as_blocks(m, at, a, b),
{
    reveal(rules::place_units);
    lemma_size(nu);
    let i = arena::index_of(nu);
    if arena::units_of(i) == nu {
        if i + 1 < 38 {
            lemma_sizes_rise(i, i + 1);
        }
        assert(make_up(nu, i, -1));
        assert(rules::place_units(m, at, nu) == as_blocks(m, at, i, -1));
    } else {
        lemma_sizes(i - 1);
        let k = arena::units_of(i - 1);
        let b = nu - k - 1;
        assert(1 <= nu - k < 4);
        assert(arena::units_of(b) == nu - k);
        assert(k.wrapping_mul(12) == 12 * k);
        assert(at.wrapping_add((12 * k) as u32) == at + 12 * k);
        assert(make_up(nu, i - 1, b));
        assert(rules::place_units(m, at, nu) == as_blocks(m, at, i - 1, b));
    }
}

/// Freeing units changes nothing but what they hold.
pub proof fn lemma_placed_kept(m: Model, at: u32, nu: u32)
    requires
        1 <= nu <= 128,
        m.free_list.len() == INDEXES,
        m.stamps.len() == INDEXES,
        m.base.len() <= 0xffff_ffff,
        at + 12 * nu <= m.base.len(),
    ensures
        rules::place_units(m, at, nu).base.len() == m.base.len(),
        forall|k: int|
            0 <= k < m.base.len() && !(at <= k < at + 12 * nu) ==> #[trigger] rules::place_units(
                m,
                at,
                nu,
            ).base[k] == m.base[k],
{
    lemma_placed(m, at, nu);
    let (a, b) = choose|a: int, b: int| #[trigger]
        make_up(nu, a, b) && rules::place_units(m, at, nu) == as_blocks(m, at, a, b);
    let u = arena::units_of(a);
    assert(u >= 1);
    if b < 0 {
        lemma_freed(m, at, a);
    } else {
        let v = arena::units_of(b);
        assert(v >= 1);
        let next = (at + 12 * u) as u32;
        lemma_freed(m, next, b);
        lemma_freed(rules::insert_node(m, next, b), at, a);
    }
}

/// What a smaller block leaves of a larger one lies right behind it.
pub proof fn lemma_split(m: Model, at: u32, large: int, small: int)
    requires
        0 <= small < large < INDEXES,
        at + 12 * arena::units_of(large) <= 0xffff_ffff,
    ensures
        rules::split_block(m, at, large, small) == rules::place_units(
            m,
            (at + 12 * arena::units_of(small)) as u32,
            (arena::units_of(large) - arena::units_of(small)) as u32,
        ),
{
    lemma_sizes_rise(small, large);
    assert(arena::units_of(small).wrapping_mul(12) == 12 * arena::units_of(small));
}

/// The units that a block keeps when it is cut keep what they hold, wherever
/// they are afterwards.
pub proof fn lemma_shrunk(m: Model, at: u32, from: u32, to: u32)
    requires
        1 <= to <= from <= 128,
        m.free_list.len() == INDEXES,
        m.stamps.len() == INDEXES,
        m.base.len() <= 0xffff_ffff,
        at + 12 * arena::units_of(arena::index_of(from)) <= m.base.len(),
        ({
            let f = rules::first_free(m, arena::index_of(to));
            f != 0 ==> f + 12 * arena::units_of(arena::index_of(to)) <= m.base.len() && (f + 12
                * arena::units_of(arena::index_of(to)) <= at || at + 12 * arena::units_of(
                arena::index_of(from),
            ) <= f)
        }),
    ensures
        ({
            let (n, ptr) = rules::shrink_units(m, at, from, to);
            &&& n.base.len() == m.base.len()
            &&& forall|i: int|
                #![trigger n.base[ptr + i]]
                0 <= i < 12 * to ==> n.base[ptr + i] == m.base[at + i]
        }),
{
    reveal(rules::shrink_units);
    lemma_size(from);
    lemma_size(to);
    let i0 = arena::index_of(from);
    let i1 = arena::index_of(to);
    if i0 != i1 {
        let f = rules::first_free(m, i1);
        if f != 0 {
            let a = rules::remove_node(m, i1);
            assert(to.wrapping_mul(12) == 12 * to);
            let b = rules::copy_units(a, f, at, to);
            lemma_freed(b, at, i0);
        } else {
            assert(i1 < i0);
            lemma_split(m, at, i0, i1);
            lemma_sizes_rise(i1, i0);
            let rest = (arena::units_of(i0) - arena::units_of(i1)) as u32;
            let tail = (at + 12 * arena::units_of(i1)) as u32;
            lemma_placed_kept(m, tail, rest);
        }
    }
}

/// A block that is freed is the next one that is given out.
pub proof fn lemma_given_again(m: Model, node: u32, i: int)
    requires
        0 <= i < INDEXES,
        m.free_list.len() == INDEXES,
        m.stamps.len() == INDEXES,
        0 < node,
        node + 12 <= m.base.len(),
        node + 12 <= 0xffff_ffff,
    ensures
        rules::alloc_units(rules::insert_node(m, node, i), i).1 == node,
        rules::alloc_units(rules::insert_node(m, node, i), i).0.free_list == m.free_list,
{
    reveal(rules::alloc_units);
    lemma_freed(m, node, i);
}

/// Where none is free, blocks are taken from the middle, one after another
/// from below, and contexts from above.
pub proof fn lemma_from_the_middle(m: Model, i: int)
    requires
        0 <= i < INDEXES,
        rules::first_free(m, i) == 0,
        m.lo_unit + 12 * arena::units_of(i) <= m.hi_unit,
    ensures
        rules::alloc_units(m, i).1 == m.lo_unit,
        rules::alloc_units(m, i).0 == (Model {
            lo_unit: (m.lo_unit + 12 * arena::units_of(i)) as u32,
            ..m
        }),
        rules::alloc_context(m).1 == m.hi_unit - 12,
        rules::alloc_context(m).0 == (Model { hi_unit: (m.hi_unit - 12) as u32, ..m }),
{
    reveal(rules::alloc_units);
    reveal(rules::alloc_context);
    assert(arena::units_of(i) >= 1);
    assert(arena::units_of(i).wrapping_mul(12) == 12 * arena::units_of(i));
}

proof fn lemma_next_size(m: Model, i: int, j: int)
    requires
        0 <= i <= j <= INDEXES,
        forall|k: int| i <= k < j ==> #[trigger] rules::first_free(m, k) == 0,
        j < INDEXES ==> rules::first_free(m, j) != 0,
    ensures
        rules::next_size(m, i) == j,
    decreases j - i,
{
    if i < j {
        assert(rules::first_free(m, i) == 0);
        lemma_next_size(m, i + 1, j);
    }
}

/// Where the middle is used up, a block is cut off the smallest larger one
/// that is free, and what is left of that one is free again.
pub proof fn lemma_from_larger(m: Model, i: int, j: int)
    requires
        0 <= i < j < INDEXES,
        forall|k: int| i <= k < j ==> #[trigger] rules::first_free(m, k) == 0,
        rules::first_free(m, j) != 0,
        rules::first_free(m, j) + 12 * arena::units_of(j) <= 0xffff_ffff,
        m.lo_unit <= m.hi_unit,
        m.hi_unit - m.lo_unit < 12 * arena::units_of(i),
        m.glue_count != 0,
    ensures
        rules::alloc_units(m, i).1 == rules::first_free(m, j),
        rules::alloc_units(m, i).0 == rules::place_units(
            rules::remove_node(m, j),
            (rules::first_free(m, j) + 12 * arena::units_of(i)) as u32,
            (arena::units_of(j) - arena::units_of(i)) as u32,
        ),
{
    reveal(rules::alloc_units);
    reveal(rules::alloc_units_rare);
    assert(arena::units_of(i) <= 128);
    assert(arena::units_of(i).wrapping_mul(12) == 12 * arena::units_of(i));
    assert(rules::first_free(m, i) == 0);
    lemma_next_size(m, i + 1, j);
    lemma_split(rules::remove_node(m, j), rules::first_free(m, j), j, i);
}

/// Where no block is free, one is taken from the end of the room for the
/// text, as long as some of that is left.
pub proof fn lemma_from_the_text(m: Model, i: int)
    requires
        0 <= i < INDEXES,
        forall|k: int| i <= k < INDEXES ==> #[trigger] rules::first_free(m, k) == 0,
        m.lo_unit <= m.hi_unit,
        m.hi_unit - m.lo_unit < 12 * arena::units_of(i),
        m.glue_count != 0,
        m.text <= m.units_start,
    ensures
        ({
            let wide = 12 * arena::units_of(i);
            let later = Model { glue_count: (m.glue_count - 1) as u32, ..m };
            rules::alloc_units(m, i) == if m.text + wide < m.units_start {
                (
                    Model { units_start: (m.units_start - wide) as u32, ..later },
                    (m.units_start - wide) as u32,
                )
            } else {
                (later, 0u32)
            }
        }),
{
    reveal(rules::alloc_units);
    reveal(rules::alloc_units_rare);
    assert(arena::units_of(i) <= 128);
    assert(arena::units_of(i).wrapping_mul(12) == 12 * arena::units_of(i));
    assert(rules::first_free(m, i) == 0);
    lemma_next_size(m, i + 1, INDEXES as int);
}

/// The parameters of an entry of variant I: the order less one in four bits,
/// the memory in MiB less one in eight, and what is done once it is used up.
pub proof fn lemma_parameters(order: u32, mib: u32, restore: u32, more: Seq<u8>)
    requires
        1 <= order <= 16,
        1 <= mib <= 256,
        restore < 16,
    ensures
        ({
            let word = (order - 1) + 16 * (mib - 1) + 4096 * restore;
            ppmd::parameters(seq![(word % 256) as u8, (word / 256) as u8] + more) == (
                order,
                (mib * 0x10_0000) as u32,
                restore,
            )
        }),
{
}

/// A frequency that is scaled is half of it, rounded up.
pub proof fn lemma_scaled(f: u32)
    requires
        f < 0xffff_ffff,
    ensures
        rules::scaled(f, 0) == f,
        f <= 2 * rules::scaled(f, 1) <= f + 1,
{
}

/// As many blocks of 128 units as `q`, one behind the other.
pub open spec fn in_row(m: Model, at: u32, q: nat) -> Model
    decreases q,
{
    if q == 0 {
        m
    } else {
        in_row(rules::insert_node(m, at, 37), (at + 1536) as u32, (q - 1) as nat)
    }
}

/// Many units are freed as blocks of 128 and what is left behind them.
pub proof fn lemma_large(m: Model, at: u32, q: nat, r: u32)
    requires
        1 <= r <= 128,
        at + 12 * (128 * q + r) <= 0xffff_ffff,
    ensures
        rules::place_large(m, at, (128 * q + r) as u32) == rules::place_units(
            in_row(m, at, q),
            (at + 1536 * q) as u32,
            r,
        ),
    decreases q,
{
    if q > 0 {
        lemma_large(rules::insert_node(m, at, 37), (at + 1536) as u32, (q - 1) as nat, r);
        assert(128 * q + r - 128 == 128 * (q - 1) + r);
        assert(at + 1536 + 1536 * (q - 1) == at + 1536 * q);
    }
}

/// A free block and one right behind it become one: the first has the units
/// of both, and the second none.
pub proof fn lemma_absorbed(m: Model, node: u32, nu: u32, more: u32, fuel: nat)
    requires
        fuel >= 2,
        1 <= nu,
        1 <= more,
        node + 12 * (nu + more) + 12 <= m.base.len() <= 0xffff_ffff,
        arena::get32(m.base, (node + 12 * nu) as u32) == rules::EMPTY_NODE,
        arena::get32(m.base, (node + 12 * nu + 8) as u32) == more,
        arena::get32(m.base, (node + 12 * (nu + more)) as u32) != rules::EMPTY_NODE,
    ensures
        ({
            let r = rules::absorb(m, node, nu, fuel);
            &&& arena::get32(r.base, (node + 8) as u32) == nu + more
            &&& arena::get32(r.base, (node + 12 * nu + 8) as u32) == 0
            &&& r == (Model { base: r.base, ..m })
            &&& r.base.len() == m.base.len()
            &&& forall|k: int|
                0 <= k < m.base.len() && !(node + 8 <= k < node + 12) && !(node + 12 * nu + 8 <= k
                    < node + 12 * nu + 12) ==> #[trigger] r.base[k] == m.base[k]
        }),
{
    assert(nu.wrapping_mul(12) == 12 * nu);
    let after = (node + 12 * nu) as u32;
    let sum = (nu + more) as u32;
    assert(sum.wrapping_mul(12) == 12 * sum);
    let b1 = arena::put32(m.base, (after + 8) as u32, 0);
    let b2 = arena::put32(b1, (node + 8) as u32, sum);
    lemma_number(m.base, (after + 8) as u32, 0);
    lemma_number(b1, (node + 8) as u32, sum);
    let a = Model { base: b2, ..m };
    let end = (node + 12 * sum) as u32;
    assert(arena::get32(b2, end) == arena::get32(m.base, end));
    assert(arena::get32(b2, (after + 8) as u32) == arena::get32(b1, (after + 8) as u32));
    assert(rules::absorb(a, node, sum, (fuel - 1) as nat) == a);
}

proof fn lemma_absorb_count(m: Model, node: u32, nu: u32, fuel: nat)
    ensures
        rules::absorb(m, node, nu, fuel).glue_count == m.glue_count,
    decreases fuel,
{
    let after = node.wrapping_add(nu.wrapping_mul(12));
    if fuel > 0 && arena::get32(m.base, after) == rules::EMPTY_NODE {
        let sum = nu.wrapping_add(arena::get32(m.base, after.wrapping_add(8)));
        let a = rules::set_u32(
            rules::set_u32(m, after.wrapping_add(8), 0),
            node.wrapping_add(8),
            sum,
        );
        lemma_absorb_count(a, node, sum, (fuel - 1) as nat);
    }
}

proof fn lemma_chain_list_count(m: Model, next: u32, k: Chain, fuel: nat)
    ensures
        rules::chain_list(m, next, k, fuel).0.glue_count == m.glue_count,
    decreases fuel,
{
    if next != 0 && fuel > 0 {
        let nu = arena::get32(m.base, next.wrapping_add(8));
        let a = rules::note(m, k, next);
        let head = if k.slot is None {
            next
        } else {
            k.head
        };
        let after = arena::get32(a.base, next.wrapping_add(4));
        if nu != 0 {
            lemma_absorb_count(a, next, nu, a.base.len());
            lemma_chain_list_count(
                rules::absorb(a, next, nu, a.base.len()),
                after,
                Chain { head, slot: Some(next.wrapping_add(4)) },
                (fuel - 1) as nat,
            );
        } else {
            lemma_chain_list_count(a, after, Chain { head, slot: k.slot }, (fuel - 1) as nat);
        }
    }
}

proof fn lemma_chain_all_count(m: Model, i: int, k: Chain)
    ensures
        rules::chain_all(m, i, k).0.glue_count == m.glue_count,
    decreases INDEXES - i,
{
    if i < INDEXES {
        let a = Model { free_list: m.free_list.update(i, 0), ..m };
        let (b, l) = rules::chain_list(a, m.free_list[i], k, m.base.len());
        lemma_chain_list_count(a, m.free_list[i], k, m.base.len());
        lemma_chain_all_count(b, i + 1, l);
    }
}

proof fn lemma_place_large_count(m: Model, at: u32, nu: u32)
    ensures
        rules::place_large(m, at, nu).glue_count == m.glue_count,
    decreases nu,
{
    reveal(rules::place_units);
    if nu > 128 {
        lemma_place_large_count(
            rules::insert_node(m, at, INDEXES - 1),
            at.wrapping_add(128u32.wrapping_mul(12)),
            (nu - 128) as u32,
        );
    }
}

proof fn lemma_place_all_count(m: Model, n: u32, fuel: nat)
    ensures
        rules::place_all(m, n, fuel).glue_count == m.glue_count,
    decreases fuel,
{
    if n != 0 && fuel > 0 {
        let nu = arena::get32(m.base, n.wrapping_add(8));
        let next = arena::get32(m.base, n.wrapping_add(4));
        lemma_place_large_count(m, n, nu);
        lemma_place_all_count(
            if nu == 0 {
                m
            } else {
                rules::place_large(m, n, nu)
            },
            next,
            (fuel - 1) as nat,
        );
    }
}

/// Once blocks are joined, they are joined again after 8192 times that none was
/// free.
pub proof fn lemma_glued(m: Model)
    ensures
        rules::glue_free_blocks(m).glue_count == 8192,
{
    reveal(rules::glue_free_blocks);
    let a = Model { glue_count: 0x2000, stamps: Seq::new(INDEXES as nat, |i: int| 0u32), ..m };
    let b = if a.lo_unit != a.hi_unit {
        rules::set_u32(a, a.lo_unit, 0)
    } else {
        a
    };
    let none = Chain { head: 0, slot: None };
    let (c, k) = rules::chain_all(b, 0, none);
    lemma_chain_all_count(b, 0, none);
    let d = rules::note(c, k, 0);
    let head = if k.slot is None {
        0
    } else {
        k.head
    };
    lemma_place_all_count(d, head, d.base.len());
}

} // verus!
