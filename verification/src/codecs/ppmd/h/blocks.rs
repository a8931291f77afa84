//! Blocks of memory, freed and taken again.
use crate::codecs::ppmd::arena;
use crate::codecs::ppmd::arena::INDEXES;
use crate::codecs::ppmd::blocks;
use crate::codecs::ppmd::h::rules;
use crate::codecs::ppmd::h::rules::Model;
use vstd::prelude::*;

verus! {

/// A block that is freed is the next one of its size, and once it is taken the
/// list is as it was.
pub proof fn lemma_freed(m: Model, node: u32, i: int)
    requires
        0 <= i < INDEXES,
        m.free_list.len() == INDEXES,
        node + 4 <= m.base.len(),
        node + 4 <= 0xffff_ffff,
    ensures
        rules::first_free(rules::insert_node(m, node, i), i) == node,
        rules::remove_node(rules::insert_node(m, node, i), i).free_list == m.free_list,
        forall|k: int|
            0 <= k < m.base.len() && !(node <= k < node + 4) ==> #[trigger] rules::insert_node(
                m,
                node,
                i,
            ).base[k] == m.base[k],
        rules::insert_node(m, node, i).base.len() == m.base.len(),
{
    blocks::lemma_number(m.base, node, m.free_list[i]);
    let r = rules::insert_node(m, node, i);
    assert(rules::remove_node(r, i).free_list =~= m.free_list);
}

/// The model once units are freed as blocks of two sizes that follow one
/// another, or of one size if `b` is negative.
pub open spec fn as_blocks(m: Model, at: u32, a: int, b: int) -> Model {
    if b < 0 {
        rules::insert_node(m, at, a)
    } else {
        rules::insert_node(
            rules::insert_node(m, (at + 12 * arena::units_of(a)) as u32, b),
            at,
            a,
        )
    }
}

/// Units that are freed go into the lists without any left over.
pub proof fn lemma_placed(m: Model, at: u32, nu: u32)
    requires
        1 <= nu <= 128,
        at + 12 * nu <= 0xffff_ffff,
    ensures
        exists|a: int, b: int| #[trigger]
            blocks::make_up(nu, a, b) && rules::place_units(m, at, nu) == as_blocks(m, at, a, b),
{
    reveal(rules::place_units);
    blocks::lemma_size(nu);
    let i = arena::index_of(nu);
    if arena::units_of(i) == nu {
        if i + 1 < 38 {
            blocks::lemma_sizes_rise(i, i + 1);
        }
        assert(blocks::make_up(nu, i, -1));
        assert(rules::place_units(m, at, nu) == as_blocks(m, at, i, -1));
    } else {
        blocks::lemma_sizes(i - 1);
        let k = arena::units_of(i - 1);
        let b = nu - k - 1;
        assert(1 <= nu - k < 4);
        assert(arena::units_of(b) == nu - k);
        assert(k.wrapping_mul(12) == 12 * k);
        assert(at.wrapping_add((12 * k) as u32) == at + 12 * k);
        assert(blocks::make_up(nu, i - 1, b));
        assert(rules::place_units(m, at, nu) == as_blocks(m, at, i - 1, b));
    }
}

/// Freeing units changes nothing but what they hold.
pub proof fn lemma_placed_kept(m: Model, at: u32, nu: u32)
    requires
        1 <= nu <= 128,
        m.free_list.len() == INDEXES,
        m.base.len() <= 0xffff_ffff,
        at + 12 * nu <= m.base.len(),
    ensures
        rules::place_units(m, at, nu).base.len() == m.base.len(),
        forall|k: int|
            0 <= k < m.base.len() && !(at <= k < at + 12 * nu) ==> #[trigger] rules::place_units(
                m,
                at,
                nu,
            ).base[k] == m.base[k],
{
    lemma_placed(m, at, nu);
    let (a, b) = choose|a: int, b: int| #[trigger]
        blocks::make_up(nu, a, b) && rules::place_units(m, at, nu) == as_blocks(m, at, a, b);
    let u = arena::units_of(a);
    assert(u >= 1);
    if b < 0 {
        lemma_freed(m, at, a);
    } else {
        let v = arena::units_of(b);
        assert(v >= 1);
        let next = (at + 12 * u) as u32;
        lemma_freed(m, next, b);
        lemma_freed(rules::insert_node(m, next, b), at, a);
    }
}

/// What a smaller block leaves of a larger one lies right behind it.
pub proof fn lemma_split(m: Model, at: u32, large: int, small: int)
    requires
        0 <= small < large < INDEXES,
        at + 12 * arena::units_of(large) <= 0xffff_ffff,
    ensures
        rules::split_block(m, at, large, small) == rules::place_units(
            m,
            (at + 12 * arena::units_of(small)) as u32,
            (arena::units_of(large) - arena::units_of(small)) as u32,
        ),
{
    blocks::lemma_sizes_rise(small, large);
    assert(arena::units_of(small).wrapping_mul(12) == 12 * arena::units_of(small));
}

/// The units that a block keeps when it is cut keep what they hold, wherever
/// they are afterwards.
pub proof fn lemma_shrunk(m: Model, at: u32, from: u32, to: u32)
    requires
        1 <= to <= from <= 128,
        m.free_list.len() == INDEXES,
        m.base.len() <= 0xffff_ffff,
        at + 12 * arena::units_of(arena::index_of(from)) <= m.base.len(),
        ({
            let f = rules::first_free(m, arena::index_of(to));
            f != 0 ==> f + 12 * arena::units_of(arena::index_of(to)) <= m.base.len() && (f + 12
                * arena::units_of(arena::index_of(to)) <= at || at + 12 * arena::units_of(
                arena::index_of(from),
            ) <= f)
        }),
    ensures
        ({
            let (n, ptr) = rules::shrink_units(m, at, from, to);
            &&& n.base.len() == m.base.len()
            &&& forall|i: int|
                #![trigger n.base[ptr + i]]
                0 <= i < 12 * to ==> n.base[ptr + i] == m.base[at + i]
        }),
{
    reveal(rules::shrink_units);
    blocks::lemma_size(from);
    blocks::lemma_size(to);
    let i0 = arena::index_of(from);
    let i1 = arena::index_of(to);
    if i0 != i1 {
        let f = rules::first_free(m, i1);
        if f != 0 {
            let a = rules::remove_node(m, i1);
            assert(to.wrapping_mul(12) == 12 * to);
            let b = rules::copy_units(a, f, at, to);
            lemma_freed(b, at, i0);
        } else {
            assert(i1 < i0);
            lemma_split(m, at, i0, i1);
            blocks::lemma_sizes_rise(i1, i0);
            let rest = (arena::units_of(i0) - arena::units_of(i1)) as u32;
            let tail = (at + 12 * arena::units_of(i1)) as u32;
            lemma_placed_kept(m, tail, rest);
        }
    }
}

/// A block that is freed is the next one that is given out.
pub proof fn lemma_given_again(m: Model, node: u32, i: int)
    requires
        0 <= i < INDEXES,
        m.free_list.len() == INDEXES,
        0 < node,
        node + 4 <= m.base.len(),
        node + 4 <= 0xffff_ffff,
    ensures
        rules::alloc_units(rules::insert_node(m, node, i), i).1 == node,
        rules::alloc_units(rules::insert_node(m, node, i), i).0.free_list == m.free_list,
{
    reveal(rules::alloc_units);
    lemma_freed(m, node, i);
}

/// Where none is free, blocks are taken from the middle, one after another
/// from below, and contexts from above.
pub proof fn lemma_from_the_middle(m: Model, i: int)
    requires
        0 <= i < INDEXES,
        rules::first_free(m, i) == 0,
        m.lo_unit + 12 * arena::units_of(i) <= m.hi_unit,
    ensures
        rules::alloc_units(m, i).1 == m.lo_unit,
        rules::alloc_units(m, i).0 == (Model {
            lo_unit: (m.lo_unit + 12 * arena::units_of(i)) as u32,
            ..m
        }),
        rules::alloc_context(m).1 == m.hi_unit - 12,
        rules::alloc_context(m).0 == (Model { hi_unit: (m.hi_unit - 12) as u32, ..m }),
{
    reveal(rules::alloc_units);
    reveal(rules::alloc_context);
    assert(arena::units_of(i) >= 1);
    assert(arena::units_of(i).wrapping_mul(12) == 12 * arena::units_of(i));
}

proof fn lemma_next_size(m: Model, i: int, j: int)
    requires
        0 <= i <= j <= INDEXES,
        forall|k: int| i <= k < j ==> #[trigger] rules::first_free(m, k) == 0,
        j < INDEXES ==> rules::first_free(m, j) != 0,
    ensures
        rules::next_size(m, i) == j,
    decreases j - i,
{
    if i < j {
        assert(rules::first_free(m, i) == 0);
        lemma_next_size(m, i + 1, j);
    }
}

/// Where the middle is used up, a block is cut off the smallest larger one
/// that is free, and what is left of that one is free again.
pub proof fn lemma_from_larger(m: Model, i: int, j: int)
    requires
        0 <= i < j < INDEXES,
        forall|k: int| i <= k < j ==> #[trigger] rules::first_free(m, k) == 0,
        rules::first_free(m, j) != 0,
        rules::first_free(m, j) + 12 * arena::units_of(j) <= 0xffff_ffff,
        m.lo_unit <= m.hi_unit,
        m.hi_unit - m.lo_unit < 12 * arena::units_of(i),
        m.glue_count != 0,
    ensures
        rules::alloc_units(m, i).1 == rules::first_free(m, j),
        rules::alloc_units(m, i).0 == rules::place_units(
            rules::remove_node(m, j),
            (rules::first_free(m, j) + 12 * arena::units_of(i)) as u32,
            (arena::units_of(j) - arena::units_of(i)) as u32,
        ),
{
    reveal(rules::alloc_units);
    reveal(rules::alloc_units_rare);
    assert(arena::units_of(i) <= 128);
    assert(arena::units_of(i).wrapping_mul(12) == 12 * arena::units_of(i));
    assert(rules::first_free(m, i) == 0);
    lemma_next_size(m, i + 1, j);
    lemma_split(rules::remove_node(m, j), rules::first_free(m, j), j, i);
}

/// Where no block is free, one is taken from the end of the room for the
/// text, as long as some of that is left.
pub proof fn lemma_from_the_text(m: Model, i: int)
    requires
        0 <= i < INDEXES,
        forall|k: int| i <= k < INDEXES ==> #[trigger] rules::first_free(m, k) == 0,
        m.lo_unit <= m.hi_unit,
        m.hi_unit - m.lo_unit < 12 * arena::units_of(i),
        m.glue_count != 0,
        m.text <= m.units_start,
    ensures
        ({
            let wide = 12 * arena::units_of(i);
            let later = Model { glue_count: (m.glue_count - 1) as u32, ..m };
            rules::alloc_units(m, i) == if m.text + wide < m.units_start {
                (
                    Model { units_start: (m.units_start - wide) as u32, ..later },
                    (m.units_start - wide) as u32,
                )
            } else {
                (later, 0u32)
            }
        }),
{
    reveal(rules::alloc_units);
    reveal(rules::alloc_units_rare);
    assert(arena::units_of(i) <= 128);
    assert(arena::units_of(i).wrapping_mul(12) == 12 * arena::units_of(i));
    assert(rules::first_free(m, i) == 0);
    lemma_next_size(m, i + 1, INDEXES as int);
}

/// As many blocks of 128 units as `q`, one behind the other.
pub open spec fn in_row(m: Model, at: u32, q: nat) -> Model
    decreases q,
{
    if q == 0 {
        m
    } else {
        in_row(rules::insert_node(m, at, 37), (at + 1536) as u32, (q - 1) as nat)
    }
}

/// Many units are freed as blocks of 128 and what is left behind them.
pub proof fn lemma_large(m: Model, at: u32, q: nat, r: u32)
    requires
        1 <= r <= 128,
        at + 12 * (128 * q + r) <= 0xffff_ffff,
    ensures
        rules::place_large(m, at, (128 * q + r) as u32) == rules::place_units(
            in_row(m, at, q),
            (at + 1536 * q) as u32,
            r,
        ),
    decreases q,
{
    if q > 0 {
        lemma_large(rules::insert_node(m, at, 37), (at + 1536) as u32, (q - 1) as nat, r);
        assert(128 * q + r - 128 == 128 * (q - 1) + r);
        assert(at + 1536 + 1536 * (q - 1) == at + 1536 * q);
    }
}

/// A free block and one right behind it become one, which the list of free
/// blocks then leaves out.
pub proof fn lemma_joined(m: Model, n: u32, nu: u32, more: u32, fuel: nat)
    requires
        fuel >= 1,
        1 <= nu,
        1 <= more,
        nu + more < 0x10000,
        n + 12 * (nu + more) + 12 <= m.base.len() <= 0xffff_ffff,
        rules::node_stamp(m, (n + 12 * nu) as u32) == 0,
        rules::node_nu(m, (n + 12 * nu) as u32) == more,
    ensures
        ({
            let after = (n + 12 * nu) as u32;
            let prev = rules::node_prev(m, after);
            let next = rules::node_next(m, after);
            rules::join(m, n, nu, fuel) == rules::join(
                rules::set_node_nu(
                    rules::set_node_prev(rules::set_node_next(m, prev, next), next, prev),
                    n,
                    (nu + more) as u32,
                ),
                n,
                (nu + more) as u32,
                (fuel - 1) as nat,
            )
        }),
{
    assert(nu.wrapping_mul(12) == 12 * nu);
}

proof fn lemma_link_list_count(m: Model, nu: u32, next: u32, n: u32, fuel: nat)
    ensures
        rules::link_list(m, nu, next, n, fuel).0.glue_count == m.glue_count,
    decreases fuel,
{
    if next != 0 && fuel > 0 {
        let a = rules::set_node_prev(rules::set_node_next(m, next, n), n, next);
        let b = rules::set_node_nu(rules::set_node_stamp(a, next, 0), next, nu);
        lemma_link_list_count(b, nu, arena::get32(a.base, next), next, (fuel - 1) as nat);
    }
}

proof fn lemma_link_all_count(m: Model, i: int, n: u32)
    ensures
        rules::link_all(m, i, n).0.glue_count == m.glue_count,
    decreases INDEXES - i,
{
    if i < INDEXES {
        let a = Model { free_list: m.free_list.update(i, 0), ..m };
        let (b, k) = rules::link_list(a, arena::units_of(i), m.free_list[i], n, m.base.len());
        lemma_link_list_count(a, arena::units_of(i), m.free_list[i], n, m.base.len());
        lemma_link_all_count(b, i + 1, k);
    }
}

proof fn lemma_join_count(m: Model, n: u32, nu: u32, fuel: nat)
    ensures
        rules::join(m, n, nu, fuel).glue_count == m.glue_count,
    decreases fuel,
{
    if fuel > 0 {
        let after = n.wrapping_add(nu.wrapping_mul(12));
        let sum = nu.wrapping_add(rules::node_nu(m, after));
        let prev = rules::node_prev(m, after);
        let next = rules::node_next(m, after);
        let a = rules::set_node_prev(rules::set_node_next(m, prev, next), next, prev);
        lemma_join_count(rules::set_node_nu(a, n, sum), n, sum, (fuel - 1) as nat);
    }
}

proof fn lemma_join_all_count(m: Model, n: u32, head: u32, fuel: nat)
    ensures
        rules::join_all(m, n, head, fuel).glue_count == m.glue_count,
    decreases fuel,
{
    if n != head && fuel > 0 {
        let a = rules::join(m, n, rules::node_nu(m, n), m.base.len());
        lemma_join_count(m, n, rules::node_nu(m, n), m.base.len());
        lemma_join_all_count(a, rules::node_next(a, n), head, (fuel - 1) as nat);
    }
}

proof fn lemma_place_large_count(m: Model, at: u32, nu: u32)
    ensures
        rules::place_large(m, at, nu).glue_count == m.glue_count,
    decreases nu,
{
    reveal(rules::place_units);
    if nu > 128 {
        lemma_place_large_count(
            rules::insert_node(m, at, INDEXES - 1),
            at.wrapping_add(128u32.wrapping_mul(12)),
            (nu - 128) as u32,
        );
    }
}

proof fn lemma_place_all_count(m: Model, n: u32, head: u32, fuel: nat)
    ensures
        rules::place_all(m, n, head, fuel).glue_count == m.glue_count,
    decreases fuel,
{
    if n != head && fuel > 0 {
        lemma_place_large_count(m, n, rules::node_nu(m, n));
        lemma_place_all_count(
            rules::place_large(m, n, rules::node_nu(m, n)),
            rules::node_next(m, n),
            head,
            (fuel - 1) as nat,
        );
    }
}

/// Once blocks are joined, they are joined again after 255 times that none was
/// free.
pub proof fn lemma_glued(m: Model)
    ensures
        rules::glue_free_blocks(m).glue_count == 255,
{
    reveal(rules::glue_free_blocks);
    let head = m.align_offset.wrapping_add(m.size);
    let start = Model { glue_count: 255, ..m };
    let (a, n) = rules::link_all(start, 0, head);
    lemma_link_all_count(start, 0, head);
    let b = rules::set_node_prev(
        rules::set_node_next(rules::set_node_stamp(a, head, 1), head, n),
        n,
        head,
    );
    let c = if b.lo_unit != b.hi_unit {
        rules::set_node_stamp(b, b.lo_unit, 1)
    } else {
        b
    };
    let d = rules::join_all(c, n, head, c.base.len());
    lemma_join_all_count(c, n, head, c.base.len());
    lemma_place_all_count(d, rules::node_next(d, head), head, d.base.len());
}

} // verus!
