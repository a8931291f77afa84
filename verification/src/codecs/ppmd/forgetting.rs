//! How a var. I model makes room once memory is used up.
use crate::codecs::ppmd::arena;
use crate::codecs::ppmd::arena::INDEXES;
use crate::codecs::ppmd::blocks;
use crate::codecs::ppmd::rules;
use crate::codecs::ppmd::rules::Model;
use vstd::prelude::*;

verus! {

/// The units of the free blocks of the first `i` sizes.
pub open spec fn free_units_upto(m: Model, i: int) -> int
    decreases i,
{
    if i <= 0 {
        0
    } else {
        free_units_upto(m, i - 1) + m.stamps[i - 1] * arena::units_of(i - 1)
    }
}

proof fn lemma_free_total(m: Model, i: int)
    requires
        0 <= i <= INDEXES,
        free_units_upto(m, i) <= 0xffff_ffff,
    ensures
        rules::free_total(m, i) == free_units_upto(m, i),
        0 <= free_units_upto(m, i),
    decreases i,
{
    if i > 0 {
        let part = m.stamps[i - 1] * arena::units_of(i - 1);
        assert(part >= 0) by (nonlinear_arith)
            requires
                part == m.stamps[i - 1] * arena::units_of(i - 1),
        ;
        lemma_at_least(m, i - 1);
        lemma_free_total(m, i - 1);
    }
}

proof fn lemma_at_least(m: Model, i: int)
    ensures
        free_units_upto(m, i) >= 0,
    decreases i,
{
    if i > 0 {
        lemma_at_least(m, i - 1);
        assert(m.stamps[i - 1] * arena::units_of(i - 1) >= 0) by (nonlinear_arith);
    }
}

/// The memory in use is all of it but the gap in the middle, the room for the
/// text, and the free blocks.
pub proof fn lemma_used(m: Model)
    requires
        m.lo_unit <= m.hi_unit,
        m.text <= m.units_start,
        (m.hi_unit - m.lo_unit) + (m.units_start - m.text) + 12 * free_units_upto(
            m,
            INDEXES as int,
        ) <= m.size,
    ensures
        rules::used_memory(m) == m.size - (m.hi_unit - m.lo_unit) - (m.units_start - m.text) - 12
            * free_units_upto(m, INDEXES as int),
{
    lemma_at_least(m, INDEXES as int);
    lemma_free_total(m, INDEXES as int);
}

/// One unit that is freed: at the start of the units they start behind it,
/// elsewhere it is the next block of one unit.
pub proof fn lemma_unit_freed(m: Model, at: u32)
    requires
        m.free_list.len() == INDEXES,
        m.stamps.len() == INDEXES,
        0 < at,
        at + 12 <= m.base.len() <= 0xffff_ffff,
    ensures
        at == m.units_start ==> rules::special_free_unit(m, at) == (Model {
            units_start: (at + 12) as u32,
            ..m
        }),
        at != m.units_start ==> rules::first_free(rules::special_free_unit(m, at), 0) == at
            && rules::alloc_units(rules::special_free_unit(m, at), 0).1 == at
            && rules::alloc_units(rules::special_free_unit(m, at), 0).0.free_list == m.free_list,
{
    if at != m.units_start {
        blocks::lemma_freed(m, at, 0);
        blocks::lemma_given_again(m, at, 0);
    }
}

/// A context of one symbol that leads into the text is cut off. One that leads
/// to a context stays as long as that stays, or if it is short itself.
pub proof fn lemma_cut_alone(m: Model, ctx: u32, order: u32, depth: nat)
    requires
        rules::num_stats(m, ctx) == 0,
    ensures
        ({
            let s = rules::one_state(ctx);
            let next = rules::successor(m, s);
            let r = rules::cut_off(m, ctx, order, depth);
            let (a, cut) = rules::cut_off(
                m,
                next,
                order.wrapping_add(1),
                (depth - 1) as nat,
            );
            &&& next < m.units_start ==> r == (rules::special_free_unit(m, ctx), 0u32)
            &&& next >= m.units_start && depth == 0 && order <= 9 ==> r == (
                rules::set_successor(m, s, 0),
                ctx,
            )
            &&& next >= m.units_start && depth > 0 && cut != 0 ==> r == (
                rules::set_successor(a, s, cut),
                ctx,
            )
            &&& next >= m.units_start && depth > 0 && cut == 0 && order <= 9 ==> r == (
                rules::set_successor(a, s, 0),
                ctx,
            )
            &&& next >= m.units_start && depth > 0 && cut == 0 && order > 9 ==> r == (
                rules::special_free_unit(rules::set_successor(a, s, 0), ctx),
                0u32,
            )
        }),
{
}

/// A context that forgets some: its only symbol is half as frequent, rounded
/// up, or its sum grows by four, as long as that is not too much.
pub proof fn lemma_faded(m: Model, c: u32)
    requires
        c != m.min_context,
        c + 12 <= m.base.len() <= 0xffff_ffff,
    ensures
        rules::num_stats(m, c) == 0 ==> {
            let r = rules::fade(m, c, 1);
            let f = rules::freq(m, rules::one_state(c));
            &&& f <= 2 * rules::freq(r, rules::one_state(c)) <= f + 1
            &&& rules::sym(r, rules::one_state(c)) == rules::sym(m, rules::one_state(c))
        },
        rules::num_stats(m, c) != 0 && rules::summ_freq(m, c) + 4 <= 128 + 4 * rules::num_stats(
            m,
            c,
        ) ==> {
            let r = rules::fade(m, c, 1);
            &&& rules::summ_freq(r, c) == rules::summ_freq(m, c) + 4
            &&& rules::stats(r, c) == rules::stats(m, c)
            &&& rules::num_stats(r, c) == rules::num_stats(m, c)
        },
        rules::num_stats(m, c) != 0 && 0x1_0000 > rules::summ_freq(m, c) + 4 && rules::summ_freq(
            m,
            c,
        ) + 4 > 128 + 4 * rules::num_stats(m, c) ==> rules::fade(m, c, 1) == rules::refresh(
            rules::set_summ_freq(m, c, (rules::summ_freq(m, c) + 4) as u32),
            c,
            ((rules::num_stats(m, c) + 2) / 2) as u32,
            1,
        ),
{
    reveal_with_fuel(rules::fade, 2);
}

proof fn lemma_unlink(m: Model, i: int, n: u32, prev: Option<u32>, count: u32, fuel: nat)
    ensures
        rules::unlink(m, i, n, prev, count, fuel).units_start == m.units_start,
        rules::unlink(m, i, n, prev, count, fuel).stamps == m.stamps,
    decreases fuel,
{
    if count != 0 && fuel > 0 {
        let next = arena::get32(m.base, n.wrapping_add(4));
        if arena::get32(m.base, n) != 0 {
            lemma_unlink(m, i, next, Some(n.wrapping_add(4)), count, (fuel - 1) as nat);
        } else {
            let a = match prev {
                None => Model { free_list: m.free_list.update(i, next), ..m },
                Some(at) => rules::set_u32(m, at, next),
            };
            lemma_unlink(a, i, next, prev, (count - 1) as u32, (fuel - 1) as nat);
        }
    }
}

proof fn lemma_unlink_all(m: Model, i: int, count: Seq<u32>)
    requires
        0 <= i,
        m.stamps.len() == INDEXES,
        count.len() == INDEXES,
    ensures
        rules::unlink_all(m, i, count).units_start == m.units_start,
        rules::unlink_all(m, i, count).stamps == Seq::new(
            INDEXES as nat,
            |k: int|
                if k < i {
                    m.stamps[k]
                } else {
                    m.stamps[k].wrapping_sub(count[k])
                },
        ),
    decreases INDEXES - i,
{
    let want = Seq::new(
        INDEXES as nat,
        |k: int|
            if k < i {
                m.stamps[k]
            } else {
                m.stamps[k].wrapping_sub(count[k])
            },
    );
    if i >= INDEXES {
        assert(want =~= m.stamps);
    } else if count[i] == 0 {
        lemma_unlink_all(m, i + 1, count);
        assert(m.stamps[i].wrapping_sub(0) == m.stamps[i]);
        assert(rules::unlink_all(m, i, count).stamps =~= want);
    } else {
        let a = Model {
            stamps: m.stamps.update(i, m.stamps[i].wrapping_sub(count[i])),
            ..m
        };
        lemma_unlink(a, i, a.free_list[i], None, count[i], a.base.len());
        let b = rules::unlink(a, i, a.free_list[i], None, count[i], a.base.len());
        lemma_unlink_all(b, i + 1, count);
        assert(rules::unlink_all(m, i, count).stamps =~= want);
    }
}

/// A free block at the start of the units goes to the text: the units start
/// behind it, and there is one free block less of its size.
pub proof fn lemma_expanded(m: Model, nu: u32)
    requires
        m.lo_unit == m.hi_unit,
        m.stamps.len() == INDEXES,
        1 <= nu <= 128,
        m.base.len() >= 2,
        m.units_start + 12 * nu + 12 <= m.base.len() <= 0xffff_ffff,
        arena::get32(m.base, m.units_start) == rules::EMPTY_NODE,
        arena::get32(m.base, (m.units_start + 8) as u32) == nu,
        arena::get32(m.base, (m.units_start + 12 * nu) as u32) != rules::EMPTY_NODE,
    ensures
        ({
            let r = rules::expand_text_area(m);
            let i = arena::index_of(nu);
            &&& r.units_start == m.units_start + 12 * nu
            &&& r.stamps[i] == m.stamps[i].wrapping_sub(1)
            &&& forall|k: int|
                0 <= k < INDEXES && k != i ==> #[trigger] r.stamps[k] == m.stamps[k]
        }),
{
    reveal(rules::expand_text_area);
    blocks::lemma_size(nu);
    let i = arena::index_of(nu);
    let zeros = Seq::new(INDEXES as nat, |i: int| 0u32);
    let start = m.units_start;
    let end = (start + 12 * nu) as u32;
    assert(nu.wrapping_mul(12) == 12 * nu);
    let a = rules::set_u32(m, start, 0);
    assert(arena::get32(a.base, end) == arena::get32(m.base, end));
    let count = zeros.update(i, 1u32);
    assert(zeros[i].wrapping_add(1) == 1);
    assert(rules::open_units(a, end, count, (m.base.len() - 1) as nat) == (a, end, count));
    assert(rules::open_units(m, start, zeros, m.base.len()) == (a, end, count));
    lemma_unlink_all(Model { units_start: end, ..a }, 0, count);
    assert forall|k: int| 0 <= k < INDEXES && k != i implies #[trigger] rules::expand_text_area(
        m,
    ).stamps[k] == m.stamps[k] by {
        assert(count[k] == 0);
        assert(m.stamps[k].wrapping_sub(0) == m.stamps[k]);
    }
}

} // verus!
