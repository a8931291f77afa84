//! What a var. I model does, symbol by symbol.
//!
//! A context is twelve bytes: how many symbols it knows less one, flags, the
//! sum of their frequencies, where its states lie, and the context one symbol
//! shorter. In a context of one symbol the state lies in the context itself.
//! A state is six bytes: a symbol, its frequency, and its successor, which is
//! a context or a place in the text. A free block begins with a mark, and
//! holds the next of its list and how many units it has.
use crate::codecs::ppmd::arena;
use crate::codecs::ppmd::arena::{See, INDEXES, INIT_BIN_ESC, STATE, UNIT_SIZE};
use crate::codecs::ppmd::range;
use crate::codecs::ppmd::range::{Coder, BIN_SCALE};
use vstd::prelude::*;

verus! {

/// The highest frequency of a symbol.
pub const MAX_FREQ: u32 = 124;

/// The longest context.
pub const MAX_ORDER: u32 = 16;

/// The mark of a free block.
pub const EMPTY_NODE: u32 = 0xFFFF_FFFF;

/// Start anew once memory is used up.
pub const RESTORE_RESTART: u32 = 0;

/// Cut the contexts back once memory is used up.
pub const RESTORE_CUT_OFF: u32 = 1;

/// The flag of a context that was rescaled.
pub const FLAG_RESCALED: u8 = 4;

/// The flag of a context whose symbol before was a high one.
pub const FLAG_PREV_HIGH: u8 = 16;

/// What is decoded at the end.
pub const SYM_END: i32 = -1;

/// What is decoded where nothing can be.
pub const SYM_ERROR: i32 = -2;

/// A model and its range decoder.
pub struct Model {
    pub rc: Coder,
    pub base: Seq<u8>,
    pub size: u32,
    pub align_offset: u32,
    pub min_context: u32,
    pub max_context: u32,
    pub found_state: u32,
    pub order_fall: u32,
    pub init_esc: u32,
    pub prev_success: u32,
    pub max_order: u32,
    pub restore_method: u32,
    pub run_length: i32,
    pub init_rl: i32,
    pub glue_count: u32,
    pub lo_unit: u32,
    pub hi_unit: u32,
    pub text: u32,
    pub units_start: u32,
    pub free_list: Seq<u32>,
    pub stamps: Seq<u32>,
    pub see: Seq<See>,
    pub bin_summ: Seq<u16>,
}

pub open spec fn flag(b: bool) -> u32 {
    if b {
        1
    } else {
        0
    }
}

pub open spec fn num_stats(m: Model, c: u32) -> u32 {
    arena::get8(m.base, c) as u32
}

pub open spec fn flags(m: Model, c: u32) -> u8 {
    arena::get8(m.base, c.wrapping_add(1))
}

pub open spec fn summ_freq(m: Model, c: u32) -> u32 {
    arena::get16(m.base, c.wrapping_add(2)) as u32
}

pub open spec fn stats(m: Model, c: u32) -> u32 {
    arena::get32(m.base, c.wrapping_add(4))
}

pub open spec fn suffix(m: Model, c: u32) -> u32 {
    arena::get32(m.base, c.wrapping_add(8))
}

pub open spec fn one_state(c: u32) -> u32 {
    c.wrapping_add(2)
}

pub open spec fn sym(m: Model, s: u32) -> u8 {
    arena::get8(m.base, s)
}

pub open spec fn freq(m: Model, s: u32) -> u32 {
    arena::get8(m.base, s.wrapping_add(1)) as u32
}

pub open spec fn successor(m: Model, s: u32) -> u32 {
    arena::get32(m.base, s.wrapping_add(2))
}

pub open spec fn set_u8(m: Model, at: u32, v: u8) -> Model {
    Model { base: arena::put8(m.base, at, v), ..m }
}

pub open spec fn set_u16(m: Model, at: u32, v: u32) -> Model {
    Model { base: arena::put16(m.base, at, v as u16), ..m }
}

pub open spec fn set_u32(m: Model, at: u32, v: u32) -> Model {
    Model { base: arena::put32(m.base, at, v), ..m }
}

pub open spec fn set_num_stats(m: Model, c: u32, v: u32) -> Model {
    set_u8(m, c, v as u8)
}

pub open spec fn set_flags(m: Model, c: u32, v: u8) -> Model {
    set_u8(m, c.wrapping_add(1), v)
}

pub open spec fn set_summ_freq(m: Model, c: u32, v: u32) -> Model {
    set_u16(m, c.wrapping_add(2), v)
}

pub open spec fn set_stats(m: Model, c: u32, v: u32) -> Model {
    set_u32(m, c.wrapping_add(4), v)
}

pub open spec fn set_suffix(m: Model, c: u32, v: u32) -> Model {
    set_u32(m, c.wrapping_add(8), v)
}

pub open spec fn set_freq(m: Model, s: u32, v: u32) -> Model {
    set_u8(m, s.wrapping_add(1), v as u8)
}

pub open spec fn set_successor(m: Model, s: u32, v: u32) -> Model {
    set_u32(m, s.wrapping_add(2), v)
}

pub open spec fn copy_state(m: Model, dest: u32, src: u32) -> Model {
    Model { base: arena::copied(m.base, dest, src, STATE), ..m }
}

pub open spec fn copy_units(m: Model, dest: u32, src: u32, nu: u32) -> Model {
    Model { base: arena::copied(m.base, dest, src, nu.wrapping_mul(UNIT_SIZE)), ..m }
}

pub open spec fn swap_states(m: Model, x: u32, y: u32) -> Model {
    Model { base: arena::swapped(m.base, x, y), ..m }
}

/// `n` states on.
pub open spec fn nth(s: u32, n: u32) -> u32 {
    s.wrapping_add(n.wrapping_mul(STATE))
}

/// Put a block into the list of its size.
pub open spec fn insert_node(m: Model, node: u32, index: int) -> Model {
    if 0 <= index < INDEXES {
        let a = set_u32(
            set_u32(set_u32(m, node, EMPTY_NODE), node.wrapping_add(4), m.free_list[index]),
            node.wrapping_add(8),
            arena::units_of(index),
        );
        Model {
            free_list: a.free_list.update(index, node),
            stamps: a.stamps.update(index, a.stamps[index].wrapping_add(1)),
            ..a
        }
    } else {
        m
    }
}

/// The first block of a size.
pub open spec fn first_free(m: Model, index: int) -> u32 {
    if 0 <= index < INDEXES {
        m.free_list[index]
    } else {
        0
    }
}

/// Take the first block of a size out of its list.
pub open spec fn remove_node(m: Model, index: int) -> Model {
    if 0 <= index < INDEXES {
        Model {
            free_list: m.free_list.update(
                index,
                arena::get32(m.base, m.free_list[index].wrapping_add(4)),
            ),
            stamps: m.stamps.update(index, m.stamps[index].wrapping_sub(1)),
            ..m
        }
    } else {
        m
    }
}

/// Put up to 128 units into the lists, as one block or as two.
#[verifier::opaque]
pub open spec fn place_units(m: Model, at: u32, nu: u32) -> Model {
    let i = arena::index_of(nu);
    if arena::units_of(i) != nu {
        let j = if i > 0 {
            i - 1
        } else {
            0
        };
        let k = arena::units_of(j);
        insert_node(
            insert_node(
                m,
                at.wrapping_add(k.wrapping_mul(UNIT_SIZE)),
                nu.wrapping_sub(k).wrapping_sub(1) as int,
            ),
            at,
            j,
        )
    } else {
        insert_node(m, at, i)
    }
}

/// Free what a smaller block leaves of a larger one.
pub open spec fn split_block(m: Model, ptr: u32, old_index: int, new_index: int) -> Model {
    let used = arena::units_of(new_index);
    place_units(
        m,
        ptr.wrapping_add(used.wrapping_mul(UNIT_SIZE)),
        arena::units_of(old_index).wrapping_sub(used),
    )
}

/// Join a free block of `nu` units with those right behind it.
pub open spec fn absorb(m: Model, node: u32, nu: u32, fuel: nat) -> Model
    decreases fuel,
{
    let after = node.wrapping_add(nu.wrapping_mul(UNIT_SIZE));
    if fuel == 0 || arena::get32(m.base, after) != EMPTY_NODE {
        m
    } else {
        let sum = nu.wrapping_add(arena::get32(m.base, after.wrapping_add(8)));
        let a = set_u32(set_u32(m, after.wrapping_add(8), 0), node.wrapping_add(8), sum);
        absorb(a, node, sum, (fuel - 1) as nat)
    }
}

/// The free blocks put behind each other so far: the first of them, and where
/// the next is to be noted.
pub struct Chain {
    pub head: u32,
    pub slot: Option<u32>,
}

/// Note the next block of a chain.
pub open spec fn note(m: Model, k: Chain, node: u32) -> Model {
    match k.slot {
        None => m,
        Some(at) => set_u32(m, at, node),
    }
}

/// Put the blocks of one list behind the chain.
pub open spec fn chain_list(m: Model, next: u32, k: Chain, fuel: nat) -> (Model, Chain)
    decreases fuel,
{
    if next == 0 || fuel == 0 {
        (m, k)
    } else {
        let nu = arena::get32(m.base, next.wrapping_add(8));
        let a = note(m, k, next);
        let head = if k.slot is None {
            next
        } else {
            k.head
        };
        let after = arena::get32(a.base, next.wrapping_add(4));
        if nu != 0 {
            chain_list(
                absorb(a, next, nu, a.base.len()),
                after,
                Chain { head, slot: Some(next.wrapping_add(4)) },
                (fuel - 1) as nat,
            )
        } else {
            chain_list(a, after, Chain { head, slot: k.slot }, (fuel - 1) as nat)
        }
    }
}

/// Put the blocks of all lists from one size on behind the chain, and empty
/// the lists.
pub open spec fn chain_all(m: Model, i: int, k: Chain) -> (Model, Chain)
    decreases INDEXES - i,
{
    if i >= INDEXES {
        (m, k)
    } else {
        let a = Model { free_list: m.free_list.update(i, 0), ..m };
        let (b, l) = chain_list(a, m.free_list[i], k, m.base.len());
        chain_all(b, i + 1, l)
    }
}

/// Put a free block of any number of units into the lists.
pub open spec fn place_large(m: Model, at: u32, nu: u32) -> Model
    decreases nu,
{
    if nu > 128 {
        place_large(
            insert_node(m, at, INDEXES - 1),
            at.wrapping_add(128u32.wrapping_mul(UNIT_SIZE)),
            (nu - 128) as u32,
        )
    } else {
        place_units(m, at, nu)
    }
}

/// Put every block of a chain into the lists.
pub open spec fn place_all(m: Model, n: u32, fuel: nat) -> Model
    decreases fuel,
{
    if n == 0 || fuel == 0 {
        m
    } else {
        let nu = arena::get32(m.base, n.wrapping_add(8));
        let next = arena::get32(m.base, n.wrapping_add(4));
        place_all(
            if nu == 0 {
                m
            } else {
                place_large(m, n, nu)
            },
            next,
            (fuel - 1) as nat,
        )
    }
}

/// Join the free blocks that lie side by side.
#[verifier::opaque]
pub open spec fn glue_free_blocks(m: Model) -> Model {
    let a = Model {
        glue_count: 0x2000,
        stamps: Seq::new(INDEXES as nat, |i: int| 0u32),
        ..m
    };
    let b = if a.lo_unit != a.hi_unit {
        set_u32(a, a.lo_unit, 0)
    } else {
        a
    };
    let (c, k) = chain_all(b, 0, Chain { head: 0, slot: None });
    let d = note(c, k, 0);
    let head = if k.slot is None {
        0
    } else {
        k.head
    };
    place_all(d, head, d.base.len())
}

/// The next size that has a free block.
pub open spec fn next_size(m: Model, i: int) -> int
    decreases INDEXES - i,
{
    if i >= INDEXES || first_free(m, i) != 0 {
        i
    } else {
        next_size(m, i + 1)
    }
}

/// A block of a size, by all means: what comes back is zero if there is none.
#[verifier::opaque]
pub open spec fn alloc_units_rare(m: Model, index: int) -> (Model, u32) {
    let a = if m.glue_count == 0 {
        glue_free_blocks(m)
    } else {
        m
    };
    if m.glue_count == 0 && first_free(a, index) != 0 {
        (remove_node(a, index), first_free(a, index))
    } else {
        let i = next_size(a, index + 1);
        if i >= INDEXES {
            let bytes = arena::units_of(index).wrapping_mul(UNIT_SIZE);
            let b = Model { glue_count: a.glue_count.wrapping_sub(1), ..a };
            if b.units_start.wrapping_sub(b.text) > bytes {
                let start = b.units_start.wrapping_sub(bytes);
                (Model { units_start: start, ..b }, start)
            } else {
                (b, 0)
            }
        } else {
            let block = first_free(a, i);
            (split_block(remove_node(a, i), block, i, index), block)
        }
    }
}

/// A block of a size.
#[verifier::opaque]
pub open spec fn alloc_units(m: Model, index: int) -> (Model, u32) {
    let bytes = arena::units_of(index).wrapping_mul(UNIT_SIZE);
    if first_free(m, index) != 0 {
        (remove_node(m, index), first_free(m, index))
    } else if m.hi_unit.wrapping_sub(m.lo_unit) >= bytes {
        (Model { lo_unit: m.lo_unit.wrapping_add(bytes), ..m }, m.lo_unit)
    } else {
        alloc_units_rare(m, index)
    }
}

/// A block for one context.
#[verifier::opaque]
pub open spec fn alloc_context(m: Model) -> (Model, u32) {
    if m.hi_unit != m.lo_unit {
        let at = m.hi_unit.wrapping_sub(UNIT_SIZE);
        (Model { hi_unit: at, ..m }, at)
    } else if first_free(m, 0) != 0 {
        (remove_node(m, 0), first_free(m, 0))
    } else {
        alloc_units_rare(m, 0)
    }
}

/// Keep the first `new_nu` of a block's units.
#[verifier::opaque]
pub open spec fn shrink_units(m: Model, at: u32, old_nu: u32, new_nu: u32) -> (Model, u32) {
    let i0 = arena::index_of(old_nu);
    let i1 = arena::index_of(new_nu);
    if i0 == i1 {
        (m, at)
    } else if first_free(m, i1) != 0 {
        let ptr = first_free(m, i1);
        (insert_node(copy_units(remove_node(m, i1), ptr, at, new_nu), at, i0), ptr)
    } else {
        (split_block(m, at, i0, i1), at)
    }
}

/// Free one unit.
pub open spec fn special_free_unit(m: Model, ptr: u32) -> Model {
    if ptr != m.units_start {
        insert_node(m, ptr, 0)
    } else {
        Model { units_start: m.units_start.wrapping_add(UNIT_SIZE), ..m }
    }
}

/// Free a block.
pub open spec fn free_units(m: Model, ptr: u32, nu: u32) -> Model {
    insert_node(m, ptr, arena::index_of(nu))
}

/// Unmark the free blocks at the start of the units, and count them by size.
pub open spec fn open_units(m: Model, node: u32, count: Seq<u32>, fuel: nat) -> (
    Model,
    u32,
    Seq<u32>,
)
    decreases fuel,
{
    if fuel == 0 || arena::get32(m.base, node) != EMPTY_NODE {
        (m, node, count)
    } else {
        let nu = arena::get32(m.base, node.wrapping_add(8));
        let i = arena::index_of(nu);
        open_units(
            set_u32(m, node, 0),
            node.wrapping_add(nu.wrapping_mul(UNIT_SIZE)),
            count.update(i, count[i].wrapping_add(1)),
            (fuel - 1) as nat,
        )
    }
}

/// Take `count` unmarked blocks out of a list, from `n` on.
pub open spec fn unlink(m: Model, i: int, n: u32, prev: Option<u32>, count: u32, fuel: nat) -> Model
    decreases fuel,
{
    if count == 0 || fuel == 0 {
        m
    } else {
        let next = arena::get32(m.base, n.wrapping_add(4));
        if arena::get32(m.base, n) != 0 {
            unlink(m, i, next, Some(n.wrapping_add(4)), count, (fuel - 1) as nat)
        } else {
            let a = match prev {
                None => Model { free_list: m.free_list.update(i, next), ..m },
                Some(at) => set_u32(m, at, next),
            };
            unlink(a, i, next, prev, (count - 1) as u32, (fuel - 1) as nat)
        }
    }
}

/// Take the unmarked blocks out of all lists from one size on.
pub open spec fn unlink_all(m: Model, i: int, count: Seq<u32>) -> Model
    decreases INDEXES - i,
{
    if i >= INDEXES {
        m
    } else if count[i] == 0 {
        unlink_all(m, i + 1, count)
    } else {
        let a = Model {
            stamps: m.stamps.update(i, m.stamps[i].wrapping_sub(count[i])),
            ..m
        };
        unlink_all(
            unlink(a, i, a.free_list[i], None, count[i], a.base.len()),
            i + 1,
            count,
        )
    }
}

/// Give the free blocks at the start of the units to the text.
#[verifier::opaque]
pub open spec fn expand_text_area(m: Model) -> Model {
    let a = if m.lo_unit != m.hi_unit {
        set_u32(m, m.lo_unit, 0)
    } else {
        m
    };
    let (b, node, count) = open_units(
        a,
        a.units_start,
        Seq::new(INDEXES as nat, |i: int| 0u32),
        a.base.len(),
    );
    unlink_all(Model { units_start: node, ..b }, 0, count)
}

/// How many units the lists hold, from one size on.
pub open spec fn free_total(m: Model, i: int) -> u32
    decreases i,
{
    if i <= 0 {
        0
    } else {
        free_total(m, i - 1).wrapping_add(m.stamps[i - 1].wrapping_mul(arena::units_of(i - 1)))
    }
}

/// How much memory is in use.
pub open spec fn used_memory(m: Model) -> u32 {
    m.size.wrapping_sub(m.hi_unit.wrapping_sub(m.lo_unit)).wrapping_sub(
        m.units_start.wrapping_sub(m.text),
    ).wrapping_sub(free_total(m, INDEXES as int).wrapping_mul(UNIT_SIZE))
}

/// The class of a number of symbols: `i` below five, then each class one
/// longer than the one before. What comes back with it is how many of the
/// class are left.
pub open spec fn class_at(i: int) -> (int, int)
    decreases i,
{
    if i <= 5 {
        (5, 1)
    } else {
        let (m, k) = class_at(i - 1);
        if k <= 1 {
            (m + 1, m - 3)
        } else {
            (m, k - 1)
        }
    }
}

pub open spec fn ns2indx(i: int) -> int {
    if i < 5 {
        i
    } else {
        class_at(i).0
    }
}

/// Where a class ends, looked for from `i` on, `d` ahead.
pub open spec fn class_end(i: int, d: int, class: int) -> int
    decreases 260 - i - d,
{
    if i + d >= 260 || ns2indx(i + d) != class {
        i
    } else {
        class_end(i + 1, d, class)
    }
}

/// Where the classes up to one end, `d` ahead.
pub open spec fn classes_end(m: int, d: int) -> int
    decreases m + 1,
{
    if m < 0 {
        0
    } else {
        class_end(classes_end(m - 1, d), d, m + d)
    }
}

/// The states of the shortest context, from the `i`th on: each symbol once.
pub open spec fn fresh_states(m: Model, s: u32, i: u32) -> Model
    decreases 256 - i,
{
    if i >= 256 {
        m
    } else {
        let at = nth(s, i);
        fresh_states(
            set_successor(set_freq(set_u8(m, at, i as u8), at, 1), at, 0),
            s,
            (i + 1) as u32,
        )
    }
}

/// The first estimates.
pub open spec fn fresh_bins() -> Seq<u16> {
    Seq::new(
        25 * 64,
        |j: int|
            (BIN_SCALE - INIT_BIN_ESC[j % 8] as int / (classes_end(j / 64, 0) + 1)) as u16,
    )
}

/// The first escape estimates.
pub open spec fn fresh_see() -> Seq<See> {
    Seq::new(
        24 * 32,
        |j: int| See { summ: ((2 * classes_end(j / 32, 3) + 5) * 8) as u16, shift: 3, count: 7 },
    )
}

/// Forget everything.
#[verifier::opaque]
pub open spec fn restart(m: Model) -> Model {
    let top = m.align_offset.wrapping_add(m.size);
    let start = top.wrapping_sub(
        (m.size / 8 / UNIT_SIZE).wrapping_mul(7).wrapping_mul(UNIT_SIZE),
    );
    let mc = top.wrapping_sub(UNIT_SIZE);
    let rl = if m.max_order < 12 {
        (-1 - m.max_order) as i32
    } else {
        -13i32
    };
    let a = Model {
        free_list: Seq::new(INDEXES as nat, |i: int| 0u32),
        stamps: Seq::new(INDEXES as nat, |i: int| 0u32),
        text: m.align_offset,
        hi_unit: mc,
        units_start: start,
        lo_unit: start.wrapping_add(128u32.wrapping_mul(UNIT_SIZE)),
        glue_count: 0,
        order_fall: m.max_order,
        init_rl: rl,
        run_length: rl,
        prev_success: 0,
        max_context: mc,
        min_context: mc,
        found_state: start,
        bin_summ: fresh_bins(),
        see: fresh_see(),
        ..m
    };
    let b = set_summ_freq(set_num_stats(set_flags(a, mc, 0), mc, 255), mc, 257);
    let b = set_suffix(set_stats(b, mc, start), mc, 0);
    fresh_states(b, start, 0)
}

/// The state of a symbol among `n` states.
pub open spec fn find(m: Model, s: u32, symbol: u8, n: u32) -> Option<u32>
    decreases n,
{
    if n == 0 {
        None
    } else if sym(m, s) == symbol {
        Some(s)
    } else {
        find(m, s.wrapping_add(STATE), symbol, (n - 1) as u32)
    }
}

/// Whether a symbol is a high one, as a flag.
pub open spec fn high3(symbol: u8) -> u8 {
    if symbol >= 0x40 {
        8
    } else {
        0
    }
}

/// Whether a symbol is a high one, as the flag of the context after it.
pub open spec fn high4(symbol: u8) -> u8 {
    if symbol >= 0x40 {
        16
    } else {
        0
    }
}

/// A frequency, halved or not.
pub open spec fn scaled(f: u32, scale: u32) -> u32 {
    if scale == 0 {
        f
    } else {
        f.wrapping_add(1) / 2
    }
}

/// Scale `n` states after `s`: the model, the sum, what is left for escapes,
/// and whether a symbol is a high one.
pub open spec fn scale_states(
    m: Model,
    s: u32,
    n: u32,
    scale: u32,
    sum: u32,
    esc: u32,
    high: bool,
) -> (Model, u32, u32, bool)
    decreases n,
{
    if n == 0 {
        (m, sum, esc, high)
    } else {
        let t = s.wrapping_add(STATE);
        let f = scaled(freq(m, t), scale);
        let a = set_freq(m, t, f);
        scale_states(
            a,
            t,
            (n - 1) as u32,
            scale,
            sum.wrapping_add(f),
            esc.wrapping_sub(freq(m, t)),
            high || sym(a, t) >= 0x40,
        )
    }
}

/// Give the states of a context as much room as they need, and count anew.
#[verifier::opaque]
pub open spec fn refresh(m: Model, ctx: u32, old_nu: u32, scale: u32) -> Model {
    let n = num_stats(m, ctx);
    let (a, s0) = shrink_units(m, stats(m, ctx), old_nu, ((n + 2) / 2) as u32);
    let b = set_stats(a, ctx, s0);
    let by: u32 = if scale != 0 || summ_freq(b, ctx) >= 0x8000 {
        1
    } else {
        0
    };
    let f = scaled(freq(b, s0), by);
    let c = set_freq(b, s0, f);
    let (d, sum, esc, high) = scale_states(
        c,
        s0,
        n,
        by,
        f,
        summ_freq(b, ctx).wrapping_sub(freq(b, s0)),
        sym(b, s0) >= 0x40,
    );
    let e = set_summ_freq(d, ctx, sum.wrapping_add(scaled(esc, by)));
    let kept = flags(e, ctx) & (if by == 0 {
        0x10u8
    } else {
        0x14u8
    });
    set_flags(
        e,
        ctx,
        kept.wrapping_add(
            if high {
                8
            } else {
                0
            },
        ),
    )
}

/// Put the only state of a context into the context itself.
pub open spec fn fold_state(m: Model, c: u32, s: u32) -> Model {
    let symbol = sym(m, s);
    let a = set_flags(m, c, (flags(m, c) & FLAG_PREV_HIGH).wrapping_add(high3(symbol)));
    let f = ((freq(a, s) + 11) / 8) as u32;
    set_u32(
        set_u8(set_u8(a, c.wrapping_add(2), symbol), c.wrapping_add(3), f as u8),
        c.wrapping_add(4),
        arena::get32(
            set_u8(set_u8(a, c.wrapping_add(2), symbol), c.wrapping_add(3), f as u8).base,
            s.wrapping_add(2),
        ),
    )
}

/// Cut a context back, `depth` symbols down at most. What comes back is the
/// context, or zero where nothing is left of it.
pub open spec fn cut_off(m: Model, ctx: u32, order: u32, depth: nat) -> (Model, u32)
    decreases depth, 2int, 0int,
{
    let ns = num_stats(m, ctx);
    if ns == 0 {
        let s = one_state(ctx);
        let next = successor(m, s);
        if next >= m.units_start {
            let (a, cut) = if depth > 0 {
                cut_off(m, next, order.wrapping_add(1), (depth - 1) as nat)
            } else {
                (m, 0)
            };
            let b = set_successor(a, s, cut);
            if cut != 0 || order <= 9 {
                (b, ctx)
            } else {
                (special_free_unit(b, ctx), 0)
            }
        } else {
            (special_free_unit(m, ctx), 0)
        }
    } else {
        let nu = ((ns + 2) / 2) as u32;
        let a = move_states(m, ctx, nu);
        let first = stats(a, ctx);
        let (b, left) = cut_states(a, first, nth(first, ns), ns as int, order, depth, ns + 1);
        cut_settle(b, ctx, first, nu, left, order)
    }
}

/// Cut back what `n` states lead to, from `s` down.
pub open spec fn cut_states(
    m: Model,
    first: u32,
    s: u32,
    ns: int,
    order: u32,
    depth: nat,
    n: int,
) -> (Model, int)
    decreases depth, 1int, n,
{
    if n <= 0 {
        (m, ns)
    } else {
        let next = successor(m, s);
        let (a, k) = if next < m.units_start {
            let last = nth(first, ns as u32);
            if order != 0 {
                if s != last {
                    (copy_state(m, s, last), ns - 1)
                } else {
                    (m, ns - 1)
                }
            } else {
                (set_successor(swap_states(m, s, last), last, 0), ns - 1)
            }
        } else if depth > 0 {
            let (x, cut) = cut_off(m, next, order.wrapping_add(1), (depth - 1) as nat);
            (set_successor(x, s, cut), ns)
        } else {
            (set_successor(m, s, 0), ns)
        };
        cut_states(a, first, s.wrapping_sub(STATE), k, order, depth, n - 1)
    }
}

/// Move the states of a context up to a free block, where one lies higher.
#[verifier::opaque]
pub open spec fn move_states(m: Model, ctx: u32, nu: u32) -> Model {
    let first = stats(m, ctx);
    let i = arena::index_of(nu);
    if first.wrapping_sub(m.units_start) <= 0x4000 && first <= first_free(m, i) {
        let ptr = first_free(m, i);
        let a = copy_units(set_stats(remove_node(m, i), ctx, ptr), ptr, first, nu);
        if first != a.units_start {
            insert_node(a, first, i)
        } else {
            Model {
                units_start: a.units_start.wrapping_add(
                    arena::units_of(i).wrapping_mul(UNIT_SIZE),
                ),
                ..a
            }
        }
    } else {
        m
    }
}

/// Give a context of which `ns` symbols and one are left its new shape.
#[verifier::opaque]
pub open spec fn cut_settle(m: Model, ctx: u32, first: u32, nu: u32, ns: int, order: u32) -> (
    Model,
    u32,
) {
    if ns == num_stats(m, ctx) || order == 0 {
        (m, ctx)
    } else if ns < 0 {
        (special_free_unit(free_units(m, first, nu), ctx), 0)
    } else {
        let a = set_num_stats(m, ctx, ns as u32);
        if ns == 0 {
            (free_units(fold_state(a, ctx, first), first, nu), ctx)
        } else {
            (refresh(a, ctx, nu, flag(summ_freq(a, ctx) > 16 * ns)), ctx)
        }
    }
}

/// Take the newest symbol out of the contexts from `c` on.
pub open spec fn retract(m: Model, c: u32, end: u32, fuel: nat) -> (Model, u32)
    decreases fuel,
{
    if c == end || fuel == 0 {
        (m, c)
    } else {
        let ns = num_stats(m, c).wrapping_sub(1);
        let a = set_num_stats(m, c, ns);
        let b = if ns == 0 {
            let s = stats(a, c);
            special_free_unit(fold_state(a, c, s), s)
        } else {
            refresh(a, c, ((num_stats(a, c) + 3) / 2) as u32, 0)
        };
        retract(b, suffix(b, c), end, (fuel - 1) as nat)
    }
}

/// Let the contexts from `c` on forget some.
pub open spec fn fade(m: Model, c: u32, fuel: nat) -> Model
    decreases fuel,
{
    if c == m.min_context || fuel == 0 {
        m
    } else {
        let a = if num_stats(m, c) == 0 {
            let at = c.wrapping_add(3);
            set_u8(m, at, ((arena::get8(m.base, at) + 1) / 2) as u8)
        } else {
            let sum = (summ_freq(m, c) + 4) as u32;
            let b = set_summ_freq(m, c, sum);
            if sum > 128 + 4 * num_stats(b, c) {
                refresh(b, c, ((num_stats(b, c) + 2) / 2) as u32, 1)
            } else {
                b
            }
        };
        fade(a, suffix(a, c), (fuel - 1) as nat)
    }
}

/// The shortest context from `c` on.
pub open spec fn root(m: Model, c: u32, fuel: nat) -> u32
    decreases fuel,
{
    if suffix(m, c) == 0 || fuel == 0 {
        c
    } else {
        root(m, suffix(m, c), (fuel - 1) as nat)
    }
}

/// Cut the contexts back until enough memory is free.
pub open spec fn cut_back(m: Model, fuel: nat) -> Model
    decreases fuel,
{
    let (a, _cut) = cut_off(m, m.max_context, 0, m.max_order as nat);
    let b = expand_text_area(a);
    if used_memory(b) <= (3 * (b.size / 4)) as u32 || fuel == 0 {
        b
    } else {
        cut_back(b, (fuel - 1) as nat)
    }
}

/// Make room once memory is used up.
#[verifier::opaque]
pub open spec fn restore_model(m: Model, ctx_error: u32) -> Model {
    let a = Model { text: m.align_offset, ..m };
    let (b, c) = retract(a, a.max_context, ctx_error, a.base.len());
    let d = fade(b, c, b.base.len());
    if d.restore_method == RESTORE_RESTART || used_memory(d) < d.size / 2 {
        let e = restart(d);
        Model { min_context: e.max_context, ..e }
    } else {
        let e = Model { max_context: root(d, d.max_context, d.base.len()), ..d };
        let f = cut_back(e, e.base.len());
        Model { glue_count: 0, order_fall: f.max_order, min_context: f.max_context, ..f }
    }
}

/// What following shorter contexts comes to.
pub enum Climb {
    /// There is none to be followed.
    Fail,
    /// The successor is there already.
    Found(u32),
    /// The states whose successors are to be made, down from a context.
    Make(u32, Seq<u32>),
}

/// The state of the symbol found in a shorter context, counted there by
/// `step`.
#[verifier::opaque]
pub open spec fn count_in(m: Model, c: u32, step: u32) -> Option<(Model, u32)> {
    if num_stats(m, c) != 0 {
        match find(m, stats(m, c), sym(m, m.found_state), (num_stats(m, c) + 1) as u32) {
            None => None,
            Some(t) => if freq(m, t) < MAX_FREQ - 9 {
                let a = set_freq(m, t, freq(m, t).wrapping_add(step));
                Some((set_summ_freq(a, c, summ_freq(a, c).wrapping_add(step)), t))
            } else {
                Some((m, t))
            },
        }
    } else {
        let t = one_state(c);
        let bump = if step == 1 {
            flag(num_stats(m, suffix(m, c)) == 0 && freq(m, t) < 24)
        } else {
            flag(freq(m, t) < 32)
        };
        Some((set_freq(m, t, (freq(m, t) + bump) as u32), t))
    }
}

/// Follow shorter contexts while their successor is the same, the first by
/// the state `s1` where that is known.
pub open spec fn climb(m: Model, c: u32, s1: u32, ps: Seq<u32>, up: u32, fuel: nat) -> (
    Model,
    Climb,
)
    decreases fuel,
{
    if suffix(m, c) == 0 {
        (m, Climb::Make(c, ps))
    } else if fuel == 0 {
        (m, Climb::Fail)
    } else {
        let d = suffix(m, c);
        let at = if s1 != 0 {
            Some((m, s1))
        } else {
            count_in(m, d, 1)
        };
        match at {
            None => (m, Climb::Fail),
            Some((a, s)) => if successor(a, s) != up {
                if ps.len() == 0 {
                    (a, Climb::Found(successor(a, s)))
                } else {
                    (a, Climb::Make(successor(a, s), ps))
                }
            } else if ps.len() + 1 >= MAX_ORDER + 1 {
                (a, Climb::Fail)
            } else {
                climb(a, d, 0, ps.push(s), up, (fuel - 1) as nat)
            },
        }
    }
}

/// The frequency that the symbol of a new context starts with.
#[verifier::opaque]
pub open spec fn inherited(m: Model, c: u32, symbol: u8) -> Option<u32> {
    if num_stats(m, c) == 0 {
        Some(arena::get8(m.base, c.wrapping_add(3)) as u32)
    } else {
        match find(m, stats(m, c), symbol, (num_stats(m, c) + 1) as u32) {
            None => None,
            Some(s) => {
                let cf = freq(m, s).wrapping_sub(1);
                let s0 = summ_freq(m, c).wrapping_sub(num_stats(m, c)).wrapping_sub(cf);
                if 2 * cf <= s0 {
                    Some((1 + flag(5 * cf > s0)) as u32)
                } else if s0 == 0 {
                    None
                } else {
                    Some(
                        (cf.wrapping_add(s0.wrapping_mul(2)).wrapping_sub(3) / s0).wrapping_add(1),
                    )
                }
            },
        }
    }
}

/// Make a context of one symbol for each state, the last first.
pub open spec fn grow(
    m: Model,
    c: u32,
    ps: Seq<u32>,
    symbol: u8,
    f: u32,
    next: u32,
    marks: u8,
) -> (Model, u32)
    decreases ps.len(),
{
    if ps.len() == 0 {
        (m, c)
    } else {
        let (a, c1) = alloc_context(m);
        if c1 == 0 {
            (a, 0)
        } else {
            let b = set_u8(
                set_u8(
                    set_num_stats(set_flags(a, c1, marks), c1, 0),
                    c1.wrapping_add(2),
                    symbol,
                ),
                c1.wrapping_add(3),
                f as u8,
            );
            let d = set_suffix(set_successor(b, one_state(c1), next), c1, c);
            let e = set_successor(d, ps.last(), c1);
            grow(e, c1, ps.drop_last(), symbol, f, next, marks)
        }
    }
}

/// Make the contexts that the symbol found leads to from `c`. What comes back
/// is zero if they cannot be made.
#[verifier::opaque]
pub open spec fn create_successors(m: Model, skip: bool, s1: u32, c: u32) -> (Model, u32) {
    let up = successor(m, m.found_state);
    let ps = if skip {
        Seq::<u32>::empty()
    } else {
        seq![m.found_state]
    };
    match climb(m, c, s1, ps, up, MAX_ORDER as nat + 2) {
        (a, Climb::Fail) => (a, 0),
        (a, Climb::Found(d)) => (a, d),
        (a, Climb::Make(d, all)) => {
            let symbol = arena::get8(a.base, up);
            let marks = high4(sym(a, a.found_state)).wrapping_add(high3(symbol));
            match inherited(a, d, symbol) {
                None => (a, 0),
                Some(f) => grow(a, d, all, symbol, f, up.wrapping_add(1), marks),
            }
        },
    }
}

/// Let the states of shorter contexts that lead nowhere lead to the text:
/// the context it stopped at, and the state there, or zero where there is no
/// shorter context.
pub open spec fn descend(m: Model, c: u32, s1: u32, up: u32, fuel: nat) -> (
    Model,
    Option<(u32, u32)>,
)
    decreases fuel,
{
    if fuel == 0 {
        (m, None)
    } else if s1 == 0 && suffix(m, c) == 0 {
        (m, Some((c, 0)))
    } else {
        let d = suffix(m, c);
        let at = if s1 != 0 {
            Some((m, s1))
        } else {
            count_in(m, d, 2)
        };
        match at {
            None => (m, None),
            Some((a, s)) => if successor(a, s) != 0 {
                (a, Some((d, s)))
            } else {
                let b = set_successor(a, s, up);
                descend(
                    Model { order_fall: b.order_fall.wrapping_add(1), ..b },
                    d,
                    0,
                    up,
                    (fuel - 1) as nat,
                )
            },
        }
    }
}

/// Find the context that the symbol found leads to where it led nowhere.
/// What comes back is zero if there is none.
#[verifier::opaque]
pub open spec fn reduce_order(m: Model, s1: u32, c: u32) -> (Model, u32) {
    let up = m.text;
    let a = set_successor(m, m.found_state, up);
    let b = Model { order_fall: a.order_fall.wrapping_add(1), ..a };
    match descend(b, c, s1, up, b.base.len()) {
        (d, None) => (d, 0),
        (d, Some((at, s))) => if s == 0 {
            (d, at)
        } else {
            let e = if successor(d, s) <= up {
                let (x, made) = create_successors(
                    Model { found_state: s, ..d },
                    false,
                    0,
                    at,
                );
                Model { found_state: d.found_state, ..set_successor(x, s, made) }
            } else {
                d
            };
            let next = successor(e, s);
            if e.order_fall == 1 && c == e.max_context {
                let f = set_successor(e, e.found_state, next);
                (Model { text: f.text.wrapping_sub(1), ..f }, next)
            } else {
                (e, next)
            }
        },
    }
}

/// Count the symbol found in the next shorter context too, and note its state
/// there.
#[verifier::opaque]
pub open spec fn count_shorter(m: Model) -> Option<(Model, u32)> {
    let symbol = sym(m, m.found_state);
    let c = suffix(m, m.min_context);
    if freq(m, m.found_state) >= MAX_FREQ / 4 || c == 0 {
        Some((m, 0))
    } else if num_stats(m, c) == 0 {
        let s = one_state(c);
        if freq(m, s) < 32 {
            Some((set_freq(m, s, (freq(m, s) + 1) as u32), s))
        } else {
            Some((m, s))
        }
    } else {
        match find(m, stats(m, c), symbol, (num_stats(m, c) + 1) as u32) {
            None => None,
            Some(s) => {
                let before = s.wrapping_sub(STATE);
                let up = s != stats(m, c) && freq(m, s) >= freq(m, before);
                let a = if up {
                    swap_states(m, s, before)
                } else {
                    m
                };
                let t = if up {
                    before
                } else {
                    s
                };
                if freq(a, t) < MAX_FREQ - 9 {
                    let b = set_freq(a, t, (freq(a, t) + 2) as u32);
                    Some((set_summ_freq(b, c, (summ_freq(b, c) + 2) as u32), t))
                } else {
                    Some((a, t))
                }
            },
        }
    }
}

/// Make room for one more state in a context: the model, the sum of the
/// context, and whether there is room.
#[verifier::opaque]
pub open spec fn make_room(m: Model, c: u32, ns: u32) -> (Model, u32, bool) {
    let ns1 = num_stats(m, c);
    if ns1 != 0 {
        let old_nu = ((ns1 + 1) / 2) as u32;
        let i = arena::index_of(old_nu);
        let grows = ns1 % 2 == 1 && i != arena::index_of((old_nu + 1) as u32);
        let (a, ptr) = if grows {
            alloc_units(m, i + 1)
        } else {
            (m, 1)
        };
        if ptr == 0 {
            (a, 0, false)
        } else {
            let b = if grows {
                let from = stats(a, c);
                set_stats(insert_node(copy_units(a, ptr, from, old_nu), from, i), c, ptr)
            } else {
                a
            };
            (b, (summ_freq(b, c) + flag(3 * ns1 + 1 < ns)) as u32, true)
        }
    } else {
        let (a, ptr) = alloc_units(m, 0);
        if ptr == 0 {
            (a, 0, false)
        } else {
            let symbol = arena::get8(a.base, c.wrapping_add(2));
            let next = arena::get32(a.base, c.wrapping_add(4));
            let b = set_stats(
                set_u32(set_u8(a, ptr, symbol), ptr.wrapping_add(2), next),
                c,
                ptr,
            );
            let was = arena::get8(b.base, c.wrapping_add(3)) as u32;
            let f = if was < MAX_FREQ / 4 - 1 {
                (2 * was) as u32
            } else {
                (MAX_FREQ - 4) as u32
            };
            let d = set_freq(b, ptr, f);
            (d, f.wrapping_add(d.init_esc).wrapping_add(flag(ns > 2)), true)
        }
    }
}

/// How much a new symbol is given in a context, and how much the sum grows.
#[verifier::opaque]
pub open spec fn share(sum: u32, s0: u32, f: u32) -> (u32, u32) {
    let cf = 2 * (sum + 6) * f;
    let sf = s0 + sum;
    if cf < 6 * sf {
        ((1 + flag(cf > sf) + flag(cf >= 4 * sf)) as u32, 4)
    } else {
        let x = (4 + flag(cf > 9 * sf) + flag(cf > 12 * sf) + flag(cf > 15 * sf)) as u32;
        (x, x)
    }
}

/// Add a symbol to the contexts from `c` down to the one it was found in: the
/// model, the context it stopped at, and whether there was room in all.
pub open spec fn spread(
    m: Model,
    c: u32,
    ns: u32,
    s0: u32,
    f: u32,
    symbol: u8,
    next: u32,
    fuel: nat,
) -> (Model, u32, bool)
    decreases fuel,
{
    if c == m.min_context {
        (m, c, true)
    } else if fuel == 0 {
        (m, c, false)
    } else {
        let ns1 = num_stats(m, c);
        let (a, sum, ok) = make_room(m, c, ns);
        if !ok {
            (a, c, false)
        } else {
            let (x, more) = share(sum, s0, f);
            let s = nth(stats(a, c), (ns1 + 1) as u32);
            let b = set_num_stats(set_u8(a, s, symbol), c, (ns1 + 1) as u32);
            let d = set_successor(b, s, next);
            let e = set_flags(d, c, flags(d, c) | high3(symbol));
            let g = set_freq(set_summ_freq(e, c, sum.wrapping_add(more)), s, x);
            spread(g, suffix(g, c), ns, s0, f, symbol, next, (fuel - 1) as nat)
        }
    }
}

/// Let the model learn the symbol found, once its successors are there.
#[verifier::opaque]
pub open spec fn learn(m: Model, leads: u32, next: u32, f: u32, symbol: u8) -> Model {
    let ns = num_stats(m, m.min_context);
    let s0 = summ_freq(m, m.min_context).wrapping_sub(ns).wrapping_sub(f);
    let (a, c, ok) = spread(m, m.max_context, ns, s0, f, symbol, next, m.base.len());
    if ok {
        Model { max_context: leads, min_context: leads, ..a }
    } else {
        restore_model(a, c)
    }
}

/// Let the model learn the symbol found.
#[verifier::opaque]
pub open spec fn update_model(m: Model) -> Model {
    let leads = successor(m, m.found_state);
    let symbol = sym(m, m.found_state);
    let f = freq(m, m.found_state);
    let c = m.max_context;
    match count_shorter(m) {
        None => restart(m),
        Some((a, s)) => if a.order_fall == 0 && leads != 0 {
            let (b, cs) = create_successors(a, true, s, a.min_context);
            if cs == 0 {
                restore_model(set_successor(b, b.found_state, 0), c)
            } else {
                Model {
                    min_context: cs,
                    max_context: cs,
                    ..set_successor(b, b.found_state, cs)
                }
            }
        } else {
            let b = set_u8(a, a.text, symbol);
            let text = b.text.wrapping_add(1);
            let d = Model { text, ..b };
            if text >= d.units_start {
                restore_model(d, c)
            } else {
                let (e, made) = if leads == 0 {
                    reduce_order(d, s, d.min_context)
                } else if leads < d.units_start {
                    create_successors(d, false, s, d.min_context)
                } else {
                    (d, leads)
                };
                if made == 0 {
                    restore_model(e, c)
                } else {
                    let fall = e.order_fall.wrapping_sub(1);
                    if fall == 0 {
                        let back = flag(e.max_context != e.min_context);
                        learn(
                            Model { order_fall: fall, text: e.text.wrapping_sub(back), ..e },
                            made,
                            made,
                            f,
                            symbol,
                        )
                    } else {
                        learn(Model { order_fall: fall, ..e }, made, text, f, symbol)
                    }
                }
            }
        },
    }
}

/// Move the states from `stats` up to `s` one on.
pub open spec fn shift_states(m: Model, s: u32, first: u32) -> Model
    decreases s,
{
    if s > first && s >= STATE {
        shift_states(copy_state(m, s, (s - STATE) as u32), (s - STATE) as u32, first)
    } else {
        m
    }
}

/// Where a state with frequency `f` goes from `s` on, the states it passes
/// moved one on.
pub open spec fn sink(m: Model, s: u32, first: u32, f: u32) -> (Model, u32)
    decreases s,
{
    if s < STATE {
        (m, s)
    } else {
        let t = (s - STATE) as u32;
        let a = copy_state(m, s, t);
        if t <= first || f <= freq(a, t.wrapping_sub(STATE)) {
            (a, t)
        } else {
            sink(a, t, first, f)
        }
    }
}

/// Halve the frequencies of `n` states after `s`, keeping them in order: the
/// model, the last state, the sum, and what is left for escapes.
pub open spec fn halve(
    m: Model,
    s: u32,
    first: u32,
    n: u32,
    adder: u32,
    sum: u32,
    esc: u32,
) -> (Model, u32, u32, u32)
    decreases n,
{
    if n == 0 {
        (m, s, sum, esc)
    } else {
        let t = s.wrapping_add(STATE);
        let f = ((freq(m, t) + adder) / 2) as u32;
        let a = set_freq(m, t, f);
        let b = if f > freq(a, s) {
            let state = arena::state_at(a.base, t);
            let (x, at) = sink(a, t, first, f);
            Model { base: arena::with_state(x.base, at, state), ..x }
        } else {
            a
        };
        halve(
            b,
            t,
            first,
            (n - 1) as u32,
            adder,
            sum.wrapping_add(f),
            esc.wrapping_sub(freq(m, t)),
        )
    }
}

/// How many of the states up to `s` have no frequency left, at least one.
pub open spec fn worn_out(m: Model, s: u32, i: u32, n: u32) -> u32
    decreases n,
{
    if n == 0 || freq(m, s.wrapping_sub(STATE)) != 0 {
        (i + 1) as u32
    } else {
        worn_out(m, s.wrapping_sub(STATE), (i + 1) as u32, (n - 1) as u32)
    }
}

/// Halve the frequencies of the context, the symbol found first.
#[verifier::opaque]
pub open spec fn rescale(m: Model) -> Model {
    let mc = m.min_context;
    let first = stats(m, mc);
    let state = arena::state_at(m.base, m.found_state);
    let a = if m.found_state > first {
        let x = shift_states(m, m.found_state, first);
        Model { base: arena::with_state(x.base, first, state), ..x }
    } else {
        m
    };
    let esc0 = summ_freq(a, mc).wrapping_sub(freq(a, first));
    let adder = flag(a.order_fall != 0);
    let f0 = ((freq(a, first) + 4 + adder) / 2) as u32;
    let d = set_freq(a, first, f0);
    let (e, last, sum, esc) = halve(d, first, first, num_stats(d, mc), adder, f0, esc0);
    if freq(e, last) == 0 {
        let gone = worn_out(e, last, 0, 256);
        let left = num_stats(e, mc).wrapping_sub(gone);
        let g = set_num_stats(e, mc, left);
        let esc1 = esc.wrapping_add(gone);
        let n0 = ((num_stats(e, mc) + 2) / 2) as u32;
        if left == 0 {
            let share = if esc1 == 0 {
                MAX_FREQ as int
            } else {
                (2 * freq(g, first) + (esc1 - 1)) / (esc1 as int)
            };
            let f = if share > MAX_FREQ / 3 {
                (MAX_FREQ / 3) as u32
            } else {
                share as u32
            };
            let h = set_flags(
                g,
                mc,
                (flags(g, mc) & FLAG_PREV_HIGH).wrapping_add(high3(sym(g, first))),
            );
            let one = one_state(mc);
            insert_node(
                Model { found_state: one, ..set_freq(copy_state(h, one, first), one, f) },
                first,
                arena::index_of(n0),
            )
        } else {
            let n1 = left.wrapping_add(2) / 2;
            let h = if n0 != n1 {
                let (x, at) = shrink_units(g, first, n0, n1);
                set_stats(x, mc, at)
            } else {
                g
            };
            settle(h, sum, esc1)
        }
    } else {
        settle(e, sum, esc)
    }
}

/// Give the context its new sum.
pub open spec fn settle(m: Model, sum: u32, esc: u32) -> Model {
    let mc = m.min_context;
    let a = set_summ_freq(m, mc, sum.wrapping_add(esc).wrapping_sub(esc / 2));
    let b = set_flags(a, mc, flags(a, mc) | FLAG_RESCALED);
    Model { found_state: stats(b, mc), ..b }
}

/// The escape estimate that a context uses, by its place, if it uses one.
#[verifier::opaque]
pub open spec fn see_index(m: Model, num_masked: u32) -> Option<int> {
    let mc = m.min_context;
    let ns = num_stats(m, mc);
    if ns == 0xFF {
        None
    } else {
        let row = ns2indx(ns + 2) - 3;
        let column = flag(summ_freq(m, mc) > 11 * (ns + 1)) + 2 * flag(
            2 * ns < num_stats(m, suffix(m, mc)) + num_masked,
        ) + flags(m, mc);
        let i = 32 * row + column;
        if 0 <= i < 768 {
            Some(i)
        } else {
            None
        }
    }
}

/// What is set aside for leaving the context.
pub open spec fn escape(m: Model, at: Option<int>) -> u32 {
    match at {
        Some(i) => arena::see_mean(m.see[i]),
        None => 1,
    }
}

pub open spec fn see_used(m: Model, at: Option<int>) -> Model {
    match at {
        Some(i) => Model { see: m.see.update(i, arena::see_used(m.see[i])), ..m },
        None => m,
    }
}

pub open spec fn see_updated(m: Model, at: Option<int>) -> Model {
    match at {
        Some(i) => Model { see: m.see.update(i, arena::see_updated(m.see[i])), ..m },
        None => m,
    }
}

pub open spec fn see_added(m: Model, at: Option<int>, v: u32) -> Model {
    match at {
        Some(i) => Model {
            see: m.see.update(
                i,
                See { summ: m.see[i].summ.wrapping_add(v as u16), ..m.see[i] },
            ),
            ..m
        },
        None => m,
    }
}

/// Go on to the next context.
#[verifier::opaque]
pub open spec fn next_context(m: Model) -> Model {
    let c = successor(m, m.found_state);
    if m.order_fall == 0 && c >= m.units_start {
        Model { min_context: c, max_context: c, ..m }
    } else {
        update_model(m)
    }
}

/// A symbol found in a context, and not first.
#[verifier::opaque]
pub open spec fn update1(m: Model) -> Model {
    let s = m.found_state;
    let mc = m.min_context;
    let f = (freq(m, s) + 4) as u32;
    let a = set_freq(set_summ_freq(m, mc, (summ_freq(m, mc) + 4) as u32), s, f);
    let before = s.wrapping_sub(STATE);
    if f > freq(a, before) {
        let d = Model { found_state: before, ..swap_states(a, s, before) };
        next_context(
            if f > MAX_FREQ {
                rescale(d)
            } else {
                d
            },
        )
    } else {
        next_context(a)
    }
}

/// The first symbol of a context found.
#[verifier::opaque]
pub open spec fn update1_0(m: Model) -> Model {
    let s = m.found_state;
    let mc = m.min_context;
    let success = flag(2 * freq(m, s) >= summ_freq(m, mc));
    let f = (freq(m, s) + 4) as u32;
    let a = Model {
        prev_success: success,
        run_length: m.run_length.wrapping_add(success as i32),
        ..m
    };
    let d = set_freq(set_summ_freq(a, mc, (summ_freq(m, mc) + 4) as u32), s, f);
    next_context(
        if f > MAX_FREQ {
            rescale(d)
        } else {
            d
        },
    )
}

/// The symbol of a context of one found.
#[verifier::opaque]
pub open spec fn update_bin(m: Model) -> Model {
    let s = m.found_state;
    let f = freq(m, s);
    let c = successor(m, s);
    let a = set_freq(
        Model { prev_success: 1, run_length: m.run_length.wrapping_add(1), ..m },
        s,
        (f + flag(f < 196)) as u32,
    );
    if a.order_fall == 0 && c >= a.units_start {
        Model { min_context: c, max_context: c, ..a }
    } else {
        update_model(a)
    }
}

/// A symbol found after escapes.
#[verifier::opaque]
pub open spec fn update2(m: Model) -> Model {
    let s = m.found_state;
    let mc = m.min_context;
    let f = (freq(m, s) + 4) as u32;
    let a = Model { run_length: m.init_rl, ..m };
    let b = set_freq(set_summ_freq(a, mc, (summ_freq(a, mc) + 4) as u32), s, f);
    update_model(
        if f > MAX_FREQ {
            rescale(b)
        } else {
            b
        },
    )
}

/// The class of a number of symbols less one.
pub open spec fn ns2bs_indx(n: u32) -> u32 {
    if n == 0 {
        0
    } else if n == 1 {
        2
    } else if n < 11 {
        4
    } else {
        6
    }
}

/// The estimate that a context of one symbol uses, by its place.
#[verifier::opaque]
pub open spec fn bin_index(m: Model) -> int {
    let mc = m.min_context;
    let one = one_state(mc);
    if freq(m, one) == 0 {
        -1
    } else {
        let run = if m.run_length < 0 {
            0x20int
        } else {
            0
        };
        64 * ns2indx(freq(m, one) - 1) + m.prev_success + run + ns2bs_indx(
            num_stats(m, suffix(m, mc)),
        ) + flags(m, mc)
    }
}

/// Which symbols have been escaped from.
pub open spec fn none_masked() -> Seq<bool> {
    Seq::new(256, |i: int| false)
}

/// With the symbols of `n` states masked.
pub open spec fn mask_states(m: Model, mask: Seq<bool>, s: u32, n: u32) -> Seq<bool>
    decreases n,
{
    if n == 0 {
        mask
    } else {
        mask_states(
            m,
            mask.update(sym(m, s) as int, true),
            s.wrapping_add(STATE),
            (n - 1) as u32,
        )
    }
}

/// The state in whose interval `count` lies, of up to `n` after `s`, and what
/// `count` is past it; past all of them if it lies in none.
pub open spec fn seek(m: Model, s: u32, count: u32, n: u32) -> (Option<u32>, u32)
    decreases n,
{
    if n == 0 {
        (None, count)
    } else {
        let t = s.wrapping_add(STATE);
        let left = count.wrapping_sub(freq(m, t));
        if left >= 0x8000_0000 {
            (Some(t), left)
        } else {
            seek(m, t, left, (n - 1) as u32)
        }
    }
}

/// Follow shorter contexts to one that knows other symbols: the context, the
/// order fallen to, and whether there is one.
pub enum Fallen {
    /// A context that knows more.
    To(u32, u32),
    /// There is no shorter context.
    End(u32),
    /// The contexts do not end.
    Bad(u32),
}

pub open spec fn fall(m: Model, mc: u32, num_masked: u32, order: u32, fuel: nat) -> Fallen
    decreases fuel,
{
    let order = order.wrapping_add(1);
    if fuel == 0 {
        Fallen::Bad(order)
    } else if suffix(m, mc) == 0 {
        Fallen::End(order)
    } else {
        let d = suffix(m, mc);
        if num_stats(m, d) != num_masked {
            Fallen::To(d, order)
        } else {
            fall(m, d, num_masked, order, (fuel - 1) as nat)
        }
    }
}

/// The frequency of a state, none if its symbol has been escaped from.
pub open spec fn open_freq(m: Model, mask: Seq<bool>, s: u32) -> u32 {
    if mask[sym(m, s) as int] {
        0
    } else {
        freq(m, s)
    }
}

/// The sum of those of `n` states.
pub open spec fn open_freqs(m: Model, mask: Seq<bool>, s: u32, n: u32, sum: u32) -> u32
    decreases n,
{
    if n == 0 {
        sum
    } else {
        open_freqs(
            m,
            mask,
            s.wrapping_add(STATE),
            (n - 1) as u32,
            sum.wrapping_add(open_freq(m, mask, s)),
        )
    }
}

/// The state in whose interval `count` lies, of `n` from `s` on, and what
/// `count` is past it.
pub open spec fn seek_open(m: Model, mask: Seq<bool>, s: u32, count: u32, n: u32) -> (u32, u32)
    decreases n,
{
    let left = count.wrapping_sub(open_freq(m, mask, s));
    if left >= 0x8000_0000 || n == 0 {
        (s, left)
    } else {
        seek_open(m, mask, s.wrapping_add(STATE), left, (n - 1) as u32)
    }
}

/// Find a symbol in shorter contexts.
pub open spec fn escaped(m: Model, mask: Seq<bool>, fuel: nat) -> (Model, i32)
    decreases fuel,
{
    let m = Model { rc: range::normal(m.rc), ..m };
    let num_masked = num_stats(m, m.min_context);
    match fall(m, m.min_context, num_masked, m.order_fall, m.base.len()) {
        Fallen::End(order) => (Model { order_fall: order, ..m }, SYM_END),
        Fallen::Bad(order) => (Model { order_fall: order, ..m }, SYM_ERROR),
        Fallen::To(mc, order) => {
            let a = Model { order_fall: order, min_context: mc, ..m };
            let first = stats(a, mc);
            let n = (num_stats(a, mc) + 1) as u32;
            let hi = open_freqs(a, mask, first, n, 0);
            let at = see_index(a, num_masked);
            let sum = escape(a, at).wrapping_add(hi);
            let b = see_used(a, at);
            let total = range::corrected(b.rc, sum);
            let count = range::part(b.rc, total);
            let d = Model { rc: range::divided(b.rc, total), ..b };
            if count < hi {
                let (s, past) = seek_open(d, mask, first, count, n);
                let f = freq(d, s);
                let e = Model {
                    rc: range::normal(
                        range::taken(d.rc, count.wrapping_sub(past).wrapping_sub(f), f),
                    ),
                    ..d
                };
                let g = Model { found_state: s, ..see_updated(e, at) };
                (update2(g), sym(g, s) as i32)
            } else if count >= total || fuel == 0 {
                (d, SYM_ERROR)
            } else {
                let e = Model { rc: range::taken(d.rc, hi, total.wrapping_sub(hi)), ..d };
                let g = see_added(e, at, sum);
                escaped(g, mask_states(g, mask, stats(g, mc), n), (fuel - 1) as nat)
            }
        },
    }
}

/// A symbol in a context of several.
#[verifier::opaque]
pub open spec fn decode_many(m: Model) -> (Model, i32) {
    let mc = m.min_context;
    let s = stats(m, mc);
    let total = range::corrected(m.rc, summ_freq(m, mc));
    let hi = range::part(m.rc, total);
    let a = Model { rc: range::divided(m.rc, total), ..m };
    let count = hi.wrapping_sub(freq(a, s));
    if count >= 0x8000_0000 {
        let b = Model {
            rc: range::normal(range::taken(a.rc, 0, freq(a, s))),
            found_state: s,
            ..a
        };
        (update1_0(b), sym(b, s) as i32)
    } else {
        let b = Model { prev_success: 0, ..a };
        match seek(b, s, count, num_stats(b, mc)) {
            (Some(t), left) => {
                let f = freq(b, t);
                let d = Model {
                    rc: range::normal(
                        range::taken(b.rc, hi.wrapping_sub(left).wrapping_sub(f), f),
                    ),
                    found_state: t,
                    ..b
                };
                (update1(d), sym(d, t) as i32)
            },
            (None, left) => if hi >= total {
                (b, SYM_ERROR)
            } else {
                let used = hi.wrapping_sub(left);
                let d = Model {
                    rc: range::taken(b.rc, used, total.wrapping_sub(used)),
                    ..b
                };
                escaped(
                    d,
                    mask_states(
                        d,
                        none_masked(),
                        stats(d, mc),
                        (num_stats(d, mc) + 1) as u32,
                    ),
                    d.base.len(),
                )
            },
        }
    }
}

/// A symbol in a context of one.
#[verifier::opaque]
pub open spec fn decode_one(m: Model) -> (Model, i32) {
    let one = one_state(m.min_context);
    let i = bin_index(m);
    if !(0 <= i < 1600) {
        (m, SYM_ERROR)
    } else {
        let pr = m.bin_summ[i] as u32;
        let left = (pr - arena::mean_of(pr)) as u32;
        let size0 = (m.rc.range / BIN_SCALE).wrapping_mul(pr);
        if m.rc.code < size0 {
            let d = Model {
                bin_summ: m.bin_summ.update(i, (left + 128) as u16),
                rc: range::normal(Coder { range: size0, ..m.rc }),
                found_state: one,
                ..m
            };
            (update_bin(d), sym(d, one) as i32)
        } else {
            let d = Model {
                bin_summ: m.bin_summ.update(i, left as u16),
                init_esc: arena::escape_cost(left),
                rc: range::one_taken(m.rc, size0),
                prev_success: 0,
                ..m
            };
            escaped(d, none_masked().update(sym(d, one) as int, true), d.base.len())
        }
    }
}

/// Decode a symbol: the model that learned it, and the symbol, or one of the
/// two codes for an end and for an error.
pub open spec fn decoded(m: Model) -> (Model, i32) {
    if num_stats(m, m.min_context) != 0 {
        decode_many(m)
    } else {
        decode_one(m)
    }
}

/// A model that has seen nothing.
pub open spec fn fresh(rc: Coder, mem_size: u32, max_order: u32, restore_method: u32) -> Model {
    let align_offset = ((4 - mem_size % 4) % 4) as u32;
    restart(
        Model {
            rc,
            base: Seq::new((align_offset + mem_size + UNIT_SIZE) as nat, |i: int| 0u8),
            size: mem_size,
            align_offset,
            min_context: 0,
            max_context: 0,
            found_state: 0,
            order_fall: 0,
            init_esc: 0,
            prev_success: 0,
            max_order,
            restore_method,
            run_length: 0,
            init_rl: 0,
            glue_count: 0,
            lo_unit: 0,
            hi_unit: 0,
            text: 0,
            units_start: 0,
            free_list: Seq::new(INDEXES as nat, |i: int| 0u32),
            stamps: Seq::new(INDEXES as nat, |i: int| 0u32),
            see: fresh_see(),
            bin_summ: fresh_bins(),
        },
    )
}

} // verus!
