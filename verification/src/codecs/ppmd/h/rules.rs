//! What a var. H model does, symbol by symbol.
//!
//! A context is twelve bytes: how many symbols it knows, the sum of their
//! frequencies, where its states lie, and the context one symbol shorter. In
//! a context of one symbol the state lies in the context itself. A state is
//! six bytes: a symbol, its frequency, and its successor, which is a context
//! or a place in the text.
use crate::codecs::ppmd::arena;
use crate::codecs::ppmd::arena::{See, INDEXES, INIT_BIN_ESC, STATE, UNIT_SIZE};
use crate::codecs::ppmd::h::range;
use crate::codecs::ppmd::h::range::{Coder, BIN_SCALE};
use vstd::prelude::*;

verus! {

/// The highest frequency of a symbol.
pub const MAX_FREQ: u32 = 124;

/// The longest context.
pub const MAX_ORDER: u32 = 64;

/// What is decoded at the end.
pub const SYM_END: i32 = -1;

/// What is decoded where nothing can be.
pub const SYM_ERROR: i32 = -2;

/// A model and its range decoder.
pub struct Model {
    pub rc: Coder,
    pub base: Seq<u8>,
    pub size: u32,
    pub align_offset: u32,
    pub min_context: u32,
    pub max_context: u32,
    pub found_state: u32,
    pub order_fall: u32,
    pub init_esc: u32,
    pub prev_success: u32,
    pub max_order: u32,
    pub hi_bits_flag: u32,
    pub run_length: i32,
    pub init_rl: i32,
    pub glue_count: u32,
    pub lo_unit: u32,
    pub hi_unit: u32,
    pub text: u32,
    pub units_start: u32,
    pub free_list: Seq<u32>,
    pub see: Seq<See>,
    pub bin_summ: Seq<u16>,
}

pub open spec fn flag(b: bool) -> u32 {
    if b {
        1
    } else {
        0
    }
}

pub open spec fn num_stats(m: Model, c: u32) -> u32 {
    arena::get16(m.base, c) as u32
}

pub open spec fn summ_freq(m: Model, c: u32) -> u32 {
    arena::get16(m.base, c.wrapping_add(2)) as u32
}

pub open spec fn stats(m: Model, c: u32) -> u32 {
    arena::get32(m.base, c.wrapping_add(4))
}

pub open spec fn suffix(m: Model, c: u32) -> u32 {
    arena::get32(m.base, c.wrapping_add(8))
}

pub open spec fn one_state(c: u32) -> u32 {
    c.wrapping_add(2)
}

pub open spec fn sym(m: Model, s: u32) -> u8 {
    arena::get8(m.base, s)
}

pub open spec fn freq(m: Model, s: u32) -> u32 {
    arena::get8(m.base, s.wrapping_add(1)) as u32
}

pub open spec fn successor(m: Model, s: u32) -> u32 {
    arena::get32(m.base, s.wrapping_add(2))
}

pub open spec fn set_u8(m: Model, at: u32, v: u8) -> Model {
    Model { base: arena::put8(m.base, at, v), ..m }
}

pub open spec fn set_u16(m: Model, at: u32, v: u32) -> Model {
    Model { base: arena::put16(m.base, at, v as u16), ..m }
}

pub open spec fn set_u32(m: Model, at: u32, v: u32) -> Model {
    Model { base: arena::put32(m.base, at, v), ..m }
}

pub open spec fn set_num_stats(m: Model, c: u32, v: u32) -> Model {
    set_u16(m, c, v)
}

pub open spec fn set_summ_freq(m: Model, c: u32, v: u32) -> Model {
    set_u16(m, c.wrapping_add(2), v)
}

pub open spec fn set_stats(m: Model, c: u32, v: u32) -> Model {
    set_u32(m, c.wrapping_add(4), v)
}

pub open spec fn set_suffix(m: Model, c: u32, v: u32) -> Model {
    set_u32(m, c.wrapping_add(8), v)
}

pub open spec fn set_freq(m: Model, s: u32, v: u32) -> Model {
    set_u8(m, s.wrapping_add(1), v as u8)
}

pub open spec fn set_successor(m: Model, s: u32, v: u32) -> Model {
    set_u32(m, s.wrapping_add(2), v)
}

pub open spec fn copy_state(m: Model, dest: u32, src: u32) -> Model {
    Model { base: arena::copied(m.base, dest, src, STATE), ..m }
}

pub open spec fn copy_units(m: Model, dest: u32, src: u32, nu: u32) -> Model {
    Model { base: arena::copied(m.base, dest, src, nu.wrapping_mul(UNIT_SIZE)), ..m }
}

pub open spec fn swap_states(m: Model, x: u32, y: u32) -> Model {
    Model { base: arena::swapped(m.base, x, y), ..m }
}

/// `n` states on.
pub open spec fn nth(s: u32, n: u32) -> u32 {
    s.wrapping_add(n.wrapping_mul(STATE))
}

/// Put a block into the list of its size.
pub open spec fn insert_node(m: Model, node: u32, index: int) -> Model {
    if 0 <= index < INDEXES {
        Model {
            base: arena::put32(m.base, node, m.free_list[index]),
            free_list: m.free_list.update(index, node),
            ..m
        }
    } else {
        m
    }
}

/// The first block of a size.
pub open spec fn first_free(m: Model, index: int) -> u32 {
    if 0 <= index < INDEXES {
        m.free_list[index]
    } else {
        0
    }
}

/// Take the first block of a size out of its list.
pub open spec fn remove_node(m: Model, index: int) -> Model {
    if 0 <= index < INDEXES {
        Model {
            free_list: m.free_list.update(index, arena::get32(m.base, m.free_list[index])),
            ..m
        }
    } else {
        m
    }
}

/// Put up to 128 units into the lists, as one block or as two.
#[verifier::opaque]
pub open spec fn place_units(m: Model, at: u32, nu: u32) -> Model {
    let i = arena::index_of(nu);
    if arena::units_of(i) != nu {
        let j = if i > 0 {
            i - 1
        } else {
            0
        };
        let k = arena::units_of(j);
        insert_node(
            insert_node(
                m,
                at.wrapping_add(k.wrapping_mul(UNIT_SIZE)),
                nu.wrapping_sub(k).wrapping_sub(1) as int,
            ),
            at,
            j,
        )
    } else {
        insert_node(m, at, i)
    }
}

/// Free what a smaller block leaves of a larger one.
pub open spec fn split_block(m: Model, ptr: u32, old_index: int, new_index: int) -> Model {
    let used = arena::units_of(new_index);
    place_units(
        m,
        ptr.wrapping_add(used.wrapping_mul(UNIT_SIZE)),
        arena::units_of(old_index).wrapping_sub(used),
    )
}

pub open spec fn node_stamp(m: Model, n: u32) -> u32 {
    arena::get16(m.base, n) as u32
}

pub open spec fn node_nu(m: Model, n: u32) -> u32 {
    arena::get16(m.base, n.wrapping_add(2)) as u32
}

pub open spec fn node_next(m: Model, n: u32) -> u32 {
    arena::get32(m.base, n.wrapping_add(4))
}

pub open spec fn node_prev(m: Model, n: u32) -> u32 {
    arena::get32(m.base, n.wrapping_add(8))
}

pub open spec fn set_node_stamp(m: Model, n: u32, v: u32) -> Model {
    set_u16(m, n, v)
}

pub open spec fn set_node_nu(m: Model, n: u32, v: u32) -> Model {
    set_u16(m, n.wrapping_add(2), v)
}

pub open spec fn set_node_next(m: Model, n: u32, v: u32) -> Model {
    set_u32(m, n.wrapping_add(4), v)
}

pub open spec fn set_node_prev(m: Model, n: u32, v: u32) -> Model {
    set_u32(m, n.wrapping_add(8), v)
}

/// Link the blocks of one list in front of a doubly linked one.
pub open spec fn link_list(m: Model, nu: u32, next: u32, n: u32, fuel: nat) -> (Model, u32)
    decreases fuel,
{
    if next == 0 || fuel == 0 {
        (m, n)
    } else {
        let a = set_node_prev(set_node_next(m, next, n), n, next);
        let b = set_node_nu(set_node_stamp(a, next, 0), next, nu);
        link_list(b, nu, arena::get32(a.base, next), next, (fuel - 1) as nat)
    }
}

/// Link the blocks of all lists from one size on, and empty the lists.
pub open spec fn link_all(m: Model, i: int, n: u32) -> (Model, u32)
    decreases INDEXES - i,
{
    if i >= INDEXES {
        (m, n)
    } else {
        let a = Model { free_list: m.free_list.update(i, 0), ..m };
        let (b, k) = link_list(a, arena::units_of(i), m.free_list[i], n, m.base.len());
        link_all(b, i + 1, k)
    }
}

/// Join a free block of `nu` units with those right behind it.
pub open spec fn join(m: Model, n: u32, nu: u32, fuel: nat) -> Model
    decreases fuel,
{
    if fuel == 0 {
        m
    } else {
        let after = n.wrapping_add(nu.wrapping_mul(UNIT_SIZE));
        let sum = nu.wrapping_add(node_nu(m, after));
        if node_stamp(m, after) != 0 || sum >= 0x10000 {
            m
        } else {
            let prev = node_prev(m, after);
            let next = node_next(m, after);
            let a = set_node_prev(set_node_next(m, prev, next), next, prev);
            join(set_node_nu(a, n, sum), n, sum, (fuel - 1) as nat)
        }
    }
}

/// Join every free block from `n` on.
pub open spec fn join_all(m: Model, n: u32, head: u32, fuel: nat) -> Model
    decreases fuel,
{
    if n == head || fuel == 0 {
        m
    } else {
        let a = join(m, n, node_nu(m, n), m.base.len());
        join_all(a, node_next(a, n), head, (fuel - 1) as nat)
    }
}

/// Put a free block of any number of units into the lists.
pub open spec fn place_large(m: Model, at: u32, nu: u32) -> Model
    decreases nu,
{
    if nu > 128 {
        place_large(
            insert_node(m, at, INDEXES - 1),
            at.wrapping_add(128u32.wrapping_mul(UNIT_SIZE)),
            (nu - 128) as u32,
        )
    } else {
        place_units(m, at, nu)
    }
}

/// Put every free block from `n` on into the lists.
pub open spec fn place_all(m: Model, n: u32, head: u32, fuel: nat) -> Model
    decreases fuel,
{
    if n == head || fuel == 0 {
        m
    } else {
        place_all(
            place_large(m, n, node_nu(m, n)),
            node_next(m, n),
            head,
            (fuel - 1) as nat,
        )
    }
}

/// Join the free blocks that lie side by side.
#[verifier::opaque]
pub open spec fn glue_free_blocks(m: Model) -> Model {
    let head = m.align_offset.wrapping_add(m.size);
    let (a, n) = link_all(Model { glue_count: 255, ..m }, 0, head);
    let b = set_node_prev(set_node_next(set_node_stamp(a, head, 1), head, n), n, head);
    let c = if b.lo_unit != b.hi_unit {
        set_node_stamp(b, b.lo_unit, 1)
    } else {
        b
    };
    let d = join_all(c, n, head, c.base.len());
    place_all(d, node_next(d, head), head, d.base.len())
}

/// The next size that has a free block.
pub open spec fn next_size(m: Model, i: int) -> int
    decreases INDEXES - i,
{
    if i >= INDEXES || first_free(m, i) != 0 {
        i
    } else {
        next_size(m, i + 1)
    }
}

/// A block of a size, by all means: what comes back is zero if there is none.
#[verifier::opaque]
pub open spec fn alloc_units_rare(m: Model, index: int) -> (Model, u32) {
    let a = if m.glue_count == 0 {
        glue_free_blocks(m)
    } else {
        m
    };
    if m.glue_count == 0 && first_free(a, index) != 0 {
        (remove_node(a, index), first_free(a, index))
    } else {
        let i = next_size(a, index + 1);
        if i >= INDEXES {
            let bytes = arena::units_of(index).wrapping_mul(UNIT_SIZE);
            let b = Model { glue_count: a.glue_count.wrapping_sub(1), ..a };
            if b.units_start.wrapping_sub(b.text) > bytes {
                let start = b.units_start.wrapping_sub(bytes);
                (Model { units_start: start, ..b }, start)
            } else {
                (b, 0)
            }
        } else {
            let block = first_free(a, i);
            (split_block(remove_node(a, i), block, i, index), block)
        }
    }
}

/// A block of a size.
#[verifier::opaque]
pub open spec fn alloc_units(m: Model, index: int) -> (Model, u32) {
    let bytes = arena::units_of(index).wrapping_mul(UNIT_SIZE);
    if first_free(m, index) != 0 {
        (remove_node(m, index), first_free(m, index))
    } else if m.hi_unit.wrapping_sub(m.lo_unit) >= bytes {
        (Model { lo_unit: m.lo_unit.wrapping_add(bytes), ..m }, m.lo_unit)
    } else {
        alloc_units_rare(m, index)
    }
}

/// A block for one context.
#[verifier::opaque]
pub open spec fn alloc_context(m: Model) -> (Model, u32) {
    if m.hi_unit != m.lo_unit {
        let at = m.hi_unit.wrapping_sub(UNIT_SIZE);
        (Model { hi_unit: at, ..m }, at)
    } else if first_free(m, 0) != 0 {
        (remove_node(m, 0), first_free(m, 0))
    } else {
        alloc_units_rare(m, 0)
    }
}

/// Keep the first `new_nu` of a block's units.
#[verifier::opaque]
pub open spec fn shrink_units(m: Model, at: u32, old_nu: u32, new_nu: u32) -> (Model, u32) {
    let i0 = arena::index_of(old_nu);
    let i1 = arena::index_of(new_nu);
    if i0 == i1 {
        (m, at)
    } else if first_free(m, i1) != 0 {
        let ptr = first_free(m, i1);
        (insert_node(copy_units(remove_node(m, i1), ptr, at, new_nu), at, i0), ptr)
    } else {
        (split_block(m, at, i0, i1), at)
    }
}

/// The states of the shortest context, from the `i`th on: each symbol once.
pub open spec fn fresh_states(m: Model, s: u32, i: u32) -> Model
    decreases 256 - i,
{
    if i >= 256 {
        m
    } else {
        let at = nth(s, i);
        fresh_states(
            set_successor(set_freq(set_u8(m, at, i as u8), at, 1), at, 0),
            s,
            (i + 1) as u32,
        )
    }
}

/// The first estimates.
pub open spec fn fresh_bins() -> Seq<u16> {
    Seq::new(128 * 64, |j: int| (BIN_SCALE - INIT_BIN_ESC[j % 8] as int / (j / 64 + 2)) as u16)
}

/// The first escape estimates.
pub open spec fn fresh_see() -> Seq<See> {
    Seq::new(25 * 16, |j: int| See { summ: ((5 * (j / 16) + 10) * 8) as u16, shift: 3, count: 4 })
}

/// Forget everything.
#[verifier::opaque]
pub open spec fn restart(m: Model) -> Model {
    let top = m.align_offset.wrapping_add(m.size);
    let start = top.wrapping_sub(
        (m.size / 8 / UNIT_SIZE).wrapping_mul(7).wrapping_mul(UNIT_SIZE),
    );
    let mc = top.wrapping_sub(UNIT_SIZE);
    let rl = if m.max_order < 12 {
        (-1 - m.max_order) as i32
    } else {
        -13i32
    };
    let a = Model {
        free_list: Seq::new(INDEXES as nat, |i: int| 0u32),
        text: m.align_offset,
        hi_unit: mc,
        units_start: start,
        lo_unit: start.wrapping_add(128u32.wrapping_mul(UNIT_SIZE)),
        glue_count: 0,
        order_fall: m.max_order,
        init_rl: rl,
        run_length: rl,
        prev_success: 0,
        max_context: mc,
        min_context: mc,
        found_state: start,
        bin_summ: fresh_bins(),
        see: fresh_see(),
        ..m
    };
    let b = set_suffix(set_stats(set_summ_freq(set_num_stats(a, mc, 256), mc, 257), mc, start), mc, 0);
    fresh_states(b, start, 0)
}

/// The state of a symbol among `n` states.
pub open spec fn find(m: Model, s: u32, symbol: u8, n: u32) -> Option<u32>
    decreases n,
{
    if n == 0 {
        None
    } else if sym(m, s) == symbol {
        Some(s)
    } else {
        find(m, s.wrapping_add(STATE), symbol, (n - 1) as u32)
    }
}

/// What following shorter contexts comes to.
pub enum Climb {
    /// There is none to be followed.
    Fail,
    /// The successor is there already.
    Found(u32),
    /// The states whose successors are to be made, down from a context.
    Make(u32, Seq<u32>),
}

/// Follow shorter contexts while their successor is the same.
pub open spec fn climb(m: Model, c: u32, ps: Seq<u32>, up: u32, fuel: nat) -> Climb
    decreases fuel,
{
    if suffix(m, c) == 0 {
        Climb::Make(c, ps)
    } else if fuel == 0 {
        Climb::Fail
    } else {
        let d = suffix(m, c);
        let at = if num_stats(m, d) != 1 {
            find(m, stats(m, d), sym(m, m.found_state), num_stats(m, d))
        } else {
            Some(one_state(d))
        };
        match at {
            None => Climb::Fail,
            Some(s) => if successor(m, s) != up {
                if ps.len() == 0 {
                    Climb::Found(successor(m, s))
                } else {
                    Climb::Make(successor(m, s), ps)
                }
            } else if ps.len() >= MAX_ORDER {
                Climb::Fail
            } else {
                climb(m, d, ps.push(s), up, (fuel - 1) as nat)
            },
        }
    }
}

/// The frequency that the symbol of a new context starts with.
#[verifier::opaque]
pub open spec fn inherited(m: Model, c: u32, symbol: u8) -> Option<u32> {
    if num_stats(m, c) == 1 {
        Some(freq(m, one_state(c)))
    } else {
        match find(m, stats(m, c), symbol, num_stats(m, c)) {
            None => None,
            Some(s) => if freq(m, s) < 1 || summ_freq(m, c) < num_stats(m, c) + (freq(m, s) - 1) {
                None
            } else {
                let cf = freq(m, s) - 1;
                let s0 = summ_freq(m, c) - num_stats(m, c) - cf;
                if 2 * cf <= s0 {
                    Some((1 + flag(5 * cf > s0)) as u32)
                } else if s0 == 0 {
                    None
                } else {
                    Some((1 + (2 * cf + 3 * s0 - 1) / (2 * s0)) as u32)
                }
            },
        }
    }
}

/// Make a context of one symbol for each state, the last first.
pub open spec fn grow(m: Model, c: u32, ps: Seq<u32>, symbol: u8, f: u32, next: u32) -> (
    Model,
    u32,
)
    decreases ps.len(),
{
    if ps.len() == 0 {
        (m, c)
    } else {
        let (a, c1) = alloc_context(m);
        if c1 == 0 {
            (a, 0)
        } else {
            let one = one_state(c1);
            let b = set_successor(
                set_freq(set_u8(set_num_stats(a, c1, 1), one, symbol), one, f),
                one,
                next,
            );
            let d = set_successor(set_suffix(b, c1, c), ps.last(), c1);
            grow(d, c1, ps.drop_last(), symbol, f, next)
        }
    }
}

/// Make the contexts that the symbol found leads to. What comes back is zero
/// if they cannot be made.
#[verifier::opaque]
pub open spec fn create_successors(m: Model, skip: bool) -> (Model, u32) {
    let up = successor(m, m.found_state);
    let ps = if skip {
        Seq::<u32>::empty()
    } else {
        seq![m.found_state]
    };
    match climb(m, m.min_context, ps, up, MAX_ORDER as nat + 1) {
        Climb::Fail => (m, 0),
        Climb::Found(c) => (m, c),
        Climb::Make(c, all) => {
            let symbol = arena::get8(m.base, up);
            match inherited(m, c, symbol) {
                None => (m, 0),
                Some(f) => grow(m, c, all, symbol, f, up.wrapping_add(1)),
            }
        },
    }
}

/// Count the symbol found in the next shorter context too.
#[verifier::opaque]
pub open spec fn count_shorter(m: Model) -> Option<Model> {
    let symbol = sym(m, m.found_state);
    let c = suffix(m, m.min_context);
    if freq(m, m.found_state) >= MAX_FREQ / 4 || c == 0 {
        Some(m)
    } else if num_stats(m, c) == 1 {
        let s = one_state(c);
        if freq(m, s) < 32 {
            Some(set_freq(m, s, (freq(m, s) + 1) as u32))
        } else {
            Some(m)
        }
    } else {
        match find(m, stats(m, c), symbol, num_stats(m, c)) {
            None => None,
            Some(s) => {
                let before = s.wrapping_sub(STATE);
                let up = s != stats(m, c) && freq(m, s) >= freq(m, before);
                let a = if up {
                    swap_states(m, s, before)
                } else {
                    m
                };
                let t = if up {
                    before
                } else {
                    s
                };
                if freq(a, t) < MAX_FREQ - 9 {
                    let b = set_freq(a, t, (freq(a, t) + 2) as u32);
                    Some(set_summ_freq(b, c, (summ_freq(b, c) + 2) as u32))
                } else {
                    Some(a)
                }
            },
        }
    }
}

/// Make room for one more state in a context. There is none if what comes
/// back is `None`, and the model is then as far as it got.
#[verifier::opaque]
pub open spec fn make_room(m: Model, c: u32, ns: u32) -> (Model, bool) {
    let ns1 = num_stats(m, c);
    if ns1 != 1 {
        let old_nu = ns1 / 2;
        let i = arena::index_of(old_nu);
        let grows = ns1 % 2 == 0 && i != arena::index_of((old_nu + 1) as u32);
        let (a, ptr) = if grows {
            alloc_units(m, i + 1)
        } else {
            (m, 1)
        };
        if ptr == 0 {
            (a, false)
        } else {
            let b = if grows {
                let from = stats(a, c);
                set_stats(insert_node(copy_units(a, ptr, from, old_nu), from, i), c, ptr)
            } else {
                a
            };
            let bump = flag(2 * ns1 < ns) + 2 * flag(
                4 * ns1 <= ns && summ_freq(b, c) <= 8 * ns1,
            );
            (set_summ_freq(b, c, (summ_freq(b, c) + bump) as u32), true)
        }
    } else {
        let (a, ptr) = alloc_units(m, 0);
        if ptr == 0 {
            (a, false)
        } else {
            let b = set_stats(copy_state(a, ptr, one_state(c)), c, ptr);
            let f = if freq(b, ptr) < MAX_FREQ / 4 - 1 {
                (2 * freq(b, ptr)) as u32
            } else {
                (MAX_FREQ - 4) as u32
            };
            let d = set_freq(b, ptr, f);
            (set_summ_freq(d, c, f.wrapping_add(d.init_esc).wrapping_add(flag(ns > 3))), true)
        }
    }
}

/// How much a new symbol is given in a context, and how much the sum grows.
#[verifier::opaque]
pub open spec fn share(sum: u32, s0: u32, f: u32) -> (u32, u32) {
    let cf = 2 * f * (sum + 6);
    let sf = s0 + sum;
    if cf < 6 * sf {
        ((1 + flag(cf > sf) + flag(cf >= 4 * sf)) as u32, 3)
    } else {
        let x = (4 + flag(cf >= 9 * sf) + flag(cf >= 12 * sf) + flag(cf >= 15 * sf)) as u32;
        (x, x)
    }
}

/// Add a symbol to the contexts from `c` down to the one it was found in.
pub open spec fn spread(
    m: Model,
    c: u32,
    ns: u32,
    s0: u32,
    f: u32,
    symbol: u8,
    next: u32,
    fuel: nat,
) -> (Model, bool)
    decreases fuel,
{
    if c == m.min_context {
        (m, true)
    } else if fuel == 0 {
        (m, false)
    } else {
        let ns1 = num_stats(m, c);
        let (a, ok) = make_room(m, c, ns);
        if !ok {
            (a, false)
        } else {
            let (x, more) = share(summ_freq(a, c), s0, f);
            let b = set_summ_freq(a, c, (summ_freq(a, c) + more) as u32);
            let s = nth(stats(b, c), ns1);
            let d = set_freq(set_u8(set_successor(b, s, next), s, symbol), s, x);
            let e = set_num_stats(d, c, (ns1 + 1) as u32);
            spread(e, suffix(e, c), ns, s0, f, symbol, next, (fuel - 1) as nat)
        }
    }
}

/// The sum of a context without the symbol found and one for each symbol.
pub open spec fn spare(m: Model, ns: u32, f: u32) -> Option<u32> {
    let sum = summ_freq(m, m.min_context);
    let own = if f > 0 {
        f - 1
    } else {
        0
    };
    if sum < ns + own {
        None
    } else {
        Some((sum - ns - own) as u32)
    }
}

/// Let the model learn the symbol found, once its successors are there.
#[verifier::opaque]
pub open spec fn learn(m: Model, leads: u32, next: u32, f: u32, symbol: u8) -> Model {
    let ns = num_stats(m, m.min_context);
    match spare(m, ns, f) {
        None => restart(m),
        Some(s0) => {
            let (a, ok) = spread(m, m.max_context, ns, s0, f, symbol, next, m.base.len());
            if ok {
                Model { max_context: leads, min_context: leads, ..a }
            } else {
                restart(a)
            }
        },
    }
}

/// Let the model learn the symbol found.
#[verifier::opaque]
pub open spec fn update_model(m: Model) -> Model {
    let leads = successor(m, m.found_state);
    let symbol = sym(m, m.found_state);
    let f = freq(m, m.found_state);
    match count_shorter(m) {
        None => restart(m),
        Some(a) => if a.order_fall == 0 {
            let (b, cs) = create_successors(a, true);
            if cs == 0 {
                restart(b)
            } else {
                set_successor(
                    Model { min_context: cs, max_context: cs, ..b },
                    b.found_state,
                    cs,
                )
            }
        } else {
            let b = set_u8(a, a.text, symbol);
            let text = b.text.wrapping_add(1);
            let d = Model { text, ..b };
            if text >= d.units_start {
                restart(d)
            } else if leads != 0 {
                let (e, made) = if leads <= text {
                    create_successors(d, false)
                } else {
                    (d, leads)
                };
                if made == 0 {
                    restart(e)
                } else {
                    let fall = e.order_fall.wrapping_sub(1);
                    if fall == 0 {
                        let back = flag(e.max_context != e.min_context);
                        learn(
                            Model { order_fall: fall, text: e.text.wrapping_sub(back), ..e },
                            made,
                            made,
                            f,
                            symbol,
                        )
                    } else {
                        learn(Model { order_fall: fall, ..e }, made, text, f, symbol)
                    }
                }
            } else {
                learn(
                    set_successor(d, d.found_state, text),
                    d.min_context,
                    text,
                    f,
                    symbol,
                )
            }
        },
    }
}

/// Move the states from `stats` up to `s` one on.
pub open spec fn shift_states(m: Model, s: u32, first: u32) -> Model
    decreases s,
{
    if s > first && s >= STATE {
        shift_states(copy_state(m, s, (s - STATE) as u32), (s - STATE) as u32, first)
    } else {
        m
    }
}

/// Where a state with frequency `f` goes from `s` on, the states it passes
/// moved one on.
pub open spec fn sink(m: Model, s: u32, first: u32, f: u32) -> (Model, u32)
    decreases s,
{
    if s < STATE {
        (m, s)
    } else {
        let t = (s - STATE) as u32;
        let a = copy_state(m, s, t);
        if t <= first || f <= freq(a, t.wrapping_sub(STATE)) {
            (a, t)
        } else {
            sink(a, t, first, f)
        }
    }
}

/// Halve the frequencies of `n` states after `s`, keeping them in order: the
/// model, the last state, the sum, and what is left for escapes.
pub open spec fn halve(
    m: Model,
    s: u32,
    first: u32,
    n: u32,
    adder: u32,
    sum: u32,
    esc: u32,
) -> (Model, u32, u32, u32)
    decreases n,
{
    if n == 0 {
        (m, s, sum, esc)
    } else {
        let t = s.wrapping_add(STATE);
        let f = ((freq(m, t) + adder) / 2) as u32;
        let a = set_freq(m, t, f);
        let b = if freq(a, t) > freq(a, s) {
            let state = arena::state_at(a.base, t);
            let (x, at) = sink(a, t, first, state[1] as u32);
            Model { base: arena::with_state(x.base, at, state), ..x }
        } else {
            a
        };
        halve(
            b,
            t,
            first,
            (n - 1) as u32,
            adder,
            sum.wrapping_add(freq(a, t)),
            esc.wrapping_sub(freq(m, t)),
        )
    }
}

/// How many of the states up to `s` have no frequency left, at least one.
pub open spec fn worn_out(m: Model, s: u32, i: u32, n: u32) -> u32
    decreases n,
{
    if n == 0 || freq(m, s.wrapping_sub(STATE)) != 0 {
        (i + 1) as u32
    } else {
        worn_out(m, s.wrapping_sub(STATE), (i + 1) as u32, (n - 1) as u32)
    }
}

/// The frequency of the only symbol left.
pub open spec fn halved_alone(f: u32, esc: u32) -> u32
    decreases esc,
{
    let g = (f - f / 2) as u32;
    if esc / 2 <= 1 {
        g
    } else {
        halved_alone(g, esc / 2)
    }
}

/// Halve the frequencies of the context, the symbol found first.
#[verifier::opaque]
pub open spec fn rescale(m: Model) -> Model {
    let mc = m.min_context;
    let first = stats(m, mc);
    let state = arena::state_at(m.base, m.found_state);
    let a = if m.found_state > first {
        let x = shift_states(m, m.found_state, first);
        Model { base: arena::with_state(x.base, first, state), ..x }
    } else {
        m
    };
    let esc0 = summ_freq(a, mc).wrapping_sub(freq(a, first));
    let adder = flag(a.order_fall != 0);
    let b = set_freq(a, first, (freq(a, first) + 4) as u32);
    let d = set_freq(b, first, ((freq(b, first) + adder) / 2) as u32);
    let n = num_stats(d, mc).wrapping_sub(1);
    let (e, last, sum, esc) = halve(d, first, first, n, adder, freq(d, first), esc0);
    if freq(e, last) == 0 {
        let gone = worn_out(e, last, 0, 256);
        let left = num_stats(e, mc).wrapping_sub(gone);
        let g = set_num_stats(e, mc, left);
        let esc1 = esc.wrapping_add(gone);
        let n0 = ((num_stats(e, mc) + 1) / 2) as u32;
        if left == 1 {
            let f = halved_alone(freq(g, first), esc1);
            let one = one_state(mc);
            insert_node(
                Model { found_state: one, ..set_freq(copy_state(g, one, first), one, f) },
                first,
                arena::index_of(n0),
            )
        } else {
            let n1 = left.wrapping_add(1) / 2;
            let h = if n0 != n1 {
                let (x, at) = shrink_units(g, first, n0, n1);
                set_stats(x, mc, at)
            } else {
                g
            };
            settle(h, sum, esc1)
        }
    } else {
        settle(e, sum, esc)
    }
}

/// Give the context its new sum.
pub open spec fn settle(m: Model, sum: u32, esc: u32) -> Model {
    let a = set_summ_freq(
        m,
        m.min_context,
        sum.wrapping_add(esc).wrapping_sub(esc / 2),
    );
    Model { found_state: stats(a, a.min_context), ..a }
}

/// The class of a number of symbols: `i` below three, then each class one
/// longer than the one before. What comes back with it is how many of the
/// class are left.
pub open spec fn class_at(i: int) -> (int, int)
    decreases i,
{
    if i <= 3 {
        (3, 1)
    } else {
        let (m, k) = class_at(i - 1);
        if k <= 1 {
            (m + 1, m - 1)
        } else {
            (m, k - 1)
        }
    }
}

pub open spec fn ns2indx(i: int) -> int {
    if i < 3 {
        i
    } else {
        class_at(i).0
    }
}

/// The escape estimate that a context uses, by its place, if it uses one.
#[verifier::opaque]
pub open spec fn see_index(m: Model, num_masked: u32) -> Option<int> {
    let mc = m.min_context;
    let ns = num_stats(m, mc);
    if ns == 256 {
        None
    } else {
        let rest = if ns > num_masked {
            ns - num_masked
        } else {
            1
        };
        let row = ns2indx(
            if rest - 1 < 255 {
                rest - 1
            } else {
                255
            },
        );
        let shorter = num_stats(m, suffix(m, mc)).wrapping_sub(ns);
        let column = flag(rest < shorter) + 2 * flag(summ_freq(m, mc) < 11 * ns) + 4 * flag(
            num_masked > rest,
        ) + m.hi_bits_flag;
        let i = 16 * row + column;
        if 0 <= i < 400 {
            Some(i)
        } else {
            None
        }
    }
}

/// What is set aside for leaving the context.
pub open spec fn escape(m: Model, at: Option<int>) -> u32 {
    match at {
        Some(i) => arena::see_mean(m.see[i]),
        None => 1,
    }
}

pub open spec fn see_used(m: Model, at: Option<int>) -> Model {
    match at {
        Some(i) => Model { see: m.see.update(i, arena::see_used(m.see[i])), ..m },
        None => m,
    }
}

pub open spec fn see_updated(m: Model, at: Option<int>) -> Model {
    match at {
        Some(i) => Model { see: m.see.update(i, arena::see_updated(m.see[i])), ..m },
        None => m,
    }
}

pub open spec fn see_added(m: Model, at: Option<int>, v: u32) -> Model {
    match at {
        Some(i) => Model {
            see: m.see.update(
                i,
                See { summ: m.see[i].summ.wrapping_add(v as u16), ..m.see[i] },
            ),
            ..m
        },
        None => m,
    }
}

/// Go on to the next context.
#[verifier::opaque]
pub open spec fn next_context(m: Model) -> Model {
    let c = successor(m, m.found_state);
    if m.order_fall == 0 && c > m.text {
        Model { min_context: c, max_context: c, ..m }
    } else {
        update_model(m)
    }
}

/// A symbol found in a context, and not first.
#[verifier::opaque]
pub open spec fn update1(m: Model) -> Model {
    let s = m.found_state;
    let a = set_freq(m, s, (freq(m, s) + 4) as u32);
    let b = set_summ_freq(a, a.min_context, (summ_freq(a, a.min_context) + 4) as u32);
    let before = s.wrapping_sub(STATE);
    if freq(b, s) > freq(b, before) {
        let d = Model { found_state: before, ..swap_states(b, s, before) };
        next_context(
            if freq(d, before) > MAX_FREQ {
                rescale(d)
            } else {
                d
            },
        )
    } else {
        next_context(b)
    }
}

/// The first symbol of a context found.
#[verifier::opaque]
pub open spec fn update1_0(m: Model) -> Model {
    let s = m.found_state;
    let mc = m.min_context;
    let success = flag(2 * freq(m, s) > summ_freq(m, mc));
    let a = Model {
        prev_success: success,
        run_length: m.run_length.wrapping_add(success as i32),
        ..m
    };
    let b = set_summ_freq(a, mc, (summ_freq(a, mc) + 4) as u32);
    let d = set_freq(b, s, (freq(b, s) + 4) as u32);
    next_context(
        if freq(d, s) > MAX_FREQ {
            rescale(d)
        } else {
            d
        },
    )
}

/// The symbol of a context of one found.
#[verifier::opaque]
pub open spec fn update_bin(m: Model) -> Model {
    let s = m.found_state;
    let f = freq(m, s);
    let a = set_freq(m, s, (f + flag(f < 128)) as u32);
    next_context(
        Model { prev_success: 1, run_length: a.run_length.wrapping_add(1), ..a },
    )
}

/// A symbol found after escapes.
#[verifier::opaque]
pub open spec fn update2(m: Model) -> Model {
    let s = m.found_state;
    let a = set_freq(m, s, (freq(m, s) + 4) as u32);
    let b = set_summ_freq(a, a.min_context, (summ_freq(a, a.min_context) + 4) as u32);
    let d = if freq(b, s) > MAX_FREQ {
        rescale(b)
    } else {
        b
    };
    update_model(Model { run_length: d.init_rl, ..d })
}

/// Whether a symbol is a high one.
pub open spec fn hb2flag(symbol: u8) -> u32 {
    if symbol >= 0x40 {
        8
    } else {
        0
    }
}

/// The class of a number of symbols less one.
pub open spec fn ns2bs_indx(n: u32) -> u32 {
    if n == 0 {
        0
    } else if n == 1 {
        2
    } else if n < 11 {
        4
    } else {
        6
    }
}

/// The estimate that a context of one symbol uses, by its place.
#[verifier::opaque]
pub open spec fn bin_index(m: Model) -> int {
    let mc = m.min_context;
    let one = one_state(mc);
    let run = if m.run_length < 0 {
        0x20int
    } else {
        0
    };
    64 * (freq(m, one) - 1) + m.prev_success + ns2bs_indx(
        num_stats(m, suffix(m, mc)).wrapping_sub(1),
    ) + m.hi_bits_flag + 2 * hb2flag(sym(m, one)) + run
}

/// Which symbols have been escaped from.
pub open spec fn none_masked() -> Seq<bool> {
    Seq::new(256, |i: int| false)
}

/// With the symbols of `n` states masked.
pub open spec fn mask_states(m: Model, mask: Seq<bool>, s: u32, n: u32) -> Seq<bool>
    decreases n,
{
    if n == 0 {
        mask
    } else {
        mask_states(
            m,
            mask.update(sym(m, s) as int, true),
            s.wrapping_add(STATE),
            (n - 1) as u32,
        )
    }
}

/// The state in whose interval `count` lies, of up to `n` after `s`, and what
/// `count` is past it; past all of them if it lies in none.
pub open spec fn seek(m: Model, s: u32, count: u32, n: u32) -> (Option<u32>, u32)
    decreases n,
{
    if n == 0 {
        (None, count)
    } else {
        let t = s.wrapping_add(STATE);
        let left = count.wrapping_sub(freq(m, t));
        if left >= 0x8000_0000 {
            (Some(t), left)
        } else {
            seek(m, t, left, (n - 1) as u32)
        }
    }
}

/// Follow shorter contexts to one that knows other symbols: the context, the
/// order fallen to, and whether there is one.
pub enum Fallen {
    /// A context that knows more.
    To(u32, u32),
    /// There is no shorter context.
    End(u32),
    /// The contexts do not end.
    Bad(u32),
}

pub open spec fn fall(m: Model, mc: u32, num_masked: u32, order: u32, fuel: nat) -> Fallen
    decreases fuel,
{
    let order = order.wrapping_add(1);
    if fuel == 0 {
        Fallen::Bad(order)
    } else if suffix(m, mc) == 0 {
        Fallen::End(order)
    } else {
        let d = suffix(m, mc);
        if num_stats(m, d) != num_masked {
            Fallen::To(d, order)
        } else {
            fall(m, d, num_masked, order, (fuel - 1) as nat)
        }
    }
}

/// The states of symbols not yet escaped from, up to `wanted` of them among
/// `n`.
pub open spec fn unmasked(
    m: Model,
    mask: Seq<bool>,
    s: u32,
    n: u32,
    found: Seq<u32>,
    wanted: nat,
) -> Option<Seq<u32>>
    decreases n,
{
    if found.len() >= wanted {
        Some(found)
    } else if n == 0 {
        None
    } else {
        unmasked(
            m,
            mask,
            s.wrapping_add(STATE),
            (n - 1) as u32,
            if mask[sym(m, s) as int] {
                found
            } else {
                found.push(s)
            },
            wanted,
        )
    }
}

/// The sum of the frequencies of states.
pub open spec fn freqs(m: Model, ps: Seq<u32>) -> u32
    decreases ps.len(),
{
    if ps.len() == 0 {
        0
    } else {
        freqs(m, ps.drop_last()).wrapping_add(freq(m, ps.last()))
    }
}

/// The state in whose interval `count` lies, and where that interval ends.
pub open spec fn pick(m: Model, ps: Seq<u32>, at: int, acc: u32, count: u32) -> (u32, u32)
    decreases ps.len() - at,
{
    if at >= ps.len() {
        (0, acc)
    } else {
        let end = acc.wrapping_add(freq(m, ps[at]));
        if end > count || at + 1 >= ps.len() {
            (ps[at], end)
        } else {
            pick(m, ps, at + 1, end, count)
        }
    }
}

/// With the symbols of some states masked.
pub open spec fn mask_picked(m: Model, mask: Seq<bool>, ps: Seq<u32>, i: int) -> Seq<bool>
    decreases ps.len() - i,
{
    if i >= ps.len() {
        mask
    } else {
        mask_picked(m, mask.update(sym(m, ps[i]) as int, true), ps, i + 1)
    }
}

/// Find a symbol in shorter contexts.
pub open spec fn escaped(m: Model, mask: Seq<bool>, fuel: nat) -> (Model, i32)
    decreases fuel,
{
    let num_masked = num_stats(m, m.min_context);
    match fall(m, m.min_context, num_masked, m.order_fall, m.base.len()) {
        Fallen::End(order) => (Model { order_fall: order, ..m }, SYM_END),
        Fallen::Bad(order) => (Model { order_fall: order, ..m }, SYM_ERROR),
        Fallen::To(mc, order) => {
            let a = Model { order_fall: order, min_context: mc, ..m };
            if num_stats(a, mc) <= num_masked || fuel == 0 {
                (a, SYM_ERROR)
            } else {
                let wanted = (num_stats(a, mc) - num_masked) as nat;
                match unmasked(a, mask, stats(a, mc), num_stats(a, mc), Seq::empty(), wanted) {
                    None => (a, SYM_ERROR),
                    Some(ps) => {
                        let hi = freqs(a, ps);
                        let at = see_index(a, num_masked);
                        let total = escape(a, at).wrapping_add(hi);
                        let b = see_used(a, at);
                        let count = range::part(b.rc, total);
                        let d = Model { rc: range::divided(b.rc, total), ..b };
                        if count < hi {
                            let (s, end) = pick(d, ps, 0, 0, count);
                            let f = freq(d, s);
                            let e = Model {
                                rc: range::taken(d.rc, end.wrapping_sub(f), f),
                                ..d
                            };
                            let g = Model { found_state: s, ..see_updated(e, at) };
                            (update2(g), sym(g, s) as i32)
                        } else if count >= total {
                            (d, SYM_ERROR)
                        } else {
                            let e = Model {
                                rc: range::taken(d.rc, hi, total.wrapping_sub(hi)),
                                ..d
                            };
                            let g = see_added(e, at, total);
                            escaped(g, mask_picked(g, mask, ps, 0), (fuel - 1) as nat)
                        }
                    },
                }
            }
        },
    }
}

/// A symbol in a context of several.
#[verifier::opaque]
pub open spec fn decode_many(m: Model) -> (Model, i32) {
    let mc = m.min_context;
    let s = stats(m, mc);
    let total = summ_freq(m, mc);
    let hi = range::part(m.rc, total);
    let a = Model { rc: range::divided(m.rc, total), ..m };
    let count = hi.wrapping_sub(freq(a, s));
    if count >= 0x8000_0000 {
        let b = Model { rc: range::taken(a.rc, 0, freq(a, s)), found_state: s, ..a };
        (update1_0(b), sym(b, s) as i32)
    } else {
        let b = Model { prev_success: 0, ..a };
        match seek(b, s, count, num_stats(b, mc).wrapping_sub(1)) {
            (Some(t), left) => {
                let f = freq(b, t);
                let d = Model {
                    rc: range::taken(b.rc, hi.wrapping_sub(left).wrapping_sub(f), f),
                    found_state: t,
                    ..b
                };
                (update1(d), sym(d, t) as i32)
            },
            (None, left) => if hi >= total {
                (b, SYM_ERROR)
            } else {
                let used = hi.wrapping_sub(left);
                let d = Model {
                    hi_bits_flag: hb2flag(sym(b, b.found_state)),
                    rc: range::taken(b.rc, used, total.wrapping_sub(used)),
                    ..b
                };
                escaped(
                    d,
                    mask_states(d, none_masked(), stats(d, mc), num_stats(d, mc)),
                    d.base.len(),
                )
            },
        }
    }
}

/// A symbol in a context of one.
#[verifier::opaque]
pub open spec fn decode_one(m: Model) -> (Model, i32) {
    let one = one_state(m.min_context);
    let a = Model { hi_bits_flag: hb2flag(sym(m, m.found_state)), ..m };
    let i = bin_index(a);
    if !(0 <= i < 8192) {
        (a, SYM_ERROR)
    } else {
        let pr = a.bin_summ[i] as u32;
        let mean = arena::mean_of(pr);
        let b = Model { rc: range::bit_taken(a.rc, pr), ..a };
        if a.rc.code < range::bound(a.rc, pr) {
            let d = Model {
                bin_summ: b.bin_summ.update(i, (pr + 128 - mean) as u16),
                found_state: one,
                ..b
            };
            (update_bin(d), sym(d, one) as i32)
        } else {
            let left = (pr - mean) as u32;
            let d = Model {
                bin_summ: b.bin_summ.update(i, left as u16),
                init_esc: arena::escape_cost(left),
                prev_success: 0,
                ..b
            };
            escaped(d, none_masked().update(sym(d, one) as int, true), d.base.len())
        }
    }
}

/// Decode a symbol: the model that learned it, and the symbol, or one of the
/// two codes for an end and for an error.
pub open spec fn decoded(m: Model) -> (Model, i32) {
    if num_stats(m, m.min_context) != 1 {
        decode_many(m)
    } else {
        decode_one(m)
    }
}

/// A model that has seen nothing.
pub open spec fn fresh(rc: Coder, mem_size: u32, max_order: u32) -> Model {
    let align_offset = (4 - mem_size % 4) as u32;
    restart(
        Model {
            rc,
            base: Seq::new((align_offset + mem_size + UNIT_SIZE) as nat, |i: int| 0u8),
            size: mem_size,
            align_offset,
            min_context: 0,
            max_context: 0,
            found_state: 0,
            order_fall: 0,
            init_esc: 0,
            prev_success: 0,
            max_order,
            hi_bits_flag: 0,
            run_length: 0,
            init_rl: 0,
            glue_count: 0,
            lo_unit: 0,
            hi_unit: 0,
            text: 0,
            units_start: 0,
            free_list: Seq::new(INDEXES as nat, |i: int| 0u32),
            see: fresh_see(),
            bin_summ: fresh_bins(),
        },
    )
}

} // verus!
