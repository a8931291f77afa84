//! The var. H model.
use crate::codecs::ppmd::arena;
use crate::codecs::ppmd::arena::{
    cost_of_escape, mean, Arena, See, Sizes, INDEXES, INIT_BIN_ESC, STATE, UNIT_SIZE,
};
use crate::codecs::ppmd::h::range;
use crate::codecs::ppmd::h::range::{RangeDecoder, BIN_SCALE};
use crate::codecs::ppmd::h::rules;
use crate::codecs::ppmd::h::rules::{Climb, Fallen, Model, MAX_FREQ, MAX_ORDER, SYM_END, SYM_ERROR};
use crate::utils::error::{Error, Result};
use vstd::prelude::*;

verus! {

/// The shortest maximal context.
pub const MIN_ORDER: u32 = 2;

/// A var. H model that decodes.
pub struct Ppmd7 {
    rc: RangeDecoder,
    arena: Arena,
    size: u32,
    align_offset: u32,
    min_context: u32,
    max_context: u32,
    found_state: u32,
    order_fall: u32,
    init_esc: u32,
    prev_success: u32,
    max_order: u32,
    hi_bits_flag: u32,
    run_length: i32,
    init_rl: i32,
    glue_count: u32,
    lo_unit: u32,
    hi_unit: u32,
    text: u32,
    units_start: u32,
    sizes: Sizes,
    free_list: Vec<u32>,
    ns2indx: Vec<u8>,
    see: Vec<See>,
    bin_summ: Vec<u16>,
}

impl View for Ppmd7 {
    type V = Model;

    closed spec fn view(&self) -> Model {
        Model {
            rc: self.rc@,
            base: self.arena@,
            size: self.size,
            align_offset: self.align_offset,
            min_context: self.min_context,
            max_context: self.max_context,
            found_state: self.found_state,
            order_fall: self.order_fall,
            init_esc: self.init_esc,
            prev_success: self.prev_success,
            max_order: self.max_order,
            hi_bits_flag: self.hi_bits_flag,
            run_length: self.run_length,
            init_rl: self.init_rl,
            glue_count: self.glue_count,
            lo_unit: self.lo_unit,
            hi_unit: self.hi_unit,
            text: self.text,
            units_start: self.units_start,
            free_list: self.free_list@,
            see: self.see@,
            bin_summ: self.bin_summ@,
        }
    }
}

/// One for what holds, zero for what does not.
fn flag(b: bool) -> (r: u32)
    ensures
        r == rules::flag(b),
{
    if b {
        1
    } else {
        0
    }
}

/// Whether a symbol is a high one.
fn hb2flag(symbol: u8) -> (r: u32)
    ensures
        r == rules::hb2flag(symbol),
{
    if symbol >= 0x40 {
        8
    } else {
        0
    }
}

/// The class of a number of symbols less one.
fn ns2bs_indx(n: u32) -> (r: u32)
    ensures
        r == rules::ns2bs_indx(n),
{
    if n == 0 {
        0
    } else if n == 1 {
        2
    } else if n < 11 {
        4
    } else {
        6
    }
}

/// `n` states on.
fn nth(s: u32, n: u32) -> (r: u32)
    ensures
        r == rules::nth(s, n),
{
    s.wrapping_add(n.wrapping_mul(STATE))
}

/// The state of a context of one symbol.
fn one_state(c: u32) -> (r: u32)
    ensures
        r == rules::one_state(c),
{
    c.wrapping_add(2)
}

proof fn lemma_class(i: int)
    requires
        3 <= i <= 300,
    ensures
        3 <= rules::class_at(i).0 <= i,
        1 <= rules::class_at(i).1 <= rules::class_at(i).0,
    decreases i,
{
    if i > 3 {
        lemma_class(i - 1);
    }
}

/// How much a new symbol is given in a context, and how much the sum grows.
fn share(sum: u32, s0: u32, f: u32) -> (r: (u32, u32))
    requires
        sum <= 0xffff,
        s0 <= 0xffff,
        f <= 0xff,
    ensures
        r == rules::share(sum, s0, f),
        r.0 <= 7,
        r.1 <= 7,
{
    reveal(rules::share);
    proof {
        assert(2 * f * (sum + 6) <= 2 * 0xff * 0x10005) by (nonlinear_arith)
            requires
                sum <= 0xffff,
                f <= 0xff,
        ;
    }
    let cf: u32 = 2 * f * (sum + 6);
    let sf: u32 = s0 + sum;
    if cf < 6 * sf {
        (1 + flag(cf > sf) + flag(cf >= 4 * sf), 3)
    } else {
        let x: u32 = 4 + flag(cf >= 9 * sf) + flag(cf >= 12 * sf) + flag(cf >= 15 * sf);
        (x, x)
    }
}

/// The frequency of the only symbol left.
fn halved_alone(f: u32, esc: u32) -> (r: u32)
    ensures
        r == rules::halved_alone(f, esc),
{
    let mut g: u32 = f;
    let mut left: u32 = esc;
    loop
        invariant
            rules::halved_alone(f, esc) == rules::halved_alone(g, left),
        decreases left,
    {
        g = g - g / 2;
        left = left / 2;
        if left <= 1 {
            return g;
        }
    }
}

impl Ppmd7 {
    /// The tables are whole.
    pub closed spec fn wf(&self) -> bool {
        &&& self.sizes.wf()
        &&& self.free_list@.len() == INDEXES
        &&& self.see@.len() == 400
        &&& forall|i: int| 0 <= i < 400 ==> (#[trigger] self.see@[i]).shift <= 7
        &&& self.bin_summ@.len() == 8192
        &&& self.ns2indx@.len() == 256
        &&& forall|i: int| 0 <= i < 256 ==> #[trigger] self.ns2indx@[i] == rules::ns2indx(i)
        &&& self.max_order <= MAX_ORDER
    }

    fn num_stats(&self, c: u32) -> (r: u32)
        ensures
            r == rules::num_stats(self@, c),
    {
        self.arena.u16_at(c) as u32
    }

    fn summ_freq(&self, c: u32) -> (r: u32)
        ensures
            r == rules::summ_freq(self@, c),
    {
        self.arena.u16_at(c.wrapping_add(2)) as u32
    }

    fn stats(&self, c: u32) -> (r: u32)
        ensures
            r == rules::stats(self@, c),
    {
        self.arena.u32_at(c.wrapping_add(4))
    }

    fn suffix(&self, c: u32) -> (r: u32)
        ensures
            r == rules::suffix(self@, c),
    {
        self.arena.u32_at(c.wrapping_add(8))
    }

    fn sym(&self, s: u32) -> (r: u8)
        ensures
            r == rules::sym(self@, s),
    {
        self.arena.u8_at(s)
    }

    fn freq(&self, s: u32) -> (r: u32)
        ensures
            r == rules::freq(self@, s),
    {
        self.arena.u8_at(s.wrapping_add(1)) as u32
    }

    fn successor(&self, s: u32) -> (r: u32)
        ensures
            r == rules::successor(self@, s),
    {
        self.arena.u32_at(s.wrapping_add(2))
    }

    fn node_stamp(&self, n: u32) -> (r: u32)
        ensures
            r == rules::node_stamp(self@, n),
    {
        self.arena.u16_at(n) as u32
    }

    fn node_nu(&self, n: u32) -> (r: u32)
        ensures
            r == rules::node_nu(self@, n),
    {
        self.arena.u16_at(n.wrapping_add(2)) as u32
    }

    fn node_next(&self, n: u32) -> (r: u32)
        ensures
            r == rules::node_next(self@, n),
    {
        self.arena.u32_at(n.wrapping_add(4))
    }

    fn node_prev(&self, n: u32) -> (r: u32)
        ensures
            r == rules::node_prev(self@, n),
    {
        self.arena.u32_at(n.wrapping_add(8))
    }

    fn set_u8(&mut self, at: u32, v: u8)
        requires
            old(self).wf(),
        ensures
            final(self).wf(),
            final(self)@ == rules::set_u8(old(self)@, at, v),
    {
        self.arena.set_u8(at, v);
    }

    fn set_u16(&mut self, at: u32, v: u32)
        requires
            old(self).wf(),
        ensures
            final(self).wf(),
            final(self)@ == rules::set_u16(old(self)@, at, v),
    {
        self.arena.set_u16(at, #[verifier::truncate] (v as u16));
    }

    fn set_u32(&mut self, at: u32, v: u32)
        requires
            old(self).wf(),
        ensures
            final(self).wf(),
            final(self)@ == rules::set_u32(old(self)@, at, v),
    {
        self.arena.set_u32(at, v);
    }

    fn set_num_stats(&mut self, c: u32, v: u32)
        requires
            old(self).wf(),
        ensures
            final(self).wf(),
            final(self)@ == rules::set_num_stats(old(self)@, c, v),
    {
        self.set_u16(c, v);
    }

    fn set_summ_freq(&mut self, c: u32, v: u32)
        requires
            old(self).wf(),
        ensures
            final(self).wf(),
            final(self)@ == rules::set_summ_freq(old(self)@, c, v),
    {
        self.set_u16(c.wrapping_add(2), v);
    }

    fn set_stats(&mut self, c: u32, v: u32)
        requires
            old(self).wf(),
        ensures
            final(self).wf(),
            final(self)@ == rules::set_stats(old(self)@, c, v),
    {
        self.set_u32(c.wrapping_add(4), v);
    }

    fn set_suffix(&mut self, c: u32, v: u32)
        requires
            old(self).wf(),
        ensures
            final(self).wf(),
            final(self)@ == rules::set_suffix(old(self)@, c, v),
    {
        self.set_u32(c.wrapping_add(8), v);
    }

    fn set_freq(&mut self, s: u32, v: u32)
        requires
            old(self).wf(),
        ensures
            final(self).wf(),
            final(self)@ == rules::set_freq(old(self)@, s, v),
    {
        self.set_u8(s.wrapping_add(1), #[verifier::truncate] (v as u8));
    }

    fn set_successor(&mut self, s: u32, v: u32)
        requires
            old(self).wf(),
        ensures
            final(self).wf(),
            final(self)@ == rules::set_successor(old(self)@, s, v),
    {
        self.set_u32(s.wrapping_add(2), v);
    }

    fn set_node_stamp(&mut self, n: u32, v: u32)
        requires
            old(self).wf(),
        ensures
            final(self).wf(),
            final(self)@ == rules::set_node_stamp(old(self)@, n, v),
    {
        self.set_u16(n, v);
    }

    fn set_node_nu(&mut self, n: u32, v: u32)
        requires
            old(self).wf(),
        ensures
            final(self).wf(),
            final(self)@ == rules::set_node_nu(old(self)@, n, v),
    {
        self.set_u16(n.wrapping_add(2), v);
    }

    fn set_node_next(&mut self, n: u32, v: u32)
        requires
            old(self).wf(),
        ensures
            final(self).wf(),
            final(self)@ == rules::set_node_next(old(self)@, n, v),
    {
        self.set_u32(n.wrapping_add(4), v);
    }

    fn set_node_prev(&mut self, n: u32, v: u32)
        requires
            old(self).wf(),
        ensures
            final(self).wf(),
            final(self)@ == rules::set_node_prev(old(self)@, n, v),
    {
        self.set_u32(n.wrapping_add(8), v);
    }

    fn copy_state(&mut self, dest: u32, src: u32)
        requires
            old(self).wf(),
        ensures
            final(self).wf(),
            final(self)@ == rules::copy_state(old(self)@, dest, src),
    {
        self.arena.copy(dest, src, STATE);
    }

    fn copy_units(&mut self, dest: u32, src: u32, nu: u32)
        requires
            old(self).wf(),
        ensures
            final(self).wf(),
            final(self)@ == rules::copy_units(old(self)@, dest, src, nu),
    {
        self.arena.copy(dest, src, nu.wrapping_mul(UNIT_SIZE));
    }

    fn swap_states(&mut self, x: u32, y: u32)
        requires
            old(self).wf(),
        ensures
            final(self).wf(),
            final(self)@ == rules::swap_states(old(self)@, x, y),
    {
        self.arena.swap_states(x, y);
    }

    fn insert_node(&mut self, node: u32, index: usize)
        requires
            old(self).wf(),
        ensures
            final(self).wf(),
            final(self)@ == rules::insert_node(old(self)@, node, index as int),
    {
        if index < INDEXES {
            let next: u32 = self.free_list[index];
            self.arena.set_u32(node, next);
            self.free_list.set(index, node);
        }
    }

    fn first_free(&self, index: usize) -> (r: u32)
        requires
            self.wf(),
        ensures
            r == rules::first_free(self@, index as int),
    {
        if index < INDEXES {
            self.free_list[index]
        } else {
            0
        }
    }

    /// Take the first block of a size out of its list.
    fn remove_node(&mut self, index: usize) -> (r: u32)
        requires
            old(self).wf(),
        ensures
            final(self).wf(),
            final(self)@ == rules::remove_node(old(self)@, index as int),
            r == rules::first_free(old(self)@, index as int),
    {
        if index < INDEXES {
            let node: u32 = self.free_list[index];
            let next: u32 = self.arena.u32_at(node);
            self.free_list.set(index, next);
            node
        } else {
            0
        }
    }

    /// Put up to 128 units into the lists.
    fn place_units(&mut self, at: u32, nu: u32)
        requires
            old(self).wf(),
        ensures
            final(self).wf(),
            final(self)@ == rules::place_units(old(self)@, at, nu),
    {
        reveal(rules::place_units);
        let mut i: usize = self.sizes.index_of(nu);
        if self.sizes.units_of(i) != nu {
            i = if i > 0 {
                i - 1
            } else {
                0
            };
            let k: u32 = self.sizes.units_of(i);
            let rest: u32 = nu.wrapping_sub(k).wrapping_sub(1);
            self.insert_node(at.wrapping_add(k.wrapping_mul(UNIT_SIZE)), rest as usize);
        }
        self.insert_node(at, i);
    }

    fn split_block(&mut self, ptr: u32, old_index: usize, new_index: usize)
        requires
            old(self).wf(),
        ensures
            final(self).wf(),
            final(self)@ == rules::split_block(
                old(self)@,
                ptr,
                old_index as int,
                new_index as int,
            ),
    {
        let used: u32 = self.sizes.units_of(new_index);
        let nu: u32 = self.sizes.units_of(old_index).wrapping_sub(used);
        self.place_units(ptr.wrapping_add(used.wrapping_mul(UNIT_SIZE)), nu);
    }

    /// Link the blocks of one list in front of `n`.
    fn link_list(&mut self, nu: u32, first: u32, n: u32) -> (r: u32)
        requires
            old(self).wf(),
        ensures
            final(self).wf(),
            (final(self)@, r) == rules::link_list(
                old(self)@,
                nu,
                first,
                n,
                old(self)@.base.len(),
            ),
            final(self)@.base.len() == old(self)@.base.len(),
    {
        let mut n: u32 = n;
        let mut next: u32 = first;
        let mut fuel: usize = self.arena.len();
        let ghost whole = rules::link_list(self@, nu, first, n, fuel as nat);
        while next != 0 && fuel > 0
            invariant
                self.wf(),
                whole == rules::link_list(self@, nu, next, n, fuel as nat),
                self@.base.len() == old(self)@.base.len(),
            decreases fuel,
        {
            let node: u32 = next;
            self.set_node_next(node, n);
            self.set_node_prev(n, node);
            n = node;
            next = self.arena.u32_at(node);
            self.set_node_stamp(node, 0);
            self.set_node_nu(node, nu);
            fuel = fuel - 1;
        }
        n
    }

    /// Link the blocks of all lists and empty the lists.
    fn link_all(&mut self, head: u32) -> (r: u32)
        requires
            old(self).wf(),
        ensures
            final(self).wf(),
            (final(self)@, r) == rules::link_all(old(self)@, 0, head),
    {
        let mut n: u32 = head;
        let mut i: usize = 0;
        let ghost whole = rules::link_all(self@, 0, head);
        while i < INDEXES
            invariant
                self.wf(),
                i <= INDEXES,
                whole == rules::link_all(self@, i as int, n),
            decreases INDEXES - i,
        {
            let nu: u32 = self.sizes.units_of(i);
            let first: u32 = self.free_list[i];
            self.free_list.set(i, 0);
            n = self.link_list(nu, first, n);
            i = i + 1;
        }
        n
    }

    /// Join a free block with those right behind it.
    fn join(&mut self, n: u32)
        requires
            old(self).wf(),
        ensures
            final(self).wf(),
            final(self)@ == rules::join(
                old(self)@,
                n,
                rules::node_nu(old(self)@, n),
                old(self)@.base.len(),
            ),
            final(self)@.base.len() == old(self)@.base.len(),
    {
        let mut nu: u32 = self.node_nu(n);
        let mut fuel: usize = self.arena.len();
        let ghost whole = rules::join(self@, n, nu, fuel as nat);
        while fuel > 0
            invariant
                self.wf(),
                whole == rules::join(self@, n, nu, fuel as nat),
                self@.base.len() == old(self)@.base.len(),
                whole == rules::join(
                    old(self)@,
                    n,
                    rules::node_nu(old(self)@, n),
                    old(self)@.base.len(),
                ),
            decreases fuel,
        {
            let after: u32 = n.wrapping_add(nu.wrapping_mul(UNIT_SIZE));
            let sum: u32 = nu.wrapping_add(self.node_nu(after));
            if self.node_stamp(after) != 0 || sum >= 0x10000 {
                return;
            }
            let prev: u32 = self.node_prev(after);
            let next: u32 = self.node_next(after);
            self.set_node_next(prev, next);
            self.set_node_prev(next, prev);
            self.set_node_nu(n, sum);
            nu = sum;
            fuel = fuel - 1;
        }
    }

    /// Put a free block of any number of units into the lists.
    fn place_large(&mut self, at: u32, nu: u32)
        requires
            old(self).wf(),
        ensures
            final(self).wf(),
            final(self)@ == rules::place_large(old(self)@, at, nu),
    {
        let mut at: u32 = at;
        let mut nu: u32 = nu;
        let ghost whole = rules::place_large(self@, at, nu);
        while nu > 128
            invariant
                self.wf(),
                whole == rules::place_large(self@, at, nu),
            decreases nu,
        {
            self.insert_node(at, INDEXES - 1);
            nu = nu - 128;
            at = at.wrapping_add(128u32.wrapping_mul(UNIT_SIZE));
        }
        self.place_units(at, nu);
    }

    /// Join the free blocks that lie side by side.
    #[verifier::spinoff_prover]
    fn glue_free_blocks(&mut self)
        requires
            old(self).wf(),
        ensures
            final(self).wf(),
            final(self)@ == rules::glue_free_blocks(old(self)@),
    {
        reveal(rules::glue_free_blocks);
        let head: u32 = self.align_offset.wrapping_add(self.size);
        self.glue_count = 255;
        let mut n: u32 = self.link_all(head);
        self.set_node_stamp(head, 1);
        self.set_node_next(head, n);
        self.set_node_prev(n, head);
        if self.lo_unit != self.hi_unit {
            self.set_node_stamp(self.lo_unit, 1);
        }
        let mut fuel: usize = self.arena.len();
        let ghost joined = rules::join_all(self@, n, head, fuel as nat);
        while n != head && fuel > 0
            invariant
                self.wf(),
                joined == rules::join_all(self@, n, head, fuel as nat),
            decreases fuel,
        {
            self.join(n);
            n = self.node_next(n);
            fuel = fuel - 1;
        }
        n = self.node_next(head);
        fuel = self.arena.len();
        let ghost placed = rules::place_all(self@, n, head, fuel as nat);
        while n != head && fuel > 0
            invariant
                self.wf(),
                placed == rules::place_all(self@, n, head, fuel as nat),
            decreases fuel,
        {
            let next: u32 = self.node_next(n);
            let nu: u32 = self.node_nu(n);
            self.place_large(n, nu);
            n = next;
            fuel = fuel - 1;
        }
    }

    fn alloc_units_rare(&mut self, index: usize) -> (r: u32)
        requires
            old(self).wf(),
            index < INDEXES,
        ensures
            final(self).wf(),
            (final(self)@, r) == rules::alloc_units_rare(old(self)@, index as int),
    {
        reveal(rules::alloc_units_rare);
        if self.glue_count == 0 {
            self.glue_free_blocks();
            if self.first_free(index) != 0 {
                return self.remove_node(index);
            }
        }
        let mut i: usize = index + 1;
        let ghost size = rules::next_size(self@, index + 1);
        while i < INDEXES && self.first_free(i) == 0
            invariant
                self.wf(),
                i <= INDEXES,
                size == rules::next_size(self@, i as int),
            decreases INDEXES - i,
        {
            i = i + 1;
        }
        if i == INDEXES {
            let bytes: u32 = self.sizes.units_of(index).wrapping_mul(UNIT_SIZE);
            self.glue_count = self.glue_count.wrapping_sub(1);
            if self.units_start.wrapping_sub(self.text) > bytes {
                self.units_start = self.units_start.wrapping_sub(bytes);
                return self.units_start;
            }
            return 0;
        }
        let block: u32 = self.remove_node(i);
        self.split_block(block, i, index);
        block
    }

    fn alloc_units(&mut self, index: usize) -> (r: u32)
        requires
            old(self).wf(),
            index < INDEXES,
        ensures
            final(self).wf(),
            (final(self)@, r) == rules::alloc_units(old(self)@, index as int),
    {
        reveal(rules::alloc_units);
        if self.first_free(index) != 0 {
            return self.remove_node(index);
        }
        let bytes: u32 = self.sizes.units_of(index).wrapping_mul(UNIT_SIZE);
        if self.hi_unit.wrapping_sub(self.lo_unit) >= bytes {
            let at: u32 = self.lo_unit;
            self.lo_unit = self.lo_unit.wrapping_add(bytes);
            return at;
        }
        self.alloc_units_rare(index)
    }

    fn alloc_context(&mut self) -> (r: u32)
        requires
            old(self).wf(),
        ensures
            final(self).wf(),
            (final(self)@, r) == rules::alloc_context(old(self)@),
    {
        reveal(rules::alloc_context);
        if self.hi_unit != self.lo_unit {
            self.hi_unit = self.hi_unit.wrapping_sub(UNIT_SIZE);
            self.hi_unit
        } else if self.first_free(0) != 0 {
            self.remove_node(0)
        } else {
            self.alloc_units_rare(0)
        }
    }

    fn shrink_units(&mut self, at: u32, old_nu: u32, new_nu: u32) -> (r: u32)
        requires
            old(self).wf(),
        ensures
            final(self).wf(),
            (final(self)@, r) == rules::shrink_units(old(self)@, at, old_nu, new_nu),
    {
        reveal(rules::shrink_units);
        let i0: usize = self.sizes.index_of(old_nu);
        let i1: usize = self.sizes.index_of(new_nu);
        if i0 == i1 {
            return at;
        }
        if self.first_free(i1) != 0 {
            let ptr: u32 = self.remove_node(i1);
            self.copy_units(ptr, at, new_nu);
            self.insert_node(at, i0);
            ptr
        } else {
            self.split_block(at, i0, i1);
            at
        }
    }

    /// Forget everything.
    #[verifier::spinoff_prover]
    #[verifier::rlimit(40)]
    fn restart(&mut self)
        requires
            old(self).sizes.wf(),
            old(self).ns2indx@.len() == 256,
            forall|i: int| 0 <= i < 256 ==> #[trigger] old(self).ns2indx@[i] == rules::ns2indx(i),
            old(self).max_order <= MAX_ORDER,
        ensures
            final(self).wf(),
            final(self)@ == rules::restart(old(self)@),
    {
        reveal(rules::restart);
        self.free_list = vec![0; INDEXES];
        self.text = self.align_offset;
        let top: u32 = self.align_offset.wrapping_add(self.size);
        self.units_start = top.wrapping_sub(
            (self.size / 8 / UNIT_SIZE).wrapping_mul(7).wrapping_mul(UNIT_SIZE),
        );
        let s: u32 = self.units_start;
        self.lo_unit = s.wrapping_add(128u32.wrapping_mul(UNIT_SIZE));
        self.hi_unit = top.wrapping_sub(UNIT_SIZE);
        self.glue_count = 0;
        self.order_fall = self.max_order;
        self.init_rl = if self.max_order < 12 {
            -1 - self.max_order as i32
        } else {
            -13
        };
        self.run_length = self.init_rl;
        self.prev_success = 0;
        let mc: u32 = self.hi_unit;
        self.max_context = mc;
        self.min_context = mc;
        self.found_state = s;
        let mut bins: Vec<u16> = Vec::with_capacity(8192);
        while bins.len() < 8192
            invariant
                bins.len() <= 8192,
                forall|j: int| 0 <= j < bins.len() ==> #[trigger] bins[j] == rules::fresh_bins()[j],
            decreases 8192 - bins.len(),
        {
            let j: usize = bins.len();
            let esc: u32 = INIT_BIN_ESC[j % 8] as u32;
            let parts: u32 = (j / 64) as u32 + 2;
            proof {
                assert(esc <= 0x6632) by {
                    assert(INIT_BIN_ESC[0] <= 0x6632 && INIT_BIN_ESC[1] <= 0x6632
                        && INIT_BIN_ESC[2] <= 0x6632 && INIT_BIN_ESC[3] <= 0x6632
                        && INIT_BIN_ESC[4] <= 0x6632 && INIT_BIN_ESC[5] <= 0x6632
                        && INIT_BIN_ESC[6] <= 0x6632 && INIT_BIN_ESC[7] <= 0x6632);
                }
                vstd::arithmetic::div_mod::lemma_div_is_ordered_by_denominator(
                    esc as int,
                    2,
                    parts as int,
                );
            }
            bins.push((BIN_SCALE - esc / parts) as u16);
        }
        self.bin_summ = bins;
        let mut see: Vec<See> = Vec::with_capacity(400);
        while see.len() < 400
            invariant
                see.len() <= 400,
                forall|j: int| 0 <= j < see.len() ==> #[trigger] see[j] == rules::fresh_see()[j],
            decreases 400 - see.len(),
        {
            let i: u32 = (see.len() / 16) as u32;
            see.push(See { summ: ((5 * i + 10) * 8) as u16, shift: 3, count: 4 });
        }
        self.see = see;
        proof {
            assert(self.free_list@ =~= Seq::new(INDEXES as nat, |i: int| 0u32));
            assert(self.bin_summ@ =~= rules::fresh_bins());
            assert(self.see@ =~= rules::fresh_see());
            assert forall|i: int| 0 <= i < 400 implies (#[trigger] self.see@[i]).shift <= 7 by {
                assert(self.see@[i] == rules::fresh_see()[i]);
            }
        }
        self.set_num_stats(mc, 256);
        self.set_summ_freq(mc, 257);
        self.set_stats(mc, s);
        self.set_suffix(mc, 0);
        let mut i: u32 = 0;
        let ghost whole = rules::fresh_states(self@, s, 0);
        while i < 256
            invariant
                self.wf(),
                i <= 256,
                whole == rules::fresh_states(self@, s, i),
            decreases 256 - i,
        {
            let at: u32 = nth(s, i);
            self.set_u8(at, i as u8);
            self.set_freq(at, 1);
            self.set_successor(at, 0);
            i = i + 1;
        }
    }

    /// The state of a symbol among `n` states.
    fn find(&self, s: u32, symbol: u8, n: u32) -> (r: Option<u32>)
        ensures
            r == rules::find(self@, s, symbol, n),
    {
        let mut t: u32 = s;
        let mut left: u32 = n;
        while left > 0
            invariant
                rules::find(self@, s, symbol, n) == rules::find(self@, t, symbol, left),
            decreases left,
        {
            if self.sym(t) == symbol {
                return Some(t);
            }
            t = t.wrapping_add(STATE);
            left = left - 1;
        }
        None
    }

    /// The frequency that the symbol of a new context starts with.
    fn inherited(&self, c: u32, symbol: u8) -> (r: Option<u32>)
        ensures
            r == rules::inherited(self@, c, symbol),
    {
        reveal(rules::inherited);
        let ns: u32 = self.num_stats(c);
        if ns == 1 {
            return Some(self.freq(one_state(c)));
        }
        match self.find(self.stats(c), symbol, ns) {
            None => None,
            Some(s) => {
                let f: u32 = self.freq(s);
                let sum: u32 = self.summ_freq(c);
                if f < 1 || sum < ns + (f - 1) {
                    return None;
                }
                let cf: u32 = f - 1;
                let s0: u32 = sum - ns - cf;
                if 2 * cf <= s0 {
                    Some(1 + flag(5 * cf > s0))
                } else if s0 == 0 {
                    None
                } else {
                    proof {
                        vstd::arithmetic::div_mod::lemma_div_is_ordered_by_denominator(
                            2 * cf + 3 * s0 - 1,
                            1,
                            2 * s0 as int,
                        );
                    }
                    Some(1 + (2 * cf + 3 * s0 - 1) / (2 * s0))
                }
            },
        }
    }

    /// Make the contexts that the symbol found leads to.
    #[verifier::spinoff_prover]
    #[verifier::rlimit(60)]
    fn create_successors(&mut self, skip: bool) -> (r: u32)
        requires
            old(self).wf(),
        ensures
            final(self).wf(),
            (final(self)@, r) == rules::create_successors(old(self)@, skip),
    {
        reveal(rules::create_successors);
        let up: u32 = self.successor(self.found_state);
        let mut c: u32 = self.min_context;
        let mut ps: Vec<u32> = Vec::new();
        if !skip {
            ps.push(self.found_state);
        }
        let symbol: u8 = self.sym(self.found_state);
        let mut fuel: usize = MAX_ORDER as usize + 1;
        proof {
            if skip {
                assert(ps@ =~= Seq::<u32>::empty());
            } else {
                assert(ps@ =~= seq![self.found_state]);
            }
        }
        let ghost whole = rules::climb(self@, c, ps@, up, fuel as nat);
        let mut climbing: bool = true;
        while climbing && self.suffix(c) != 0
            invariant
                self@ == old(self)@,
                self.wf(),
                symbol == rules::sym(self@, self@.found_state),
                up == rules::successor(self@, self@.found_state),
                climbing ==> whole == rules::climb(self@, c, ps@, up, fuel as nat),
                !climbing ==> whole == Climb::Make(c, ps@) && ps@.len() > 0,
                rules::create_successors(old(self)@, skip) == match whole {
                    Climb::Fail => (old(self)@, 0u32),
                    Climb::Found(x) => (old(self)@, x),
                    Climb::Make(x, all) => {
                        let symbol = arena::get8(old(self)@.base, up);
                        match rules::inherited(old(self)@, x, symbol) {
                            None => (old(self)@, 0u32),
                            Some(f) => rules::grow(
                                old(self)@,
                                x,
                                all,
                                symbol,
                                f,
                                up.wrapping_add(1),
                            ),
                        }
                    },
                },
            decreases fuel, (if climbing {
                1int
            } else {
                0
            }),
        {
            if fuel == 0 {
                return 0;
            }
            let d: u32 = self.suffix(c);
            let ns: u32 = self.num_stats(d);
            let s: u32 = if ns != 1 {
                match self.find(self.stats(d), symbol, ns) {
                    None => {
                        return 0;
                    },
                    Some(t) => t,
                }
            } else {
                one_state(d)
            };
            let next: u32 = self.successor(s);
            if next != up {
                if ps.len() == 0 {
                    return next;
                }
                c = next;
                climbing = false;
            } else if ps.len() >= MAX_ORDER as usize {
                return 0;
            } else {
                c = d;
                ps.push(s);
                fuel = fuel - 1;
            }
        }
        let symbol: u8 = self.arena.u8_at(up);
        let f: u32 = match self.inherited(c, symbol) {
            None => {
                return 0;
            },
            Some(f) => f,
        };
        let next: u32 = up.wrapping_add(1);
        let ghost grown = rules::grow(self@, c, ps@, symbol, f, next);
        while ps.len() > 0
            invariant
                self.wf(),
                grown == rules::grow(self@, c, ps@, symbol, f, next),
                grown == rules::create_successors(old(self)@, skip),
            decreases ps.len(),
        {
            let ghost all = ps@;
            let last: u32 = ps[ps.len() - 1];
            let c1: u32 = self.alloc_context();
            if c1 == 0 {
                return 0;
            }
            self.set_num_stats(c1, 1);
            let one: u32 = one_state(c1);
            self.set_u8(one, symbol);
            self.set_freq(one, f);
            self.set_successor(one, next);
            self.set_suffix(c1, c);
            self.set_successor(last, c1);
            let _ = ps.pop();
            assert(ps@ =~= all.drop_last());
            c = c1;
        }
        c
    }

    /// Count the symbol found in the next shorter context too. What comes
    /// back is whether it is there.
    fn count_shorter(&mut self) -> (r: bool)
        requires
            old(self).wf(),
        ensures
            final(self).wf(),
            match rules::count_shorter(old(self)@) {
                Some(m) => r && final(self)@ == m,
                None => !r && final(self)@ == old(self)@,
            },
    {
        reveal(rules::count_shorter);
        let symbol: u8 = self.sym(self.found_state);
        let c: u32 = self.suffix(self.min_context);
        if self.freq(self.found_state) >= MAX_FREQ / 4 || c == 0 {
            return true;
        }
        let ns: u32 = self.num_stats(c);
        if ns == 1 {
            let s: u32 = one_state(c);
            let f: u32 = self.freq(s);
            if f < 32 {
                self.set_freq(s, f + 1);
            }
            return true;
        }
        let first: u32 = self.stats(c);
        let mut s: u32 = match self.find(first, symbol, ns) {
            None => {
                return false;
            },
            Some(s) => s,
        };
        if s != first {
            let before: u32 = s.wrapping_sub(STATE);
            if self.freq(s) >= self.freq(before) {
                self.swap_states(s, before);
                s = before;
            }
        }
        let f: u32 = self.freq(s);
        if f < MAX_FREQ - 9 {
            self.set_freq(s, f + 2);
            let sum: u32 = self.summ_freq(c);
            self.set_summ_freq(c, sum + 2);
        }
        true
    }

    /// Make room for one more state in a context.
    #[verifier::spinoff_prover]
    fn make_room(&mut self, c: u32, ns: u32) -> (r: bool)
        requires
            old(self).wf(),
            ns <= 0xffff,
        ensures
            final(self).wf(),
            (final(self)@, r) == rules::make_room(old(self)@, c, ns),
    {
        reveal(rules::make_room);
        let ns1: u32 = self.num_stats(c);
        if ns1 != 1 {
            if ns1 % 2 == 0 {
                let old_nu: u32 = ns1 / 2;
                let i: usize = self.sizes.index_of(old_nu);
                if i != self.sizes.index_of(old_nu + 1) {
                    let ptr: u32 = self.alloc_units(i + 1);
                    if ptr == 0 {
                        return false;
                    }
                    let from: u32 = self.stats(c);
                    self.copy_units(ptr, from, old_nu);
                    self.insert_node(from, i);
                    self.set_stats(c, ptr);
                }
            }
            let sum: u32 = self.summ_freq(c);
            let bump: u32 = flag(2 * ns1 < ns) + 2 * flag(4 * ns1 <= ns && sum <= 8 * ns1);
            self.set_summ_freq(c, sum + bump);
            true
        } else {
            let ptr: u32 = self.alloc_units(0);
            if ptr == 0 {
                return false;
            }
            self.copy_state(ptr, one_state(c));
            self.set_stats(c, ptr);
            let f: u32 = self.freq(ptr);
            let f: u32 = if f < MAX_FREQ / 4 - 1 {
                2 * f
            } else {
                MAX_FREQ - 4
            };
            self.set_freq(ptr, f);
            self.set_summ_freq(c, f.wrapping_add(self.init_esc).wrapping_add(flag(ns > 3)));
            true
        }
    }

    /// Let the model learn the symbol found, once its successors are there.
    #[verifier::spinoff_prover]
    #[verifier::rlimit(60)]
    fn learn(&mut self, leads: u32, next: u32, f: u32, symbol: u8)
        requires
            old(self).wf(),
            f <= 0xff,
        ensures
            final(self).wf(),
            final(self)@ == rules::learn(old(self)@, leads, next, f, symbol),
    {
        reveal(rules::learn);
        let ns: u32 = self.num_stats(self.min_context);
        let sum: u32 = self.summ_freq(self.min_context);
        let own: u32 = if f > 0 {
            f - 1
        } else {
            0
        };
        if sum < ns + own {
            self.restart();
            return;
        }
        let s0: u32 = sum - ns - own;
        let mut c: u32 = self.max_context;
        let mut fuel: usize = self.arena.len();
        let ghost whole = rules::spread(self@, c, ns, s0, f, symbol, next, fuel as nat);
        while c != self.min_context
            invariant
                self.wf(),
                f <= 0xff,
                ns <= 0xffff,
                s0 <= 0xffff,
                whole == rules::spread(self@, c, ns, s0, f, symbol, next, fuel as nat),
                rules::learn(old(self)@, leads, next, f, symbol) == if whole.1 {
                    Model { max_context: leads, min_context: leads, ..whole.0 }
                } else {
                    rules::restart(whole.0)
                },
            decreases fuel,
        {
            if fuel == 0 {
                self.restart();
                return;
            }
            let ns1: u32 = self.num_stats(c);
            if !self.make_room(c, ns) {
                self.restart();
                return;
            }
            let sum: u32 = self.summ_freq(c);
            let (x, more) = share(sum, s0, f);
            self.set_summ_freq(c, sum + more);
            let s: u32 = nth(self.stats(c), ns1);
            self.set_successor(s, next);
            self.set_u8(s, symbol);
            self.set_freq(s, x);
            self.set_num_stats(c, ns1 + 1);
            c = self.suffix(c);
            fuel = fuel - 1;
        }
        self.max_context = leads;
        self.min_context = leads;
    }

    /// Let the model learn the symbol found.
    #[verifier::spinoff_prover]
    #[verifier::rlimit(60)]
    fn update_model(&mut self)
        requires
            old(self).wf(),
        ensures
            final(self).wf(),
            final(self)@ == rules::update_model(old(self)@),
    {
        reveal(rules::update_model);
        let leads: u32 = self.successor(self.found_state);
        let symbol: u8 = self.sym(self.found_state);
        let f: u32 = self.freq(self.found_state);
        if !self.count_shorter() {
            self.restart();
            return;
        }
        if self.order_fall == 0 {
            let cs: u32 = self.create_successors(true);
            if cs == 0 {
                self.restart();
                return;
            }
            self.min_context = cs;
            self.max_context = cs;
            self.set_successor(self.found_state, cs);
            return;
        }
        self.set_u8(self.text, symbol);
        self.text = self.text.wrapping_add(1);
        let text: u32 = self.text;
        if text >= self.units_start {
            self.restart();
            return;
        }
        if leads != 0 {
            let mut made: u32 = leads;
            if leads <= text {
                made = self.create_successors(false);
                if made == 0 {
                    self.restart();
                    return;
                }
            }
            self.order_fall = self.order_fall.wrapping_sub(1);
            if self.order_fall == 0 {
                let back: u32 = flag(self.max_context != self.min_context);
                self.text = self.text.wrapping_sub(back);
                self.learn(made, made, f, symbol);
            } else {
                self.learn(made, text, f, symbol);
            }
        } else {
            let leads: u32 = self.min_context;
            self.set_successor(self.found_state, text);
            self.learn(leads, text, f, symbol);
        }
    }

    /// Halve the frequencies of the context, the symbol found first.
    #[verifier::spinoff_prover]
    #[verifier::rlimit(80)]
    fn rescale(&mut self)
        requires
            old(self).wf(),
        ensures
            final(self).wf(),
            final(self)@ == rules::rescale(old(self)@),
    {
        reveal(rules::rescale);
        let mc: u32 = self.min_context;
        let first: u32 = self.stats(mc);
        let mut s: u32 = self.found_state;
        if s > first {
            let state: [u8; 6] = self.arena.state(s);
            let ghost moved = rules::shift_states(self@, s, first);
            while s > first && s >= STATE
                invariant
                    self.wf(),
                    moved == rules::shift_states(self@, s, first),
                decreases s,
            {
                self.copy_state(s, s - STATE);
                s = s - STATE;
            }
            self.arena.set_state(first, state);
        }
        let f: u32 = self.freq(first);
        let mut esc: u32 = self.summ_freq(mc).wrapping_sub(f);
        let adder: u32 = flag(self.order_fall != 0);
        self.set_freq(first, f + 4);
        let f: u32 = self.freq(first);
        self.set_freq(first, (f + adder) / 2);
        let mut sum: u32 = self.freq(first);
        let mut n: u32 = self.num_stats(mc).wrapping_sub(1);
        s = first;
        let ghost halved = rules::halve(self@, s, first, n, adder, sum, esc);
        while n > 0
            invariant
                self.wf(),
                adder <= 1,
                halved == rules::halve(self@, s, first, n, adder, sum, esc),
            decreases n,
        {
            let t: u32 = s.wrapping_add(STATE);
            let f: u32 = self.freq(t);
            esc = esc.wrapping_sub(f);
            self.set_freq(t, (f + adder) / 2);
            let f: u32 = self.freq(t);
            sum = sum.wrapping_add(f);
            if f > self.freq(s) {
                self.sink(t, first);
            }
            s = t;
            n = n - 1;
        }
        if self.freq(s) == 0 {
            let mut gone: u32 = 1;
            let mut at: u32 = s.wrapping_sub(STATE);
            let mut fuel: u32 = 256;
            let ghost worn = rules::worn_out(self@, s, 0, 256);
            while fuel > 0 && self.freq(at) == 0
                invariant
                    self.wf(),
                    fuel <= 256,
                    gone + fuel == 257,
                    worn == rules::worn_out(
                        self@,
                        at.wrapping_add(STATE),
                        (gone - 1) as u32,
                        fuel,
                    ),
                    at.wrapping_add(STATE).wrapping_sub(STATE) == at,
                decreases fuel,
            {
                at = at.wrapping_sub(STATE);
                gone = gone + 1;
                fuel = fuel - 1;
            }
            assert(worn == gone);
            let before: u32 = self.num_stats(mc);
            let left: u32 = before.wrapping_sub(gone);
            self.set_num_stats(mc, left);
            esc = esc.wrapping_add(gone);
            let n0: u32 = (before + 1) / 2;
            if left == 1 {
                let f: u32 = halved_alone(self.freq(first), esc);
                let one: u32 = one_state(mc);
                self.copy_state(one, first);
                self.set_freq(one, f);
                self.found_state = one;
                let index: usize = self.sizes.index_of(n0);
                self.insert_node(first, index);
                return;
            }
            let n1: u32 = left.wrapping_add(1) / 2;
            if n0 != n1 {
                let at: u32 = self.shrink_units(first, n0, n1);
                self.set_stats(mc, at);
            }
        }
        let mc: u32 = self.min_context;
        self.set_summ_freq(mc, sum.wrapping_add(esc).wrapping_sub(esc / 2));
        self.found_state = self.stats(mc);
    }

    /// Put a state in its place among those before it.
    fn sink(&mut self, t: u32, first: u32)
        requires
            old(self).wf(),
        ensures
            final(self).wf(),
            ({
                let state = arena::state_at(old(self)@.base, t);
                let (x, at) = rules::sink(old(self)@, t, first, state[1] as u32);
                final(self)@ == (Model { base: arena::with_state(x.base, at, state), ..x })
            }),
    {
        let state: [u8; 6] = self.arena.state(t);
        let f: u32 = state[1] as u32;
        let mut s: u32 = t;
        let ghost whole = rules::sink(self@, s, first, f);
        let mut sinking: bool = true;
        while sinking && s >= STATE
            invariant
                self.wf(),
                sinking ==> whole == rules::sink(self@, s, first, f),
                !sinking ==> whole == (self@, s),
            decreases s, (if sinking {
                1int
            } else {
                0
            }),
        {
            self.copy_state(s, s - STATE);
            s = s - STATE;
            if s <= first || f <= self.freq(s.wrapping_sub(STATE)) {
                sinking = false;
            }
        }
        self.arena.set_state(s, state);
    }

    /// The escape estimate that the context uses.
    #[verifier::spinoff_prover]
    fn see_index(&self, num_masked: u32) -> (r: Option<usize>)
        requires
            self.wf(),
            num_masked <= 0xffff,
        ensures
            match rules::see_index(self@, num_masked) {
                Some(i) => r == Some(i as usize) && 0 <= i < 400,
                None => r is None,
            },
    {
        reveal(rules::see_index);
        let mc: u32 = self.min_context;
        let ns: u32 = self.num_stats(mc);
        if ns == 256 {
            return None;
        }
        let rest: u32 = if ns > num_masked {
            ns - num_masked
        } else {
            1
        };
        let k: usize = if rest - 1 < 255 {
            (rest - 1) as usize
        } else {
            255
        };
        let row: u64 = self.ns2indx[k] as u64;
        let shorter: u32 = self.num_stats(self.suffix(mc)).wrapping_sub(ns);
        let column: u64 = flag(rest < shorter) as u64 + 2 * flag(self.summ_freq(mc) < 11 * ns) as u64
            + 4 * flag(num_masked > rest) as u64 + self.hi_bits_flag as u64;
        let i: u64 = 16 * row + column;
        if i < 400 {
            Some(i as usize)
        } else {
            None
        }
    }

    fn see_update(&mut self, at: Option<usize>)
        requires
            old(self).wf(),
            at matches Some(i) ==> i < 400,
        ensures
            final(self).wf(),
            final(self)@ == rules::see_updated(
                old(self)@,
                match at {
                    Some(i) => Some(i as int),
                    None => None,
                },
            ),
    {
        if let Some(i) = at {
            let mut e: See = self.see[i];
            e.update();
            self.see.set(i, e);
        }
    }

    fn see_add(&mut self, at: Option<usize>, v: u32)
        requires
            old(self).wf(),
            at matches Some(i) ==> i < 400,
        ensures
            final(self).wf(),
            final(self)@ == rules::see_added(
                old(self)@,
                match at {
                    Some(i) => Some(i as int),
                    None => None,
                },
                v,
            ),
    {
        if let Some(i) = at {
            let e: See = self.see[i];
            self.see.set(
                i,
                See { summ: e.summ.wrapping_add(#[verifier::truncate] (v as u16)), ..e },
            );
        }
    }

    /// What is set aside for leaving the context.
    fn make_esc_freq(&mut self, at: Option<usize>) -> (r: u32)
        requires
            old(self).wf(),
            at matches Some(i) ==> i < 400,
        ensures
            final(self).wf(),
            ({
                let i = match at {
                    Some(i) => Some(i as int),
                    None => None,
                };
                r == rules::escape(old(self)@, i) && final(self)@ == rules::see_used(old(self)@, i)
            }),
    {
        match at {
            Some(i) => {
                let mut e: See = self.see[i];
                let r: u32 = e.mean();
                self.see.set(i, e);
                r
            },
            None => 1,
        }
    }

    fn next_context(&mut self)
        requires
            old(self).wf(),
        ensures
            final(self).wf(),
            final(self)@ == rules::next_context(old(self)@),
    {
        reveal(rules::next_context);
        let c: u32 = self.successor(self.found_state);
        if self.order_fall == 0 && c > self.text {
            self.min_context = c;
            self.max_context = c;
        } else {
            self.update_model();
        }
    }

    fn update1(&mut self)
        requires
            old(self).wf(),
        ensures
            final(self).wf(),
            final(self)@ == rules::update1(old(self)@),
    {
        reveal(rules::update1);
        let s: u32 = self.found_state;
        let mc: u32 = self.min_context;
        let f: u32 = self.freq(s);
        self.set_freq(s, f + 4);
        let sum: u32 = self.summ_freq(mc);
        self.set_summ_freq(mc, sum + 4);
        let before: u32 = s.wrapping_sub(STATE);
        if self.freq(s) > self.freq(before) {
            self.swap_states(s, before);
            self.found_state = before;
            if self.freq(before) > MAX_FREQ {
                self.rescale();
            }
        }
        self.next_context();
    }

    fn update1_0(&mut self)
        requires
            old(self).wf(),
        ensures
            final(self).wf(),
            final(self)@ == rules::update1_0(old(self)@),
    {
        reveal(rules::update1_0);
        let s: u32 = self.found_state;
        let mc: u32 = self.min_context;
        let success: u32 = flag(2 * self.freq(s) > self.summ_freq(mc));
        self.prev_success = success;
        self.run_length = self.run_length.wrapping_add(success as i32);
        let sum: u32 = self.summ_freq(mc);
        self.set_summ_freq(mc, sum + 4);
        let f: u32 = self.freq(s);
        self.set_freq(s, f + 4);
        if self.freq(s) > MAX_FREQ {
            self.rescale();
        }
        self.next_context();
    }

    fn update_bin(&mut self)
        requires
            old(self).wf(),
        ensures
            final(self).wf(),
            final(self)@ == rules::update_bin(old(self)@),
    {
        reveal(rules::update_bin);
        let s: u32 = self.found_state;
        let f: u32 = self.freq(s);
        self.set_freq(s, f + flag(f < 128));
        self.prev_success = 1;
        self.run_length = self.run_length.wrapping_add(1);
        self.next_context();
    }

    fn update2(&mut self)
        requires
            old(self).wf(),
        ensures
            final(self).wf(),
            final(self)@ == rules::update2(old(self)@),
    {
        reveal(rules::update2);
        let s: u32 = self.found_state;
        let mc: u32 = self.min_context;
        let f: u32 = self.freq(s);
        self.set_freq(s, f + 4);
        let sum: u32 = self.summ_freq(mc);
        self.set_summ_freq(mc, sum + 4);
        if self.freq(s) > MAX_FREQ {
            self.rescale();
        }
        self.run_length = self.init_rl;
        self.update_model();
    }

    /// The estimate that the context of one symbol uses, if there is one.
    fn bin_summ_index(&self) -> (r: Option<usize>)
        requires
            self.wf(),
        ensures
            ({
                let i = rules::bin_index(self@);
                if 0 <= i < 8192 {
                    r == Some(i as usize)
                } else {
                    r is None
                }
            }),
    {
        reveal(rules::bin_index);
        let mc: u32 = self.min_context;
        let one: u32 = one_state(mc);
        let run: i64 = if self.run_length < 0 {
            0x20
        } else {
            0
        };
        let shorter: u32 = self.num_stats(self.suffix(mc)).wrapping_sub(1);
        let i: i64 = 64 * (self.freq(one) as i64 - 1) + self.prev_success as i64 + ns2bs_indx(
            shorter,
        ) as i64 + self.hi_bits_flag as i64 + 2 * hb2flag(self.sym(one)) as i64 + run;
        if i >= 0 && i < 8192 {
            Some(i as usize)
        } else {
            None
        }
    }

    /// Whether the code has been used up.
    pub fn is_finished(&self) -> (r: bool)
        ensures
            r == (self@.rc.code == 0),
    {
        self.rc.is_finished()
    }

    /// Whether more was read than there is.
    pub fn ran_dry(&self) -> (r: bool)
        ensures
            r == self@.rc.dry,
    {
        self.rc.ran_dry()
    }

    /// Find a symbol in shorter contexts.
    #[verifier::spinoff_prover]
    #[verifier::rlimit(80)]
    fn escaped(&mut self, masked: Vec<bool>) -> (r: i32)
        requires
            old(self).wf(),
            masked@.len() == 256,
        ensures
            final(self).wf(),
            (final(self)@, r) == rules::escaped(old(self)@, masked@, old(self)@.base.len()),
    {
        let mut mask: Vec<bool> = masked;
        let mut fuel: usize = self.arena.len();
        let ghost whole = rules::escaped(self@, mask@, fuel as nat);
        loop
            invariant
                self.wf(),
                mask@.len() == 256,
                whole == rules::escaped(self@, mask@, fuel as nat),
                whole == rules::escaped(old(self)@, masked@, old(self)@.base.len()),
            decreases fuel,
        {
            let num_masked: u32 = self.num_stats(self.min_context);
            let (mc, kind) = self.fall(num_masked);
            if kind == 1 {
                return SYM_END;
            }
            if kind == 2 {
                return SYM_ERROR;
            }
            self.min_context = mc;
            let ns: u32 = self.num_stats(mc);
            if ns <= num_masked || fuel == 0 {
                return SYM_ERROR;
            }
            let wanted: usize = (ns - num_masked) as usize;
            let first: u32 = self.stats(mc);
            let ps: Vec<u32> = match self.unmasked(&mask, first, ns, wanted) {
                None => {
                    return SYM_ERROR;
                },
                Some(ps) => ps,
            };
            let hi: u32 = self.freqs(&ps);
            let at: Option<usize> = self.see_index(num_masked);
            let esc: u32 = self.make_esc_freq(at);
            let total: u32 = esc.wrapping_add(hi);
            let count: u32 = self.rc.threshold(total);
            if count < hi {
                let (s, end) = self.pick(&ps, count);
                let f: u32 = self.freq(s);
                self.rc.decode(end.wrapping_sub(f), f);
                self.see_update(at);
                self.found_state = s;
                let symbol: u8 = self.sym(s);
                self.update2();
                return symbol as i32;
            }
            if count >= total {
                return SYM_ERROR;
            }
            self.rc.decode(hi, total.wrapping_sub(hi));
            self.see_add(at, total);
            let mut i: usize = 0;
            let ghost masked_all = rules::mask_picked(self@, mask@, ps@, 0);
            while i < ps.len()
                invariant
                    i <= ps.len(),
                    mask@.len() == 256,
                    masked_all == rules::mask_picked(self@, mask@, ps@, i as int),
                decreases ps.len() - i,
            {
                mask.set(self.sym(ps[i]) as usize, true);
                i = i + 1;
            }
            fuel = fuel - 1;
        }
    }

    /// Follow shorter contexts to one that knows other symbols: it and zero,
    /// or one where there is none, or two where they do not end.
    fn fall(&mut self, num_masked: u32) -> (r: (u32, u8))
        requires
            old(self).wf(),
        ensures
            final(self).wf(),
            match rules::fall(
                old(self)@,
                old(self)@.min_context,
                num_masked,
                old(self)@.order_fall,
                old(self)@.base.len(),
            ) {
                Fallen::To(mc, order) => r == (mc, 0u8) && final(self)@ == (Model {
                    order_fall: order,
                    ..old(self)@
                }),
                Fallen::End(order) => r.1 == 1 && final(self)@ == (Model {
                    order_fall: order,
                    ..old(self)@
                }),
                Fallen::Bad(order) => r.1 == 2 && final(self)@ == (Model {
                    order_fall: order,
                    ..old(self)@
                }),
            },
    {
        let mut mc: u32 = self.min_context;
        let mut fuel: usize = self.arena.len();
        let ghost m = self@;
        let ghost whole = rules::fall(m, mc, num_masked, self.order_fall, fuel as nat);
        loop
            invariant
                self.wf(),
                m == old(self)@,
                self@ == (Model { order_fall: self.order_fall, ..m }),
                whole == rules::fall(
                    m,
                    m.min_context,
                    num_masked,
                    m.order_fall,
                    m.base.len(),
                ),
                whole == rules::fall(m, mc, num_masked, self.order_fall, fuel as nat),
            decreases fuel,
        {
            self.order_fall = self.order_fall.wrapping_add(1);
            if fuel == 0 {
                return (0, 2);
            }
            let d: u32 = self.suffix(mc);
            if d == 0 {
                return (0, 1);
            }
            if self.num_stats(d) != num_masked {
                return (d, 0);
            }
            mc = d;
            fuel = fuel - 1;
        }
    }

    /// The states of symbols not yet escaped from.
    fn unmasked(&self, mask: &Vec<bool>, first: u32, n: u32, wanted: usize) -> (r: Option<Vec<u32>>)
        requires
            mask@.len() == 256,
        ensures
            match rules::unmasked(self@, mask@, first, n, Seq::empty(), wanted as nat) {
                Some(ps) => r matches Some(v) && v@ == ps,
                None => r is None,
            },
    {
        let mut out: Vec<u32> = Vec::new();
        let mut s: u32 = first;
        let mut left: u32 = n;
        assert(out@ =~= Seq::<u32>::empty());
        while out.len() < wanted
            invariant
                mask@.len() == 256,
                rules::unmasked(self@, mask@, first, n, Seq::empty(), wanted as nat)
                    == rules::unmasked(self@, mask@, s, left, out@, wanted as nat),
            decreases left,
        {
            if left == 0 {
                return None;
            }
            if !mask[self.sym(s) as usize] {
                out.push(s);
            }
            s = s.wrapping_add(STATE);
            left = left - 1;
        }
        Some(out)
    }

    /// The sum of the frequencies of states.
    fn freqs(&self, ps: &Vec<u32>) -> (r: u32)
        ensures
            r == rules::freqs(self@, ps@),
    {
        let mut sum: u32 = 0;
        let mut i: usize = 0;
        assert(ps@.take(0) =~= Seq::<u32>::empty());
        while i < ps.len()
            invariant
                i <= ps.len(),
                sum == rules::freqs(self@, ps@.take(i as int)),
            decreases ps.len() - i,
        {
            assert(ps@.take(i + 1).drop_last() =~= ps@.take(i as int));
            sum = sum.wrapping_add(self.freq(ps[i]));
            i = i + 1;
        }
        assert(ps@.take(i as int) =~= ps@);
        sum
    }

    /// The state in whose interval `count` lies, and where that interval
    /// ends.
    fn pick(&self, ps: &Vec<u32>, count: u32) -> (r: (u32, u32))
        ensures
            r == rules::pick(self@, ps@, 0, 0, count),
    {
        let mut acc: u32 = 0;
        let mut i: usize = 0;
        while i < ps.len()
            invariant
                i <= ps.len(),
                rules::pick(self@, ps@, 0, 0, count) == rules::pick(
                    self@,
                    ps@,
                    i as int,
                    acc,
                    count,
                ),
            decreases ps.len() - i,
        {
            acc = acc.wrapping_add(self.freq(ps[i]));
            if acc > count || i + 1 >= ps.len() {
                return (ps[i], acc);
            }
            i = i + 1;
        }
        (0, acc)
    }

    /// The symbols of `n` states masked.
    fn mask_states(&self, first: u32, n: u32) -> (r: Vec<bool>)
        ensures
            r@ == rules::mask_states(self@, rules::none_masked(), first, n),
            r@.len() == 256,
    {
        let mut mask: Vec<bool> = vec![false; 256];
        let mut s: u32 = first;
        let mut n: u32 = n;
        let ghost whole = rules::mask_states(self@, rules::none_masked(), s, n);
        assert(mask@ =~= rules::none_masked());
        while n > 0
            invariant
                mask@.len() == 256,
                whole == rules::mask_states(self@, mask@, s, n),
            decreases n,
        {
            mask.set(self.sym(s) as usize, true);
            s = s.wrapping_add(STATE);
            n = n - 1;
        }
        mask
    }

    /// The state in whose interval `count` lies, of up to `n` after `s`.
    fn seek(&self, s: u32, count: u32, n: u32) -> (r: (Option<u32>, u32))
        ensures
            r == rules::seek(self@, s, count, n),
    {
        let mut t: u32 = s;
        let mut past: u32 = count;
        let mut left: u32 = n;
        while left > 0
            invariant
                rules::seek(self@, s, count, n) == rules::seek(self@, t, past, left),
            decreases left,
        {
            t = t.wrapping_add(STATE);
            past = past.wrapping_sub(self.freq(t));
            if past >= 0x8000_0000 {
                return (Some(t), past);
            }
            left = left - 1;
        }
        (None, past)
    }

    #[verifier::spinoff_prover]
    #[verifier::rlimit(40)]
    fn decode_many(&mut self) -> (r: i32)
        requires
            old(self).wf(),
        ensures
            final(self).wf(),
            (final(self)@, r) == rules::decode_many(old(self)@),
    {
        reveal(rules::decode_many);
        let mc: u32 = self.min_context;
        let s: u32 = self.stats(mc);
        let total: u32 = self.summ_freq(mc);
        let hi: u32 = self.rc.threshold(total);
        let f: u32 = self.freq(s);
        let count: u32 = hi.wrapping_sub(f);
        if count >= 0x8000_0000 {
            self.rc.decode(0, f);
            self.found_state = s;
            let symbol: u8 = self.sym(s);
            self.update1_0();
            return symbol as i32;
        }
        self.prev_success = 0;
        let n: u32 = self.num_stats(mc).wrapping_sub(1);
        match self.seek(s, count, n) {
            (Some(t), left) => {
                let f: u32 = self.freq(t);
                self.rc.decode(hi.wrapping_sub(left).wrapping_sub(f), f);
                self.found_state = t;
                let symbol: u8 = self.sym(t);
                self.update1();
                symbol as i32
            },
            (None, left) => {
                if hi >= total {
                    return SYM_ERROR;
                }
                let used: u32 = hi.wrapping_sub(left);
                self.hi_bits_flag = hb2flag(self.sym(self.found_state));
                self.rc.decode(used, total.wrapping_sub(used));
                let first: u32 = self.stats(mc);
                let n: u32 = self.num_stats(mc);
                let mask: Vec<bool> = self.mask_states(first, n);
                self.escaped(mask)
            },
        }
    }

    #[verifier::spinoff_prover]
    #[verifier::rlimit(40)]
    fn decode_one(&mut self) -> (r: i32)
        requires
            old(self).wf(),
        ensures
            final(self).wf(),
            (final(self)@, r) == rules::decode_one(old(self)@),
    {
        reveal(rules::decode_one);
        let one: u32 = one_state(self.min_context);
        self.hi_bits_flag = hb2flag(self.sym(self.found_state));
        let i: usize = match self.bin_summ_index() {
            None => {
                return SYM_ERROR;
            },
            Some(i) => i,
        };
        let pr: u32 = self.bin_summ[i] as u32;
        let mean: u32 = mean(pr);
        if self.rc.decode_bit(pr) == 0 {
            self.bin_summ.set(i, #[verifier::truncate] ((pr + 128 - mean) as u16));
            self.found_state = one;
            let symbol: u8 = self.sym(one);
            self.update_bin();
            return symbol as i32;
        }
        let left: u32 = pr - mean;
        self.bin_summ.set(i, #[verifier::truncate] (left as u16));
        self.init_esc = cost_of_escape(left);
        self.prev_success = 0;
        let mut mask: Vec<bool> = vec![false; 256];
        assert(mask@ =~= rules::none_masked());
        mask.set(self.sym(one) as usize, true);
        self.escaped(mask)
    }

    /// Decode a symbol. What comes back is the symbol, or `SYM_END` where the
    /// data ends, or `SYM_ERROR` where nothing can be decoded.
    pub fn decode_symbol(&mut self) -> (r: i32)
        requires
            old(self).wf(),
        ensures
            final(self).wf(),
            (final(self)@, r) == rules::decoded(old(self)@),
    {
        if self.num_stats(self.min_context) != 1 {
            self.decode_many()
        } else {
            self.decode_one()
        }
    }

    /// A model of `mem_size` bytes and order `max_order` on `inner`.
    #[verifier::spinoff_prover]
    pub fn new(inner: Vec<u8>, mem_size: u32, max_order: u32) -> (r: Result<Self>)
        requires
            max_order <= MAX_ORDER,
            mem_size <= 0xffff_ff00,
        ensures
            match range::started(inner@) {
                Some(rc) => r matches Ok(m) && m.wf() && m@ == rules::fresh(
                    rc,
                    mem_size,
                    max_order,
                ),
                None => r matches Err(e) && e == Error::Malformed,
            },
    {
        let rc: RangeDecoder = match RangeDecoder::new(inner) {
            Err(e) => {
                return Err(e);
            },
            Ok(rc) => rc,
        };
        let align_offset: u32 = 4 - mem_size % 4;
        let mut ns2indx: Vec<u8> = vec![0, 1, 2];
        let mut m: usize = 3;
        let mut k: usize = 1;
        while ns2indx.len() < 256
            invariant
                3 <= ns2indx.len() <= 256,
                rules::class_at(ns2indx.len() as int) == (m as int, k as int),
                forall|i: int|
                    0 <= i < ns2indx.len() ==> #[trigger] ns2indx[i] == rules::ns2indx(i),
            decreases 256 - ns2indx.len(),
        {
            proof {
                lemma_class(ns2indx.len() as int);
            }
            ns2indx.push(m as u8);
            k = k - 1;
            if k == 0 {
                m = m + 1;
                k = m - 2;
            }
        }
        let bytes: u32 = align_offset + mem_size + UNIT_SIZE;
        let mut model: Ppmd7 = Ppmd7 {
            rc,
            arena: Arena::new(bytes as usize),
            size: mem_size,
            align_offset,
            min_context: 0,
            max_context: 0,
            found_state: 0,
            order_fall: 0,
            init_esc: 0,
            prev_success: 0,
            max_order,
            hi_bits_flag: 0,
            run_length: 0,
            init_rl: 0,
            glue_count: 0,
            lo_unit: 0,
            hi_unit: 0,
            text: 0,
            units_start: 0,
            sizes: Sizes::new(),
            free_list: Vec::new(),
            ns2indx,
            see: Vec::new(),
            bin_summ: Vec::new(),
        };
        let ghost was = model@;
        model.restart();
        proof {
            reveal(rules::restart);
            let blank = Model {
                free_list: Seq::new(INDEXES as nat, |i: int| 0u32),
                see: rules::fresh_see(),
                bin_summ: rules::fresh_bins(),
                ..was
            };
            assert(rules::restart(was) == rules::restart(blank));
        }
        Ok(model)
    }
}

} // verus!
