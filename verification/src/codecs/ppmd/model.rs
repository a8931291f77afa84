//! The var. I model.
use crate::codecs::ppmd::arena;
use crate::codecs::ppmd::arena::{
    cost_of_escape, mean, Arena, See, Sizes, INDEXES, INIT_BIN_ESC, STATE, UNIT_SIZE,
};
use crate::codecs::ppmd::range;
use crate::codecs::ppmd::range::{RangeDecoder, BIN_SCALE};
use crate::codecs::ppmd::rules;
use crate::codecs::ppmd::rules::{
    Chain, Climb, Fallen, Model, EMPTY_NODE, FLAG_PREV_HIGH, FLAG_RESCALED, MAX_FREQ, MAX_ORDER,
    RESTORE_RESTART, SYM_END, SYM_ERROR,
};
use crate::utils::error::{Error, Result};
use vstd::prelude::*;

verus! {

/// A var. I model that decodes.
pub struct Ppmd8 {
    rc: RangeDecoder,
    arena: Arena,
    size: u32,
    align_offset: u32,
    min_context: u32,
    max_context: u32,
    found_state: u32,
    order_fall: u32,
    init_esc: u32,
    prev_success: u32,
    max_order: u32,
    restore_method: u32,
    run_length: i32,
    init_rl: i32,
    glue_count: u32,
    lo_unit: u32,
    hi_unit: u32,
    text: u32,
    units_start: u32,
    sizes: Sizes,
    free_list: Vec<u32>,
    stamps: Vec<u32>,
    ns2indx: Vec<u8>,
    see: Vec<See>,
    bin_summ: Vec<u16>,
}

impl View for Ppmd8 {
    type V = Model;

    closed spec fn view(&self) -> Model {
        Model {
            rc: self.rc@,
            base: self.arena@,
            size: self.size,
            align_offset: self.align_offset,
            min_context: self.min_context,
            max_context: self.max_context,
            found_state: self.found_state,
            order_fall: self.order_fall,
            init_esc: self.init_esc,
            prev_success: self.prev_success,
            max_order: self.max_order,
            restore_method: self.restore_method,
            run_length: self.run_length,
            init_rl: self.init_rl,
            glue_count: self.glue_count,
            lo_unit: self.lo_unit,
            hi_unit: self.hi_unit,
            text: self.text,
            units_start: self.units_start,
            free_list: self.free_list@,
            stamps: self.stamps@,
            see: self.see@,
            bin_summ: self.bin_summ@,
        }
    }
}

/// One for what holds, zero for what does not.
fn flag(b: bool) -> (r: u32)
    ensures
        r == rules::flag(b),
{
    if b {
        1
    } else {
        0
    }
}

/// Whether a symbol is a high one, as a flag.
fn high3(symbol: u8) -> (r: u8)
    ensures
        r == rules::high3(symbol),
{
    if symbol >= 0x40 {
        8
    } else {
        0
    }
}

/// Whether a symbol is a high one, as the flag of the context after it.
fn high4(symbol: u8) -> (r: u8)
    ensures
        r == rules::high4(symbol),
{
    if symbol >= 0x40 {
        16
    } else {
        0
    }
}

/// A frequency, halved or not.
fn scaled(f: u32, scale: u32) -> (r: u32)
    ensures
        r == rules::scaled(f, scale),
{
    if scale == 0 {
        f
    } else {
        f.wrapping_add(1) / 2
    }
}

/// The class of a number of symbols less one.
fn ns2bs_indx(n: u32) -> (r: u32)
    ensures
        r == rules::ns2bs_indx(n),
{
    if n == 0 {
        0
    } else if n == 1 {
        2
    } else if n < 11 {
        4
    } else {
        6
    }
}

/// `n` states on.
fn nth(s: u32, n: u32) -> (r: u32)
    ensures
        r == rules::nth(s, n),
{
    s.wrapping_add(n.wrapping_mul(STATE))
}

/// The state of a context of one symbol.
fn one_state(c: u32) -> (r: u32)
    ensures
        r == rules::one_state(c),
{
    c.wrapping_add(2)
}

proof fn lemma_class(i: int)
    requires
        5 <= i <= 300,
    ensures
        5 <= rules::class_at(i).0 <= i,
        1 <= rules::class_at(i).1 <= rules::class_at(i).0,
        i >= 6 ==> rules::class_at(i).0 >= 6 && 2 * rules::class_at(i).0 <= i + 7 - (rules::class_at(
            i,
        ).0 - 4 - rules::class_at(i).1),
        rules::class_at(i).1 <= rules::class_at(i).0 - 4,
    decreases i,
{
    if i > 5 {
        lemma_class(i - 1);
        assert(rules::class_at(5) == (5int, 1int));
    }
}

proof fn lemma_class_end(i: int, d: int, class: int)
    ensures
        rules::class_end(i, d, class) >= i,
    decreases 260 - i - d,
{
    if i + d < 260 && rules::ns2indx(i + d) == class {
        lemma_class_end(i + 1, d, class);
    }
}

proof fn lemma_classes_end(m: int, d: int)
    requires
        0 <= m,
        0 <= d <= 3,
    ensures
        rules::classes_end(m, d) >= 1,
    decreases m,
{
    lemma_class_end(rules::classes_end(m - 1, d), d, m + d);
    if m > 0 {
        lemma_classes_end(m - 1, d);
    } else {
        assert(rules::ns2indx(d) == d);
        assert(rules::class_end(0, d, d) == rules::class_end(1, d, d));
        lemma_class_end(1, d, d);
    }
}

/// How much a new symbol is given in a context, and how much the sum grows.
fn share(sum: u32, s0: u32, f: u32) -> (r: (u32, u32))
    requires
        f <= 0xff,
    ensures
        r == rules::share(sum, s0, f),
        r.0 <= 7,
        r.1 <= 7,
{
    reveal(rules::share);
    proof {
        assert(2 * (sum + 6) * f <= 2 * 0x1_0000_0006 * 0xff) by (nonlinear_arith)
            requires
                f <= 0xff,
        ;
    }
    let cf: u64 = 2 * (sum as u64 + 6) * f as u64;
    let sf: u64 = s0 as u64 + sum as u64;
    if cf < 6 * sf {
        (1 + flag(cf > sf) + flag(cf >= 4 * sf), 4)
    } else {
        let x: u32 = 4 + flag(cf > 9 * sf) + flag(cf > 12 * sf) + flag(cf > 15 * sf);
        (x, x)
    }
}

impl Ppmd8 {
    /// The tables are whole.
    pub closed spec fn wf(&self) -> bool {
        &&& self.sizes.wf()
        &&& self.free_list@.len() == INDEXES
        &&& self.stamps@.len() == INDEXES
        &&& self.see@.len() == 768
        &&& forall|i: int| 0 <= i < 768 ==> (#[trigger] self.see@[i]).shift <= 7
        &&& self.bin_summ@.len() == 1600
        &&& self.ns2indx@.len() == 260
        &&& forall|i: int| 0 <= i < 260 ==> #[trigger] self.ns2indx@[i] == rules::ns2indx(i)
        &&& self.max_order <= MAX_ORDER
    }

    fn num_stats(&self, c: u32) -> (r: u32)
        ensures
            r == rules::num_stats(self@, c),
    {
        self.arena.u8_at(c) as u32
    }

    fn flags(&self, c: u32) -> (r: u8)
        ensures
            r == rules::flags(self@, c),
    {
        self.arena.u8_at(c.wrapping_add(1))
    }

    fn summ_freq(&self, c: u32) -> (r: u32)
        ensures
            r == rules::summ_freq(self@, c),
    {
        self.arena.u16_at(c.wrapping_add(2)) as u32
    }

    fn stats(&self, c: u32) -> (r: u32)
        ensures
            r == rules::stats(self@, c),
    {
        self.arena.u32_at(c.wrapping_add(4))
    }

    fn suffix(&self, c: u32) -> (r: u32)
        ensures
            r == rules::suffix(self@, c),
    {
        self.arena.u32_at(c.wrapping_add(8))
    }

    fn sym(&self, s: u32) -> (r: u8)
        ensures
            r == rules::sym(self@, s),
    {
        self.arena.u8_at(s)
    }

    fn freq(&self, s: u32) -> (r: u32)
        ensures
            r == rules::freq(self@, s),
    {
        self.arena.u8_at(s.wrapping_add(1)) as u32
    }

    fn successor(&self, s: u32) -> (r: u32)
        ensures
            r == rules::successor(self@, s),
    {
        self.arena.u32_at(s.wrapping_add(2))
    }

    fn set_u8(&mut self, at: u32, v: u8)
        requires
            old(self).wf(),
        ensures
            final(self).wf(),
            final(self)@ == rules::set_u8(old(self)@, at, v),
    {
        self.arena.set_u8(at, v);
    }

    fn set_u16(&mut self, at: u32, v: u32)
        requires
            old(self).wf(),
        ensures
            final(self).wf(),
            final(self)@ == rules::set_u16(old(self)@, at, v),
    {
        self.arena.set_u16(at, #[verifier::truncate] (v as u16));
    }

    fn set_u32(&mut self, at: u32, v: u32)
        requires
            old(self).wf(),
        ensures
            final(self).wf(),
            final(self)@ == rules::set_u32(old(self)@, at, v),
    {
        self.arena.set_u32(at, v);
    }

    fn set_num_stats(&mut self, c: u32, v: u32)
        requires
            old(self).wf(),
        ensures
            final(self).wf(),
            final(self)@ == rules::set_num_stats(old(self)@, c, v),
    {
        self.set_u8(c, #[verifier::truncate] (v as u8));
    }

    fn set_flags(&mut self, c: u32, v: u8)
        requires
            old(self).wf(),
        ensures
            final(self).wf(),
            final(self)@ == rules::set_flags(old(self)@, c, v),
    {
        self.set_u8(c.wrapping_add(1), v);
    }

    fn set_summ_freq(&mut self, c: u32, v: u32)
        requires
            old(self).wf(),
        ensures
            final(self).wf(),
            final(self)@ == rules::set_summ_freq(old(self)@, c, v),
    {
        self.set_u16(c.wrapping_add(2), v);
    }

    fn set_stats(&mut self, c: u32, v: u32)
        requires
            old(self).wf(),
        ensures
            final(self).wf(),
            final(self)@ == rules::set_stats(old(self)@, c, v),
    {
        self.set_u32(c.wrapping_add(4), v);
    }

    fn set_suffix(&mut self, c: u32, v: u32)
        requires
            old(self).wf(),
        ensures
            final(self).wf(),
            final(self)@ == rules::set_suffix(old(self)@, c, v),
    {
        self.set_u32(c.wrapping_add(8), v);
    }

    fn set_freq(&mut self, s: u32, v: u32)
        requires
            old(self).wf(),
        ensures
            final(self).wf(),
            final(self)@ == rules::set_freq(old(self)@, s, v),
    {
        self.set_u8(s.wrapping_add(1), #[verifier::truncate] (v as u8));
    }

    fn set_successor(&mut self, s: u32, v: u32)
        requires
            old(self).wf(),
        ensures
            final(self).wf(),
            final(self)@ == rules::set_successor(old(self)@, s, v),
    {
        self.set_u32(s.wrapping_add(2), v);
    }

    fn copy_state(&mut self, dest: u32, src: u32)
        requires
            old(self).wf(),
        ensures
            final(self).wf(),
            final(self)@ == rules::copy_state(old(self)@, dest, src),
    {
        self.arena.copy(dest, src, STATE);
    }

    fn copy_units(&mut self, dest: u32, src: u32, nu: u32)
        requires
            old(self).wf(),
        ensures
            final(self).wf(),
            final(self)@ == rules::copy_units(old(self)@, dest, src, nu),
    {
        self.arena.copy(dest, src, nu.wrapping_mul(UNIT_SIZE));
    }

    fn swap_states(&mut self, x: u32, y: u32)
        requires
            old(self).wf(),
        ensures
            final(self).wf(),
            final(self)@ == rules::swap_states(old(self)@, x, y),
    {
        self.arena.swap_states(x, y);
    }

    fn insert_node(&mut self, node: u32, index: usize)
        requires
            old(self).wf(),
        ensures
            final(self).wf(),
            final(self)@ == rules::insert_node(old(self)@, node, index as int),
    {
        if index < INDEXES {
            let next: u32 = self.free_list[index];
            let nu: u32 = self.sizes.units_of(index);
            self.set_u32(node, EMPTY_NODE);
            self.set_u32(node.wrapping_add(4), next);
            self.set_u32(node.wrapping_add(8), nu);
            self.free_list.set(index, node);
            let n: u32 = self.stamps[index].wrapping_add(1);
            self.stamps.set(index, n);
        }
    }

    fn first_free(&self, index: usize) -> (r: u32)
        requires
            self.wf(),
        ensures
            r == rules::first_free(self@, index as int),
    {
        if index < INDEXES {
            self.free_list[index]
        } else {
            0
        }
    }

    /// Take the first block of a size out of its list.
    fn remove_node(&mut self, index: usize) -> (r: u32)
        requires
            old(self).wf(),
        ensures
            final(self).wf(),
            final(self)@ == rules::remove_node(old(self)@, index as int),
            r == rules::first_free(old(self)@, index as int),
    {
        if index < INDEXES {
            let node: u32 = self.free_list[index];
            let next: u32 = self.arena.u32_at(node.wrapping_add(4));
            self.free_list.set(index, next);
            let n: u32 = self.stamps[index].wrapping_sub(1);
            self.stamps.set(index, n);
            node
        } else {
            0
        }
    }

    /// Put up to 128 units into the lists.
    fn place_units(&mut self, at: u32, nu: u32)
        requires
            old(self).wf(),
        ensures
            final(self).wf(),
            final(self)@ == rules::place_units(old(self)@, at, nu),
    {
        reveal(rules::place_units);
        let mut i: usize = self.sizes.index_of(nu);
        if self.sizes.units_of(i) != nu {
            i = if i > 0 {
                i - 1
            } else {
                0
            };
            let k: u32 = self.sizes.units_of(i);
            let rest: u32 = nu.wrapping_sub(k).wrapping_sub(1);
            self.insert_node(at.wrapping_add(k.wrapping_mul(UNIT_SIZE)), rest as usize);
        }
        self.insert_node(at, i);
    }

    fn split_block(&mut self, ptr: u32, old_index: usize, new_index: usize)
        requires
            old(self).wf(),
        ensures
            final(self).wf(),
            final(self)@ == rules::split_block(
                old(self)@,
                ptr,
                old_index as int,
                new_index as int,
            ),
    {
        let used: u32 = self.sizes.units_of(new_index);
        let nu: u32 = self.sizes.units_of(old_index).wrapping_sub(used);
        self.place_units(ptr.wrapping_add(used.wrapping_mul(UNIT_SIZE)), nu);
    }

    /// Join a free block with those right behind it.
    fn absorb(&mut self, node: u32, nu: u32)
        requires
            old(self).wf(),
        ensures
            final(self).wf(),
            final(self)@ == rules::absorb(old(self)@, node, nu, old(self)@.base.len()),
            final(self)@.base.len() == old(self)@.base.len(),
    {
        let mut sum: u32 = nu;
        let mut fuel: usize = self.arena.len();
        while fuel > 0
            invariant
                self.wf(),
                self@.base.len() == old(self)@.base.len(),
                rules::absorb(old(self)@, node, nu, old(self)@.base.len()) == rules::absorb(
                    self@,
                    node,
                    sum,
                    fuel as nat,
                ),
            decreases fuel,
        {
            let after: u32 = node.wrapping_add(sum.wrapping_mul(UNIT_SIZE));
            if self.arena.u32_at(after) != EMPTY_NODE {
                return;
            }
            sum = sum.wrapping_add(self.arena.u32_at(after.wrapping_add(8)));
            self.set_u32(after.wrapping_add(8), 0);
            self.set_u32(node.wrapping_add(8), sum);
            fuel = fuel - 1;
        }
    }

    /// Note the next block of a chain.
    fn note(&mut self, slot: Option<u32>, node: u32)
        requires
            old(self).wf(),
        ensures
            final(self).wf(),
            forall|k: Chain|
                k.slot == slot ==> final(self)@ == #[trigger] rules::note(old(self)@, k, node),
            final(self)@.base.len() == old(self)@.base.len(),
    {
        if let Some(at) = slot {
            self.set_u32(at, node);
        }
    }

    /// Put the blocks of one list behind the chain.
    #[verifier::spinoff_prover]
    fn chain_list(&mut self, first: u32, head: u32, slot: Option<u32>) -> (r: (u32, Option<u32>))
        requires
            old(self).wf(),
        ensures
            final(self).wf(),
            (final(self)@, Chain { head: r.0, slot: r.1 }) == rules::chain_list(
                old(self)@,
                first,
                Chain { head, slot },
                old(self)@.base.len(),
            ),
            final(self)@.base.len() == old(self)@.base.len(),
    {
        let mut next: u32 = first;
        let mut h: u32 = head;
        let mut at: Option<u32> = slot;
        let mut fuel: usize = self.arena.len();
        while next != 0 && fuel > 0
            invariant
                self.wf(),
                self@.base.len() == old(self)@.base.len(),
                rules::chain_list(
                    old(self)@,
                    first,
                    Chain { head, slot },
                    old(self)@.base.len(),
                ) == rules::chain_list(self@, next, Chain { head: h, slot: at }, fuel as nat),
            decreases fuel,
        {
            let ghost k = Chain { head: h, slot: at };
            let ghost m = self@;
            let node: u32 = next;
            let nu: u32 = self.arena.u32_at(node.wrapping_add(8));
            self.note(at, node);
            assert(self@ == rules::note(m, k, node));
            if at.is_none() {
                h = node;
            }
            next = self.arena.u32_at(node.wrapping_add(4));
            if nu != 0 {
                at = Some(node.wrapping_add(4));
                self.absorb(node, nu);
            }
            fuel = fuel - 1;
        }
        (h, at)
    }

    /// Put the blocks of all lists behind one another and empty the lists.
    fn chain_all(&mut self) -> (r: (u32, Option<u32>))
        requires
            old(self).wf(),
        ensures
            final(self).wf(),
            (final(self)@, Chain { head: r.0, slot: r.1 }) == rules::chain_all(
                old(self)@,
                0,
                Chain { head: 0, slot: None },
            ),
    {
        let mut head: u32 = 0;
        let mut slot: Option<u32> = None;
        let mut i: usize = 0;
        while i < INDEXES
            invariant
                self.wf(),
                i <= INDEXES,
                rules::chain_all(old(self)@, 0, Chain { head: 0, slot: None })
                    == rules::chain_all(self@, i as int, Chain { head, slot }),
            decreases INDEXES - i,
        {
            let first: u32 = self.free_list[i];
            self.free_list.set(i, 0);
            let (h, at) = self.chain_list(first, head, slot);
            head = h;
            slot = at;
            i = i + 1;
        }
        (head, slot)
    }

    /// Put a free block of any number of units into the lists.
    fn place_large(&mut self, at: u32, nu: u32)
        requires
            old(self).wf(),
        ensures
            final(self).wf(),
            final(self)@ == rules::place_large(old(self)@, at, nu),
    {
        let mut at: u32 = at;
        let mut nu: u32 = nu;
        let ghost whole = rules::place_large(self@, at, nu);
        while nu > 128
            invariant
                self.wf(),
                whole == rules::place_large(self@, at, nu),
            decreases nu,
        {
            self.insert_node(at, INDEXES - 1);
            nu = nu - 128;
            at = at.wrapping_add(128u32.wrapping_mul(UNIT_SIZE));
        }
        self.place_units(at, nu);
    }

    /// Join the free blocks that lie side by side.
    #[verifier::spinoff_prover]
    fn glue_free_blocks(&mut self)
        requires
            old(self).wf(),
        ensures
            final(self).wf(),
            final(self)@ == rules::glue_free_blocks(old(self)@),
    {
        reveal(rules::glue_free_blocks);
        self.glue_count = 0x2000;
        self.stamps = vec![0; INDEXES];
        assert(self.stamps@ =~= Seq::new(INDEXES as nat, |i: int| 0u32));
        if self.lo_unit != self.hi_unit {
            self.set_u32(self.lo_unit, 0);
        }
        let (head, slot) = self.chain_all();
        let ghost k = Chain { head, slot };
        let ghost m = self@;
        self.note(slot, 0);
        assert(self@ == rules::note(m, k, 0));
        let mut n: u32 = if slot.is_none() {
            0
        } else {
            head
        };
        let mut fuel: usize = self.arena.len();
        let ghost placed = rules::place_all(self@, n, fuel as nat);
        while n != 0 && fuel > 0
            invariant
                self.wf(),
                placed == rules::place_all(self@, n, fuel as nat),
            decreases fuel,
        {
            let node: u32 = n;
            let nu: u32 = self.arena.u32_at(node.wrapping_add(8));
            n = self.arena.u32_at(node.wrapping_add(4));
            if nu != 0 {
                self.place_large(node, nu);
            }
            fuel = fuel - 1;
        }
    }

    fn alloc_units_rare(&mut self, index: usize) -> (r: u32)
        requires
            old(self).wf(),
            index < INDEXES,
        ensures
            final(self).wf(),
            (final(self)@, r) == rules::alloc_units_rare(old(self)@, index as int),
    {
        reveal(rules::alloc_units_rare);
        if self.glue_count == 0 {
            self.glue_free_blocks();
            if self.first_free(index) != 0 {
                return self.remove_node(index);
            }
        }
        let mut i: usize = index + 1;
        let ghost size = rules::next_size(self@, index + 1);
        while i < INDEXES && self.first_free(i) == 0
            invariant
                self.wf(),
                i <= INDEXES,
                size == rules::next_size(self@, i as int),
            decreases INDEXES - i,
        {
            i = i + 1;
        }
        if i == INDEXES {
            let bytes: u32 = self.sizes.units_of(index).wrapping_mul(UNIT_SIZE);
            self.glue_count = self.glue_count.wrapping_sub(1);
            if self.units_start.wrapping_sub(self.text) > bytes {
                self.units_start = self.units_start.wrapping_sub(bytes);
                return self.units_start;
            }
            return 0;
        }
        let block: u32 = self.remove_node(i);
        self.split_block(block, i, index);
        block
    }

    fn alloc_units(&mut self, index: usize) -> (r: u32)
        requires
            old(self).wf(),
            index < INDEXES,
        ensures
            final(self).wf(),
            (final(self)@, r) == rules::alloc_units(old(self)@, index as int),
    {
        reveal(rules::alloc_units);
        if self.first_free(index) != 0 {
            return self.remove_node(index);
        }
        let bytes: u32 = self.sizes.units_of(index).wrapping_mul(UNIT_SIZE);
        if self.hi_unit.wrapping_sub(self.lo_unit) >= bytes {
            let at: u32 = self.lo_unit;
            self.lo_unit = self.lo_unit.wrapping_add(bytes);
            return at;
        }
        self.alloc_units_rare(index)
    }

    fn alloc_context(&mut self) -> (r: u32)
        requires
            old(self).wf(),
        ensures
            final(self).wf(),
            (final(self)@, r) == rules::alloc_context(old(self)@),
    {
        reveal(rules::alloc_context);
        if self.hi_unit != self.lo_unit {
            self.hi_unit = self.hi_unit.wrapping_sub(UNIT_SIZE);
            self.hi_unit
        } else if self.first_free(0) != 0 {
            self.remove_node(0)
        } else {
            self.alloc_units_rare(0)
        }
    }

    fn shrink_units(&mut self, at: u32, old_nu: u32, new_nu: u32) -> (r: u32)
        requires
            old(self).wf(),
        ensures
            final(self).wf(),
            (final(self)@, r) == rules::shrink_units(old(self)@, at, old_nu, new_nu),
    {
        reveal(rules::shrink_units);
        let i0: usize = self.sizes.index_of(old_nu);
        let i1: usize = self.sizes.index_of(new_nu);
        if i0 == i1 {
            return at;
        }
        if self.first_free(i1) != 0 {
            let ptr: u32 = self.remove_node(i1);
            self.copy_units(ptr, at, new_nu);
            self.insert_node(at, i0);
            ptr
        } else {
            self.split_block(at, i0, i1);
            at
        }
    }

    fn special_free_unit(&mut self, ptr: u32)
        requires
            old(self).wf(),
        ensures
            final(self).wf(),
            final(self)@ == rules::special_free_unit(old(self)@, ptr),
    {
        if ptr != self.units_start {
            self.insert_node(ptr, 0);
        } else {
            self.units_start = self.units_start.wrapping_add(UNIT_SIZE);
        }
    }

    fn free_units(&mut self, ptr: u32, nu: u32)
        requires
            old(self).wf(),
        ensures
            final(self).wf(),
            final(self)@ == rules::free_units(old(self)@, ptr, nu),
    {
        let index: usize = self.sizes.index_of(nu);
        self.insert_node(ptr, index);
    }

    /// Take `count` unmarked blocks out of a list.
    #[verifier::spinoff_prover]
    fn unlink(&mut self, i: usize, count: u32)
        requires
            old(self).wf(),
            i < INDEXES,
        ensures
            final(self).wf(),
            final(self)@ == rules::unlink(
                old(self)@,
                i as int,
                old(self)@.free_list[i as int],
                None,
                count,
                old(self)@.base.len(),
            ),
    {
        let mut left: u32 = count;
        let mut prev: Option<u32> = None;
        let mut n: u32 = self.free_list[i];
        let mut fuel: usize = self.arena.len();
        while left > 0 && fuel > 0
            invariant
                self.wf(),
                i < INDEXES,
                rules::unlink(
                    old(self)@,
                    i as int,
                    old(self)@.free_list[i as int],
                    None,
                    count,
                    old(self)@.base.len(),
                ) == rules::unlink(self@, i as int, n, prev, left, fuel as nat),
            decreases fuel,
        {
            let node: u32 = n;
            n = self.arena.u32_at(node.wrapping_add(4));
            if self.arena.u32_at(node) != 0 {
                prev = Some(node.wrapping_add(4));
            } else {
                match prev {
                    None => {
                        self.free_list.set(i, n);
                    },
                    Some(at) => {
                        self.set_u32(at, n);
                    },
                }
                left = left - 1;
            }
            fuel = fuel - 1;
        }
    }

    /// Give the free blocks at the start of the units to the text.
    #[verifier::spinoff_prover]
    fn expand_text_area(&mut self)
        requires
            old(self).wf(),
        ensures
            final(self).wf(),
            final(self)@ == rules::expand_text_area(old(self)@),
    {
        reveal(rules::expand_text_area);
        let mut count: Vec<u32> = vec![0; INDEXES];
        if self.lo_unit != self.hi_unit {
            self.set_u32(self.lo_unit, 0);
        }
        let mut node: u32 = self.units_start;
        let mut fuel: usize = self.arena.len();
        assert(count@ =~= Seq::new(INDEXES as nat, |i: int| 0u32));
        let ghost opened = rules::open_units(self@, node, count@, fuel as nat);
        while fuel > 0 && self.arena.u32_at(node) == EMPTY_NODE
            invariant
                self.wf(),
                count@.len() == INDEXES,
                opened == rules::open_units(self@, node, count@, fuel as nat),
            decreases fuel,
        {
            let nu: u32 = self.arena.u32_at(node.wrapping_add(8));
            self.set_u32(node, 0);
            let i: usize = self.sizes.index_of(nu);
            count.set(i, count[i].wrapping_add(1));
            node = node.wrapping_add(nu.wrapping_mul(UNIT_SIZE));
            fuel = fuel - 1;
        }
        self.units_start = node;
        let mut i: usize = 0;
        let ghost unlinked = rules::unlink_all(self@, 0, count@);
        while i < INDEXES
            invariant
                self.wf(),
                i <= INDEXES,
                count@.len() == INDEXES,
                unlinked == rules::unlink_all(self@, i as int, count@),
            decreases INDEXES - i,
        {
            let cnt: u32 = count[i];
            if cnt != 0 {
                let n: u32 = self.stamps[i].wrapping_sub(cnt);
                self.stamps.set(i, n);
                self.unlink(i, cnt);
            }
            i = i + 1;
        }
    }

    fn used_memory(&self) -> (r: u32)
        requires
            self.wf(),
        ensures
            r == rules::used_memory(self@),
    {
        let mut v: u32 = 0;
        let mut i: usize = 0;
        while i < INDEXES
            invariant
                self.wf(),
                i <= INDEXES,
                v == rules::free_total(self@, i as int),
            decreases INDEXES - i,
        {
            v = v.wrapping_add(self.stamps[i].wrapping_mul(self.sizes.units_of(i)));
            i = i + 1;
        }
        self.size.wrapping_sub(self.hi_unit.wrapping_sub(self.lo_unit)).wrapping_sub(
            self.units_start.wrapping_sub(self.text),
        ).wrapping_sub(v.wrapping_mul(UNIT_SIZE))
    }

    /// Where a class ends, looked for from `i` on.
    fn class_end(&self, i: usize, d: usize, class: usize) -> (r: usize)
        requires
            self.ns2indx@.len() == 260,
            forall|k: int| 0 <= k < 260 ==> #[trigger] self.ns2indx@[k] == rules::ns2indx(k),
            i <= 260,
            d <= 3,
        ensures
            r == rules::class_end(i as int, d as int, class as int),
            r <= 260,
    {
        let mut j: usize = i;
        while j + d < 260 && self.ns2indx[j + d] as usize == class
            invariant
                self.ns2indx@.len() == 260,
                forall|k: int| 0 <= k < 260 ==> #[trigger] self.ns2indx@[k] == rules::ns2indx(k),
                j <= 260,
                d <= 3,
                rules::class_end(i as int, d as int, class as int) == rules::class_end(
                    j as int,
                    d as int,
                    class as int,
                ),
            decreases 260 - j,
        {
            j = j + 1;
        }
        j
    }

    /// The first estimates.
    #[verifier::spinoff_prover]
    fn fresh_bins(&self) -> (r: Vec<u16>)
        requires
            self.ns2indx@.len() == 260,
            forall|k: int| 0 <= k < 260 ==> #[trigger] self.ns2indx@[k] == rules::ns2indx(k),
        ensures
            r@ == rules::fresh_bins(),
    {
        let mut bins: Vec<u16> = Vec::with_capacity(1600);
        let mut end: usize = 0;
        while bins.len() < 1600
            invariant
                bins.len() <= 1600,
                bins.len() % 64 == 0,
                end <= 260,
                end == rules::classes_end(bins.len() / 64 - 1, 0),
                self.ns2indx@.len() == 260,
                forall|k: int| 0 <= k < 260 ==> #[trigger] self.ns2indx@[k] == rules::ns2indx(k),
                forall|j: int| 0 <= j < bins.len() ==> #[trigger] bins[j] == rules::fresh_bins()[j],
            decreases 1600 - bins.len(),
        {
            let class: usize = bins.len() / 64;
            end = self.class_end(end, 0, class);
            let mut c: usize = 0;
            while c < 64
                invariant
                    c <= 64,
                    end <= 260,
                    class < 25,
                    bins.len() == 64 * class + c,
                    end == rules::classes_end(class as int, 0),
                    forall|j: int|
                        0 <= j < bins.len() ==> #[trigger] bins[j] == rules::fresh_bins()[j],
                decreases 64 - c,
            {
                let esc: u32 = INIT_BIN_ESC[c % 8] as u32;
                let parts: u32 = end as u32 + 1;
                proof {
                    assert((64 * class + c) % 8 == c % 8);
                    assert(esc <= 0x6632) by {
                        assert(INIT_BIN_ESC[0] <= 0x6632 && INIT_BIN_ESC[1] <= 0x6632
                            && INIT_BIN_ESC[2] <= 0x6632 && INIT_BIN_ESC[3] <= 0x6632
                            && INIT_BIN_ESC[4] <= 0x6632 && INIT_BIN_ESC[5] <= 0x6632
                            && INIT_BIN_ESC[6] <= 0x6632 && INIT_BIN_ESC[7] <= 0x6632);
                    }
                    assert(end >= 1) by {
                        lemma_classes_end(class as int, 0);
                    }
                    vstd::arithmetic::div_mod::lemma_div_is_ordered_by_denominator(
                        esc as int,
                        2,
                        parts as int,
                    );
                }
                bins.push((BIN_SCALE - esc / parts) as u16);
                c = c + 1;
            }
        }
        assert(bins@ =~= rules::fresh_bins());
        bins
    }

    /// The first escape estimates.
    #[verifier::spinoff_prover]
    fn fresh_see(&self) -> (r: Vec<See>)
        requires
            self.ns2indx@.len() == 260,
            forall|k: int| 0 <= k < 260 ==> #[trigger] self.ns2indx@[k] == rules::ns2indx(k),
        ensures
            r@ == rules::fresh_see(),
    {
        let mut see: Vec<See> = Vec::with_capacity(768);
        let mut end: usize = 0;
        while see.len() < 768
            invariant
                see.len() <= 768,
                see.len() % 32 == 0,
                end <= 260,
                end == rules::classes_end(see.len() / 32 - 1, 3),
                self.ns2indx@.len() == 260,
                forall|k: int| 0 <= k < 260 ==> #[trigger] self.ns2indx@[k] == rules::ns2indx(k),
                forall|j: int| 0 <= j < see.len() ==> #[trigger] see[j] == rules::fresh_see()[j],
            decreases 768 - see.len(),
        {
            let class: usize = see.len() / 32;
            end = self.class_end(end, 3, class + 3);
            let mut c: usize = 0;
            while c < 32
                invariant
                    c <= 32,
                    end <= 260,
                    class < 24,
                    see.len() == 32 * class + c,
                    end == rules::classes_end(class as int, 3),
                    forall|j: int|
                        0 <= j < see.len() ==> #[trigger] see[j] == rules::fresh_see()[j],
                decreases 32 - c,
            {
                see.push(See { summ: ((2 * end as u32 + 5) * 8) as u16, shift: 3, count: 7 });
                c = c + 1;
            }
        }
        assert(see@ =~= rules::fresh_see());
        see
    }

    /// Forget everything.
    #[verifier::spinoff_prover]
    #[verifier::rlimit(40)]
    fn restart(&mut self)
        requires
            old(self).sizes.wf(),
            old(self).ns2indx@.len() == 260,
            forall|i: int| 0 <= i < 260 ==> #[trigger] old(self).ns2indx@[i] == rules::ns2indx(i),
            old(self).max_order <= MAX_ORDER,
        ensures
            final(self).wf(),
            final(self)@ == rules::restart(old(self)@),
    {
        reveal(rules::restart);
        self.free_list = vec![0; INDEXES];
        self.stamps = vec![0; INDEXES];
        self.text = self.align_offset;
        let top: u32 = self.align_offset.wrapping_add(self.size);
        self.units_start = top.wrapping_sub(
            (self.size / 8 / UNIT_SIZE).wrapping_mul(7).wrapping_mul(UNIT_SIZE),
        );
        let s: u32 = self.units_start;
        self.lo_unit = s.wrapping_add(128u32.wrapping_mul(UNIT_SIZE));
        self.hi_unit = top.wrapping_sub(UNIT_SIZE);
        self.glue_count = 0;
        self.order_fall = self.max_order;
        self.init_rl = if self.max_order < 12 {
            -1 - self.max_order as i32
        } else {
            -13
        };
        self.run_length = self.init_rl;
        self.prev_success = 0;
        let mc: u32 = self.hi_unit;
        self.max_context = mc;
        self.min_context = mc;
        self.found_state = s;
        self.bin_summ = self.fresh_bins();
        self.see = self.fresh_see();
        proof {
            assert(self.free_list@ =~= Seq::new(INDEXES as nat, |i: int| 0u32));
            assert(self.stamps@ =~= Seq::new(INDEXES as nat, |i: int| 0u32));
            assert forall|i: int| 0 <= i < 768 implies (#[trigger] self.see@[i]).shift <= 7 by {
                assert(self.see@[i] == rules::fresh_see()[i]);
            }
        }
        self.set_flags(mc, 0);
        self.set_num_stats(mc, 255);
        self.set_summ_freq(mc, 257);
        self.set_stats(mc, s);
        self.set_suffix(mc, 0);
        let mut i: u32 = 0;
        let ghost whole = rules::fresh_states(self@, s, 0);
        while i < 256
            invariant
                self.wf(),
                i <= 256,
                whole == rules::fresh_states(self@, s, i),
            decreases 256 - i,
        {
            let at: u32 = nth(s, i);
            self.set_u8(at, i as u8);
            self.set_freq(at, 1);
            self.set_successor(at, 0);
            i = i + 1;
        }
    }

    /// The state of a symbol among `n` states.
    fn find(&self, s: u32, symbol: u8, n: u32) -> (r: Option<u32>)
        ensures
            r == rules::find(self@, s, symbol, n),
    {
        let mut t: u32 = s;
        let mut left: u32 = n;
        while left > 0
            invariant
                rules::find(self@, s, symbol, n) == rules::find(self@, t, symbol, left),
            decreases left,
        {
            if self.sym(t) == symbol {
                return Some(t);
            }
            t = t.wrapping_add(STATE);
            left = left - 1;
        }
        None
    }

    /// Give the states of a context as much room as they need, and count
    /// anew.
    #[verifier::spinoff_prover]
    #[verifier::rlimit(40)]
    fn refresh(&mut self, ctx: u32, old_nu: u32, scale: u32)
        requires
            old(self).wf(),
        ensures
            final(self).wf(),
            final(self)@ == rules::refresh(old(self)@, ctx, old_nu, scale),
    {
        reveal(rules::refresh);
        let n: u32 = self.num_stats(ctx);
        let first: u32 = self.stats(ctx);
        let s0: u32 = self.shrink_units(first, old_nu, (n + 2) / 2);
        self.set_stats(ctx, s0);
        let total: u32 = self.summ_freq(ctx);
        let by: u32 = if scale != 0 || total >= 0x8000 {
            1
        } else {
            0
        };
        let f: u32 = self.freq(s0);
        let mut high: bool = self.sym(s0) >= 0x40;
        let mut esc: u32 = total.wrapping_sub(f);
        let f: u32 = scaled(f, by);
        let mut sum: u32 = f;
        self.set_freq(s0, f);
        let mut s: u32 = s0;
        let mut left: u32 = n;
        let ghost whole = rules::scale_states(self@, s, left, by, sum, esc, high);
        while left > 0
            invariant
                self.wf(),
                whole == rules::scale_states(self@, s, left, by, sum, esc, high),
            decreases left,
        {
            s = s.wrapping_add(STATE);
            let f: u32 = self.freq(s);
            esc = esc.wrapping_sub(f);
            let f: u32 = scaled(f, by);
            sum = sum.wrapping_add(f);
            self.set_freq(s, f);
            high = high || self.sym(s) >= 0x40;
            left = left - 1;
        }
        self.set_summ_freq(ctx, sum.wrapping_add(scaled(esc, by)));
        let kept: u8 = self.flags(ctx) & (if by == 0 {
            0x10
        } else {
            0x14
        });
        self.set_flags(
            ctx,
            kept.wrapping_add(
                if high {
                    8
                } else {
                    0
                },
            ),
        );
    }

    /// Put the only state of a context into the context itself.
    fn fold_state(&mut self, c: u32, s: u32)
        requires
            old(self).wf(),
        ensures
            final(self).wf(),
            final(self)@ == rules::fold_state(old(self)@, c, s),
    {
        let symbol: u8 = self.sym(s);
        let marks: u8 = (self.flags(c) & FLAG_PREV_HIGH).wrapping_add(high3(symbol));
        self.set_flags(c, marks);
        let f: u32 = (self.freq(s) + 11) / 8;
        self.set_u8(c.wrapping_add(2), symbol);
        self.set_u8(c.wrapping_add(3), #[verifier::truncate] (f as u8));
        let next: u32 = self.successor(s);
        self.set_u32(c.wrapping_add(4), next);
    }

    /// Move the states of a context up to a free block, where one lies
    /// higher.
    fn move_states(&mut self, ctx: u32, nu: u32)
        requires
            old(self).wf(),
        ensures
            final(self).wf(),
            final(self)@ == rules::move_states(old(self)@, ctx, nu),
    {
        reveal(rules::move_states);
        let first: u32 = self.stats(ctx);
        let i: usize = self.sizes.index_of(nu);
        if first.wrapping_sub(self.units_start) <= 0x4000 && first <= self.first_free(i) {
            let ptr: u32 = self.remove_node(i);
            self.set_stats(ctx, ptr);
            self.copy_units(ptr, first, nu);
            if first != self.units_start {
                self.insert_node(first, i);
            } else {
                let bytes: u32 = self.sizes.units_of(i).wrapping_mul(UNIT_SIZE);
                self.units_start = self.units_start.wrapping_add(bytes);
            }
        }
    }

    /// Cut a context back, `depth` symbols down at most.
    #[verifier::spinoff_prover]
    #[verifier::rlimit(40)]
    fn cut_off(&mut self, ctx: u32, order: u32, depth: u32) -> (r: u32)
        requires
            old(self).wf(),
        ensures
            final(self).wf(),
            (final(self)@, r) == rules::cut_off(old(self)@, ctx, order, depth as nat),
        decreases depth,
    {
        let ns: u32 = self.num_stats(ctx);
        if ns == 0 {
            let s: u32 = one_state(ctx);
            let next: u32 = self.successor(s);
            if next >= self.units_start {
                let cut: u32 = if depth > 0 {
                    self.cut_off(next, order.wrapping_add(1), depth - 1)
                } else {
                    0
                };
                self.set_successor(s, cut);
                if cut != 0 || order <= 9 {
                    return ctx;
                }
            }
            self.special_free_unit(ctx);
            return 0;
        }
        let nu: u32 = (ns + 2) / 2;
        self.move_states(ctx, nu);
        let first: u32 = self.stats(ctx);
        let mut s: u32 = nth(first, ns);
        let mut left: i32 = ns as i32;
        let mut n: u32 = ns + 1;
        let ghost whole = rules::cut_states(
            self@,
            first,
            s,
            left as int,
            order,
            depth as nat,
            n as int,
        );
        while n > 0
            invariant
                self.wf(),
                n <= 256,
                n - 1 <= left <= 255,
                whole == rules::cut_states(
                    self@,
                    first,
                    s,
                    left as int,
                    order,
                    depth as nat,
                    n as int,
                ),
            decreases n,
        {
            let next: u32 = self.successor(s);
            if next < self.units_start {
                let last: u32 = nth(first, left as u32);
                left = left - 1;
                if order != 0 {
                    if s != last {
                        self.copy_state(s, last);
                    }
                } else {
                    self.swap_states(s, last);
                    self.set_successor(last, 0);
                }
            } else if depth > 0 {
                let cut: u32 = self.cut_off(next, order.wrapping_add(1), depth - 1);
                self.set_successor(s, cut);
            } else {
                self.set_successor(s, 0);
            }
            s = s.wrapping_sub(STATE);
            n = n - 1;
        }
        self.cut_settle(ctx, first, nu, left, order)
    }

    /// Give a context of which `ns` symbols and one are left its new shape.
    fn cut_settle(&mut self, ctx: u32, first: u32, nu: u32, ns: i32, order: u32) -> (r: u32)
        requires
            old(self).wf(),
            -1 <= ns <= 255,
        ensures
            final(self).wf(),
            (final(self)@, r) == rules::cut_settle(old(self)@, ctx, first, nu, ns as int, order),
    {
        reveal(rules::cut_settle);
        if ns == self.num_stats(ctx) as i32 || order == 0 {
            return ctx;
        }
        if ns < 0 {
            self.free_units(first, nu);
            self.special_free_unit(ctx);
            return 0;
        }
        self.set_num_stats(ctx, ns as u32);
        if ns == 0 {
            self.fold_state(ctx, first);
            self.free_units(first, nu);
        } else {
            let scale: u32 = flag(self.summ_freq(ctx) > 16 * ns as u32);
            self.refresh(ctx, nu, scale);
        }
        ctx
    }

    /// Take the newest symbol out of the contexts from `c` on.
    #[verifier::spinoff_prover]
    fn retract(&mut self, c: u32, end: u32) -> (r: u32)
        requires
            old(self).wf(),
        ensures
            final(self).wf(),
            (final(self)@, r) == rules::retract(old(self)@, c, end, old(self)@.base.len()),
    {
        let mut at: u32 = c;
        let mut fuel: usize = self.arena.len();
        while at != end && fuel > 0
            invariant
                self.wf(),
                rules::retract(old(self)@, c, end, old(self)@.base.len()) == rules::retract(
                    self@,
                    at,
                    end,
                    fuel as nat,
                ),
            decreases fuel,
        {
            let ns: u32 = self.num_stats(at).wrapping_sub(1);
            self.set_num_stats(at, ns);
            if ns == 0 {
                let s: u32 = self.stats(at);
                self.fold_state(at, s);
                self.special_free_unit(s);
            } else {
                let nu: u32 = (self.num_stats(at) + 3) / 2;
                self.refresh(at, nu, 0);
            }
            at = self.suffix(at);
            fuel = fuel - 1;
        }
        at
    }

    /// Let the contexts from `c` on forget some.
    #[verifier::spinoff_prover]
    fn fade(&mut self, c: u32)
        requires
            old(self).wf(),
        ensures
            final(self).wf(),
            final(self)@ == rules::fade(old(self)@, c, old(self)@.base.len()),
    {
        let mut at: u32 = c;
        let mut fuel: usize = self.arena.len();
        while at != self.min_context && fuel > 0
            invariant
                self.wf(),
                rules::fade(old(self)@, c, old(self)@.base.len()) == rules::fade(
                    self@,
                    at,
                    fuel as nat,
                ),
            decreases fuel,
        {
            if self.num_stats(at) == 0 {
                let place: u32 = at.wrapping_add(3);
                let f: u32 = (self.arena.u8_at(place) as u32 + 1) / 2;
                self.set_u8(place, f as u8);
            } else {
                let sum: u32 = self.summ_freq(at) + 4;
                self.set_summ_freq(at, sum);
                if sum > 128 + 4 * self.num_stats(at) {
                    let nu: u32 = (self.num_stats(at) + 2) / 2;
                    self.refresh(at, nu, 1);
                }
            }
            at = self.suffix(at);
            fuel = fuel - 1;
        }
    }

    /// The shortest context from `c` on.
    fn root(&self, c: u32) -> (r: u32)
        ensures
            r == rules::root(self@, c, self@.base.len()),
    {
        let mut at: u32 = c;
        let mut fuel: usize = self.arena.len();
        while fuel > 0 && self.suffix(at) != 0
            invariant
                rules::root(self@, c, self@.base.len()) == rules::root(self@, at, fuel as nat),
            decreases fuel,
        {
            at = self.suffix(at);
            fuel = fuel - 1;
        }
        at
    }

    /// Cut the contexts back until enough memory is free.
    fn cut_back(&mut self)
        requires
            old(self).wf(),
        ensures
            final(self).wf(),
            final(self)@ == rules::cut_back(old(self)@, old(self)@.base.len()),
    {
        let mut fuel: usize = self.arena.len();
        loop
            invariant
                self.wf(),
                rules::cut_back(old(self)@, old(self)@.base.len()) == rules::cut_back(
                    self@,
                    fuel as nat,
                ),
            decreases fuel,
        {
            let _ = self.cut_off(self.max_context, 0, self.max_order);
            self.expand_text_area();
            if fuel == 0 || self.used_memory() <= 3 * (self.size / 4) {
                return;
            }
            fuel = fuel - 1;
        }
    }

    /// Make room once memory is used up.
    fn restore_model(&mut self, ctx_error: u32)
        requires
            old(self).wf(),
        ensures
            final(self).wf(),
            final(self)@ == rules::restore_model(old(self)@, ctx_error),
    {
        reveal(rules::restore_model);
        self.text = self.align_offset;
        let c: u32 = self.retract(self.max_context, ctx_error);
        self.fade(c);
        if self.restore_method == RESTORE_RESTART || self.used_memory() < self.size / 2 {
            self.restart();
        } else {
            self.max_context = self.root(self.max_context);
            self.cut_back();
            self.glue_count = 0;
            self.order_fall = self.max_order;
        }
        self.min_context = self.max_context;
    }

    /// The state of the symbol found in a shorter context, counted there by
    /// `step`.
    fn count_in(&mut self, c: u32, step: u32) -> (r: Option<u32>)
        requires
            old(self).wf(),
        ensures
            final(self).wf(),
            match rules::count_in(old(self)@, c, step) {
                Some((m, s)) => r == Some(s) && final(self)@ == m,
                None => r is None && final(self)@ == old(self)@,
            },
    {
        reveal(rules::count_in);
        let ns: u32 = self.num_stats(c);
        if ns != 0 {
            let symbol: u8 = self.sym(self.found_state);
            match self.find(self.stats(c), symbol, ns + 1) {
                None => None,
                Some(t) => {
                    let f: u32 = self.freq(t);
                    if f < MAX_FREQ - 9 {
                        self.set_freq(t, f.wrapping_add(step));
                        let sum: u32 = self.summ_freq(c);
                        self.set_summ_freq(c, sum.wrapping_add(step));
                    }
                    Some(t)
                },
            }
        } else {
            let t: u32 = one_state(c);
            let f: u32 = self.freq(t);
            let bump: u32 = if step == 1 {
                flag(self.num_stats(self.suffix(c)) == 0 && f < 24)
            } else {
                flag(f < 32)
            };
            self.set_freq(t, f + bump);
            Some(t)
        }
    }

    /// The frequency that the symbol of a new context starts with.
    fn inherited(&self, c: u32, symbol: u8) -> (r: Option<u32>)
        ensures
            r == rules::inherited(self@, c, symbol),
    {
        reveal(rules::inherited);
        let ns: u32 = self.num_stats(c);
        if ns == 0 {
            return Some(self.arena.u8_at(c.wrapping_add(3)) as u32);
        }
        match self.find(self.stats(c), symbol, ns + 1) {
            None => None,
            Some(s) => {
                let cf: u32 = self.freq(s).wrapping_sub(1);
                let s0: u32 = self.summ_freq(c).wrapping_sub(ns).wrapping_sub(cf);
                if 2 * (cf as u64) <= s0 as u64 {
                    Some(1 + flag(5 * (cf as u64) > s0 as u64))
                } else if s0 == 0 {
                    None
                } else {
                    Some((cf.wrapping_add(s0.wrapping_mul(2)).wrapping_sub(3) / s0).wrapping_add(1))
                }
            },
        }
    }

    /// Make the contexts that the symbol found leads to from `c`.
    #[verifier::spinoff_prover]
    #[verifier::rlimit(60)]
    fn create_successors(&mut self, skip: bool, s1: u32, c: u32) -> (r: u32)
        requires
            old(self).wf(),
        ensures
            final(self).wf(),
            (final(self)@, r) == rules::create_successors(old(self)@, skip, s1, c),
    {
        reveal(rules::create_successors);
        let up: u32 = self.successor(self.found_state);
        let mut at: u32 = c;
        let mut known: u32 = s1;
        let mut ps: Vec<u32> = Vec::new();
        if !skip {
            ps.push(self.found_state);
        }
        let mut fuel: usize = MAX_ORDER as usize + 2;
        proof {
            if skip {
                assert(ps@ =~= Seq::<u32>::empty());
            } else {
                assert(ps@ =~= seq![self.found_state]);
            }
        }
        let ghost whole = rules::climb(self@, at, known, ps@, up, fuel as nat);
        let mut climbing: bool = true;
        while climbing && self.suffix(at) != 0
            invariant
                self.wf(),
                climbing ==> whole == rules::climb(self@, at, known, ps@, up, fuel as nat),
                !climbing ==> whole == (self@, Climb::Make(at, ps@)) && ps@.len() > 0,
                rules::create_successors(old(self)@, skip, s1, c) == match whole {
                    (a, Climb::Fail) => (a, 0u32),
                    (a, Climb::Found(d)) => (a, d),
                    (a, Climb::Make(d, all)) => {
                        let symbol = arena::get8(a.base, up);
                        let marks = rules::high4(rules::sym(a, a.found_state)).wrapping_add(
                            rules::high3(symbol),
                        );
                        match rules::inherited(a, d, symbol) {
                            None => (a, 0u32),
                            Some(f) => rules::grow(
                                a,
                                d,
                                all,
                                symbol,
                                f,
                                up.wrapping_add(1),
                                marks,
                            ),
                        }
                    },
                },
            decreases fuel, (if climbing {
                1int
            } else {
                0
            }),
        {
            if fuel == 0 {
                return 0;
            }
            let d: u32 = self.suffix(at);
            let s: u32 = if known != 0 {
                known
            } else {
                match self.count_in(d, 1) {
                    None => {
                        return 0;
                    },
                    Some(t) => t,
                }
            };
            known = 0;
            let next: u32 = self.successor(s);
            if next != up {
                if ps.len() == 0 {
                    return next;
                }
                at = next;
                climbing = false;
            } else if ps.len() >= MAX_ORDER as usize {
                return 0;
            } else {
                at = d;
                ps.push(s);
                fuel = fuel - 1;
            }
        }
        let symbol: u8 = self.arena.u8_at(up);
        let marks: u8 = high4(self.sym(self.found_state)).wrapping_add(high3(symbol));
        let f: u32 = match self.inherited(at, symbol) {
            None => {
                return 0;
            },
            Some(f) => f,
        };
        let next: u32 = up.wrapping_add(1);
        let ghost grown = rules::grow(self@, at, ps@, symbol, f, next, marks);
        while ps.len() > 0
            invariant
                self.wf(),
                grown == rules::grow(self@, at, ps@, symbol, f, next, marks),
                grown == rules::create_successors(old(self)@, skip, s1, c),
            decreases ps.len(),
        {
            let ghost all = ps@;
            let last: u32 = ps[ps.len() - 1];
            let c1: u32 = self.alloc_context();
            if c1 == 0 {
                return 0;
            }
            self.set_flags(c1, marks);
            self.set_num_stats(c1, 0);
            self.set_u8(c1.wrapping_add(2), symbol);
            self.set_u8(c1.wrapping_add(3), #[verifier::truncate] (f as u8));
            self.set_successor(one_state(c1), next);
            self.set_suffix(c1, at);
            self.set_successor(last, c1);
            let _ = ps.pop();
            assert(ps@ =~= all.drop_last());
            at = c1;
        }
        at
    }

    /// Let the states of shorter contexts that lead nowhere lead to the text.
    #[verifier::spinoff_prover]
    fn descend(&mut self, c: u32, s1: u32, up: u32) -> (r: Option<(u32, u32)>)
        requires
            old(self).wf(),
        ensures
            final(self).wf(),
            (final(self)@, r) == rules::descend(old(self)@, c, s1, up, old(self)@.base.len()),
    {
        let mut at: u32 = c;
        let mut known: u32 = s1;
        let mut fuel: usize = self.arena.len();
        while fuel > 0
            invariant
                self.wf(),
                rules::descend(old(self)@, c, s1, up, old(self)@.base.len()) == rules::descend(
                    self@,
                    at,
                    known,
                    up,
                    fuel as nat,
                ),
            decreases fuel,
        {
            let d: u32 = self.suffix(at);
            if known == 0 && d == 0 {
                return Some((at, 0));
            }
            let s: u32 = if known != 0 {
                known
            } else {
                match self.count_in(d, 2) {
                    None => {
                        return None;
                    },
                    Some(t) => t,
                }
            };
            if self.successor(s) != 0 {
                return Some((d, s));
            }
            self.set_successor(s, up);
            self.order_fall = self.order_fall.wrapping_add(1);
            at = d;
            known = 0;
            fuel = fuel - 1;
        }
        None
    }

    /// Find the context that the symbol found leads to where it led nowhere.
    #[verifier::spinoff_prover]
    fn reduce_order(&mut self, s1: u32, c: u32) -> (r: u32)
        requires
            old(self).wf(),
        ensures
            final(self).wf(),
            (final(self)@, r) == rules::reduce_order(old(self)@, s1, c),
    {
        reveal(rules::reduce_order);
        let up: u32 = self.text;
        self.set_successor(self.found_state, up);
        self.order_fall = self.order_fall.wrapping_add(1);
        let (at, s) = match self.descend(c, s1, up) {
            None => {
                return 0;
            },
            Some(x) => x,
        };
        if s == 0 {
            return at;
        }
        if self.successor(s) <= up {
            let found: u32 = self.found_state;
            self.found_state = s;
            let made: u32 = self.create_successors(false, 0, at);
            self.set_successor(s, made);
            self.found_state = found;
        }
        let next: u32 = self.successor(s);
        if self.order_fall == 1 && c == self.max_context {
            self.set_successor(self.found_state, next);
            self.text = self.text.wrapping_sub(1);
        }
        next
    }

    /// Count the symbol found in the next shorter context too, and note its
    /// state there.
    fn count_shorter(&mut self) -> (r: Option<u32>)
        requires
            old(self).wf(),
        ensures
            final(self).wf(),
            match rules::count_shorter(old(self)@) {
                Some((m, s)) => r == Some(s) && final(self)@ == m,
                None => r is None && final(self)@ == old(self)@,
            },
    {
        reveal(rules::count_shorter);
        let symbol: u8 = self.sym(self.found_state);
        let c: u32 = self.suffix(self.min_context);
        if self.freq(self.found_state) >= MAX_FREQ / 4 || c == 0 {
            return Some(0);
        }
        let ns: u32 = self.num_stats(c);
        if ns == 0 {
            let s: u32 = one_state(c);
            let f: u32 = self.freq(s);
            if f < 32 {
                self.set_freq(s, f + 1);
            }
            return Some(s);
        }
        let first: u32 = self.stats(c);
        let mut s: u32 = match self.find(first, symbol, ns + 1) {
            None => {
                return None;
            },
            Some(s) => s,
        };
        if s != first {
            let before: u32 = s.wrapping_sub(STATE);
            if self.freq(s) >= self.freq(before) {
                self.swap_states(s, before);
                s = before;
            }
        }
        let f: u32 = self.freq(s);
        if f < MAX_FREQ - 9 {
            self.set_freq(s, f + 2);
            let sum: u32 = self.summ_freq(c);
            self.set_summ_freq(c, sum + 2);
        }
        Some(s)
    }

    /// Make room for one more state in a context: the sum of the context, if
    /// there is room.
    #[verifier::spinoff_prover]
    fn make_room(&mut self, c: u32, ns: u32) -> (r: Option<u32>)
        requires
            old(self).wf(),
            ns <= 0xff,
        ensures
            final(self).wf(),
            match rules::make_room(old(self)@, c, ns) {
                (m, sum, ok) => final(self)@ == m && if ok {
                    r == Some(sum)
                } else {
                    r is None
                },
            },
    {
        reveal(rules::make_room);
        let ns1: u32 = self.num_stats(c);
        if ns1 != 0 {
            if ns1 % 2 == 1 {
                let old_nu: u32 = (ns1 + 1) / 2;
                let i: usize = self.sizes.index_of(old_nu);
                if i != self.sizes.index_of(old_nu + 1) {
                    let ptr: u32 = self.alloc_units(i + 1);
                    if ptr == 0 {
                        return None;
                    }
                    let from: u32 = self.stats(c);
                    self.copy_units(ptr, from, old_nu);
                    self.insert_node(from, i);
                    self.set_stats(c, ptr);
                }
            }
            Some(self.summ_freq(c) + flag(3 * ns1 + 1 < ns))
        } else {
            let ptr: u32 = self.alloc_units(0);
            if ptr == 0 {
                return None;
            }
            let symbol: u8 = self.arena.u8_at(c.wrapping_add(2));
            let next: u32 = self.arena.u32_at(c.wrapping_add(4));
            self.set_u8(ptr, symbol);
            self.set_u32(ptr.wrapping_add(2), next);
            self.set_stats(c, ptr);
            let was: u32 = self.arena.u8_at(c.wrapping_add(3)) as u32;
            let f: u32 = if was < MAX_FREQ / 4 - 1 {
                2 * was
            } else {
                MAX_FREQ - 4
            };
            self.set_freq(ptr, f);
            Some(f.wrapping_add(self.init_esc).wrapping_add(flag(ns > 2)))
        }
    }

    /// Let the model learn the symbol found, once its successors are there.
    #[verifier::spinoff_prover]
    #[verifier::rlimit(60)]
    fn learn(&mut self, leads: u32, next: u32, f: u32, symbol: u8)
        requires
            old(self).wf(),
            f <= 0xff,
        ensures
            final(self).wf(),
            final(self)@ == rules::learn(old(self)@, leads, next, f, symbol),
    {
        reveal(rules::learn);
        let ns: u32 = self.num_stats(self.min_context);
        let s0: u32 = self.summ_freq(self.min_context).wrapping_sub(ns).wrapping_sub(f);
        let mut c: u32 = self.max_context;
        let mut fuel: usize = self.arena.len();
        let ghost whole = rules::spread(self@, c, ns, s0, f, symbol, next, fuel as nat);
        while c != self.min_context
            invariant
                self.wf(),
                f <= 0xff,
                ns <= 0xff,
                whole == rules::spread(self@, c, ns, s0, f, symbol, next, fuel as nat),
                rules::learn(old(self)@, leads, next, f, symbol) == if whole.2 {
                    Model { max_context: leads, min_context: leads, ..whole.0 }
                } else {
                    rules::restore_model(whole.0, whole.1)
                },
            decreases fuel,
        {
            if fuel == 0 {
                self.restore_model(c);
                return;
            }
            let ns1: u32 = self.num_stats(c);
            let sum: u32 = match self.make_room(c, ns) {
                None => {
                    self.restore_model(c);
                    return;
                },
                Some(sum) => sum,
            };
            let (x, more) = share(sum, s0, f);
            let s: u32 = nth(self.stats(c), ns1 + 1);
            self.set_u8(s, symbol);
            self.set_num_stats(c, ns1 + 1);
            self.set_successor(s, next);
            let marks: u8 = self.flags(c) | high3(symbol);
            self.set_flags(c, marks);
            self.set_summ_freq(c, sum.wrapping_add(more));
            self.set_freq(s, x);
            c = self.suffix(c);
            fuel = fuel - 1;
        }
        self.max_context = leads;
        self.min_context = leads;
    }

    /// Let the model learn the symbol found.
    #[verifier::spinoff_prover]
    #[verifier::rlimit(60)]
    fn update_model(&mut self)
        requires
            old(self).wf(),
        ensures
            final(self).wf(),
            final(self)@ == rules::update_model(old(self)@),
    {
        reveal(rules::update_model);
        let leads: u32 = self.successor(self.found_state);
        let symbol: u8 = self.sym(self.found_state);
        let f: u32 = self.freq(self.found_state);
        let c: u32 = self.max_context;
        let s: u32 = match self.count_shorter() {
            None => {
                self.restart();
                return;
            },
            Some(s) => s,
        };
        if self.order_fall == 0 && leads != 0 {
            let cs: u32 = self.create_successors(true, s, self.min_context);
            self.set_successor(self.found_state, cs);
            if cs == 0 {
                self.restore_model(c);
                return;
            }
            self.min_context = cs;
            self.max_context = cs;
            return;
        }
        self.set_u8(self.text, symbol);
        self.text = self.text.wrapping_add(1);
        let text: u32 = self.text;
        if text >= self.units_start {
            self.restore_model(c);
            return;
        }
        let mut made: u32 = leads;
        if leads == 0 {
            made = self.reduce_order(s, self.min_context);
        } else if leads < self.units_start {
            made = self.create_successors(false, s, self.min_context);
        }
        if made == 0 {
            self.restore_model(c);
            return;
        }
        self.order_fall = self.order_fall.wrapping_sub(1);
        if self.order_fall == 0 {
            let back: u32 = flag(self.max_context != self.min_context);
            self.text = self.text.wrapping_sub(back);
            self.learn(made, made, f, symbol);
        } else {
            self.learn(made, text, f, symbol);
        }
    }

    /// Halve the frequencies of the context, the symbol found first.
    #[verifier::spinoff_prover]
    #[verifier::rlimit(80)]
    fn rescale(&mut self)
        requires
            old(self).wf(),
        ensures
            final(self).wf(),
            final(self)@ == rules::rescale(old(self)@),
    {
        reveal(rules::rescale);
        let mc: u32 = self.min_context;
        let first: u32 = self.stats(mc);
        let mut s: u32 = self.found_state;
        if s > first {
            let state: [u8; 6] = self.arena.state(s);
            let ghost moved = rules::shift_states(self@, s, first);
            while s > first && s >= STATE
                invariant
                    self.wf(),
                    moved == rules::shift_states(self@, s, first),
                decreases s,
            {
                self.copy_state(s, s - STATE);
                s = s - STATE;
            }
            self.arena.set_state(first, state);
        }
        let f: u32 = self.freq(first);
        let mut esc: u32 = self.summ_freq(mc).wrapping_sub(f);
        let adder: u32 = flag(self.order_fall != 0);
        let mut sum: u32 = (f + 4 + adder) / 2;
        self.set_freq(first, sum);
        let mut n: u32 = self.num_stats(mc);
        s = first;
        let ghost halved = rules::halve(self@, s, first, n, adder, sum, esc);
        while n > 0
            invariant
                self.wf(),
                adder <= 1,
                halved == rules::halve(self@, s, first, n, adder, sum, esc),
            decreases n,
        {
            let t: u32 = s.wrapping_add(STATE);
            let f: u32 = self.freq(t);
            esc = esc.wrapping_sub(f);
            let f: u32 = (f + adder) / 2;
            self.set_freq(t, f);
            sum = sum.wrapping_add(f);
            if f > self.freq(s) {
                self.sink(t, first, f);
            }
            s = t;
            n = n - 1;
        }
        if self.freq(s) == 0 {
            let mut gone: u32 = 1;
            let mut at: u32 = s.wrapping_sub(STATE);
            let mut fuel: u32 = 256;
            let ghost worn = rules::worn_out(self@, s, 0, 256);
            while fuel > 0 && self.freq(at) == 0
                invariant
                    self.wf(),
                    fuel <= 256,
                    gone + fuel == 257,
                    worn == rules::worn_out(
                        self@,
                        at.wrapping_add(STATE),
                        (gone - 1) as u32,
                        fuel,
                    ),
                    at.wrapping_add(STATE).wrapping_sub(STATE) == at,
                decreases fuel,
            {
                at = at.wrapping_sub(STATE);
                gone = gone + 1;
                fuel = fuel - 1;
            }
            assert(worn == gone);
            let before: u32 = self.num_stats(mc);
            let left: u32 = before.wrapping_sub(gone);
            self.set_num_stats(mc, left);
            esc = esc.wrapping_add(gone);
            let n0: u32 = (before + 2) / 2;
            if left == 0 {
                let share: u64 = if esc == 0 {
                    MAX_FREQ as u64
                } else {
                    (2 * self.freq(first) as u64 + (esc as u64 - 1)) / esc as u64
                };
                let f: u32 = if share > MAX_FREQ as u64 / 3 {
                    MAX_FREQ / 3
                } else {
                    share as u32
                };
                let marks: u8 = (self.flags(mc) & FLAG_PREV_HIGH).wrapping_add(
                    high3(self.sym(first)),
                );
                self.set_flags(mc, marks);
                let one: u32 = one_state(mc);
                self.copy_state(one, first);
                self.set_freq(one, f);
                self.found_state = one;
                let index: usize = self.sizes.index_of(n0);
                self.insert_node(first, index);
                return;
            }
            let n1: u32 = left.wrapping_add(2) / 2;
            if n0 != n1 {
                let at: u32 = self.shrink_units(first, n0, n1);
                self.set_stats(mc, at);
            }
        }
        let mc: u32 = self.min_context;
        self.set_summ_freq(mc, sum.wrapping_add(esc).wrapping_sub(esc / 2));
        let marks: u8 = self.flags(mc) | FLAG_RESCALED;
        self.set_flags(mc, marks);
        self.found_state = self.stats(mc);
    }

    /// Put a state in its place among those before it.
    fn sink(&mut self, t: u32, first: u32, f: u32)
        requires
            old(self).wf(),
        ensures
            final(self).wf(),
            ({
                let state = arena::state_at(old(self)@.base, t);
                let (x, at) = rules::sink(old(self)@, t, first, f);
                final(self)@ == (Model { base: arena::with_state(x.base, at, state), ..x })
            }),
    {
        let state: [u8; 6] = self.arena.state(t);
        let mut s: u32 = t;
        let ghost whole = rules::sink(self@, s, first, f);
        let mut sinking: bool = true;
        while sinking && s >= STATE
            invariant
                self.wf(),
                sinking ==> whole == rules::sink(self@, s, first, f),
                !sinking ==> whole == (self@, s),
            decreases s, (if sinking {
                1int
            } else {
                0
            }),
        {
            self.copy_state(s, s - STATE);
            s = s - STATE;
            if s <= first || f <= self.freq(s.wrapping_sub(STATE)) {
                sinking = false;
            }
        }
        self.arena.set_state(s, state);
    }

    /// The escape estimate that the context uses.
    #[verifier::spinoff_prover]
    fn see_index(&self, num_masked: u32) -> (r: Option<usize>)
        requires
            self.wf(),
            num_masked <= 0xff,
        ensures
            match rules::see_index(self@, num_masked) {
                Some(i) => r == Some(i as usize) && 0 <= i < 768,
                None => r is None,
            },
    {
        reveal(rules::see_index);
        let mc: u32 = self.min_context;
        let ns: u32 = self.num_stats(mc);
        if ns == 0xFF {
            return None;
        }
        let row: i64 = self.ns2indx[ns as usize + 2] as i64 - 3;
        let column: i64 = flag(self.summ_freq(mc) > 11 * (ns + 1)) as i64 + 2 * flag(
            2 * ns < self.num_stats(self.suffix(mc)) + num_masked,
        ) as i64 + self.flags(mc) as i64;
        let i: i64 = 32 * row + column;
        if i >= 0 && i < 768 {
            Some(i as usize)
        } else {
            None
        }
    }

    fn see_update(&mut self, at: Option<usize>)
        requires
            old(self).wf(),
            at matches Some(i) ==> i < 768,
        ensures
            final(self).wf(),
            final(self)@ == rules::see_updated(
                old(self)@,
                match at {
                    Some(i) => Some(i as int),
                    None => None,
                },
            ),
    {
        if let Some(i) = at {
            let mut e: See = self.see[i];
            e.update();
            self.see.set(i, e);
        }
    }

    fn see_add(&mut self, at: Option<usize>, v: u32)
        requires
            old(self).wf(),
            at matches Some(i) ==> i < 768,
        ensures
            final(self).wf(),
            final(self)@ == rules::see_added(
                old(self)@,
                match at {
                    Some(i) => Some(i as int),
                    None => None,
                },
                v,
            ),
    {
        if let Some(i) = at {
            let e: See = self.see[i];
            self.see.set(
                i,
                See { summ: e.summ.wrapping_add(#[verifier::truncate] (v as u16)), ..e },
            );
        }
    }

    /// What is set aside for leaving the context.
    fn make_esc_freq(&mut self, at: Option<usize>) -> (r: u32)
        requires
            old(self).wf(),
            at matches Some(i) ==> i < 768,
        ensures
            final(self).wf(),
            ({
                let i = match at {
                    Some(i) => Some(i as int),
                    None => None,
                };
                r == rules::escape(old(self)@, i) && final(self)@ == rules::see_used(old(self)@, i)
            }),
    {
        match at {
            Some(i) => {
                let mut e: See = self.see[i];
                let r: u32 = e.mean();
                self.see.set(i, e);
                r
            },
            None => 1,
        }
    }

    fn next_context(&mut self)
        requires
            old(self).wf(),
        ensures
            final(self).wf(),
            final(self)@ == rules::next_context(old(self)@),
    {
        reveal(rules::next_context);
        let c: u32 = self.successor(self.found_state);
        if self.order_fall == 0 && c >= self.units_start {
            self.min_context = c;
            self.max_context = c;
        } else {
            self.update_model();
        }
    }

    fn update1(&mut self)
        requires
            old(self).wf(),
        ensures
            final(self).wf(),
            final(self)@ == rules::update1(old(self)@),
    {
        reveal(rules::update1);
        let s: u32 = self.found_state;
        let mc: u32 = self.min_context;
        let f: u32 = self.freq(s) + 4;
        let sum: u32 = self.summ_freq(mc);
        self.set_summ_freq(mc, sum + 4);
        self.set_freq(s, f);
        let before: u32 = s.wrapping_sub(STATE);
        if f > self.freq(before) {
            self.swap_states(s, before);
            self.found_state = before;
            if f > MAX_FREQ {
                self.rescale();
            }
        }
        self.next_context();
    }

    fn update1_0(&mut self)
        requires
            old(self).wf(),
        ensures
            final(self).wf(),
            final(self)@ == rules::update1_0(old(self)@),
    {
        reveal(rules::update1_0);
        let s: u32 = self.found_state;
        let mc: u32 = self.min_context;
        let f: u32 = self.freq(s);
        let sum: u32 = self.summ_freq(mc);
        let success: u32 = flag(2 * f >= sum);
        self.prev_success = success;
        self.run_length = self.run_length.wrapping_add(success as i32);
        self.set_summ_freq(mc, sum + 4);
        let f: u32 = f + 4;
        self.set_freq(s, f);
        if f > MAX_FREQ {
            self.rescale();
        }
        self.next_context();
    }

    fn update_bin(&mut self)
        requires
            old(self).wf(),
        ensures
            final(self).wf(),
            final(self)@ == rules::update_bin(old(self)@),
    {
        reveal(rules::update_bin);
        let s: u32 = self.found_state;
        let f: u32 = self.freq(s);
        let c: u32 = self.successor(s);
        self.prev_success = 1;
        self.run_length = self.run_length.wrapping_add(1);
        self.set_freq(s, f + flag(f < 196));
        if self.order_fall == 0 && c >= self.units_start {
            self.min_context = c;
            self.max_context = c;
        } else {
            self.update_model();
        }
    }

    fn update2(&mut self)
        requires
            old(self).wf(),
        ensures
            final(self).wf(),
            final(self)@ == rules::update2(old(self)@),
    {
        reveal(rules::update2);
        let s: u32 = self.found_state;
        let mc: u32 = self.min_context;
        let f: u32 = self.freq(s) + 4;
        self.run_length = self.init_rl;
        let sum: u32 = self.summ_freq(mc);
        self.set_summ_freq(mc, sum + 4);
        self.set_freq(s, f);
        if f > MAX_FREQ {
            self.rescale();
        }
        self.update_model();
    }

    /// The estimate that the context of one symbol uses, if there is one.
    fn bin_summ_index(&self) -> (r: Option<usize>)
        requires
            self.wf(),
        ensures
            ({
                let i = rules::bin_index(self@);
                if 0 <= i < 1600 {
                    r == Some(i as usize)
                } else {
                    r is None
                }
            }),
    {
        reveal(rules::bin_index);
        let mc: u32 = self.min_context;
        let one: u32 = one_state(mc);
        let f: u32 = self.freq(one);
        if f == 0 {
            return None;
        }
        let run: u64 = if self.run_length < 0 {
            0x20
        } else {
            0
        };
        let shorter: u32 = self.num_stats(self.suffix(mc));
        let i: u64 = 64 * self.ns2indx[f as usize - 1] as u64 + self.prev_success as u64 + run
            + ns2bs_indx(shorter) as u64 + self.flags(mc) as u64;
        if i < 1600 {
            Some(i as usize)
        } else {
            None
        }
    }

    /// Find a symbol in shorter contexts.
    #[verifier::spinoff_prover]
    #[verifier::rlimit(80)]
    fn escaped(&mut self, masked: Vec<bool>) -> (r: i32)
        requires
            old(self).wf(),
            masked@.len() == 256,
        ensures
            final(self).wf(),
            (final(self)@, r) == rules::escaped(old(self)@, masked@, old(self)@.base.len()),
    {
        let mut mask: Vec<bool> = masked;
        let mut fuel: usize = self.arena.len();
        let ghost whole = rules::escaped(self@, mask@, fuel as nat);
        loop
            invariant
                self.wf(),
                mask@.len() == 256,
                whole == rules::escaped(self@, mask@, fuel as nat),
                whole == rules::escaped(old(self)@, masked@, old(self)@.base.len()),
            decreases fuel,
        {
            self.rc.normalize_remote();
            let num_masked: u32 = self.num_stats(self.min_context);
            let (mc, kind) = self.fall(num_masked);
            if kind == 1 {
                return SYM_END;
            }
            if kind == 2 {
                return SYM_ERROR;
            }
            self.min_context = mc;
            let first: u32 = self.stats(mc);
            let n: u32 = self.num_stats(mc) + 1;
            let hi: u32 = self.open_freqs(&mask, first, n);
            let at: Option<usize> = self.see_index(num_masked);
            let esc: u32 = self.make_esc_freq(at);
            let sum: u32 = esc.wrapping_add(hi);
            let mut total: u32 = sum;
            self.rc.correct_sum_range(&mut total);
            let count: u32 = self.rc.threshold(total);
            if count < hi {
                let (s, past) = self.seek_open(&mask, first, count, n);
                let f: u32 = self.freq(s);
                self.rc.decode(count.wrapping_sub(past).wrapping_sub(f), f);
                self.rc.normalize_remote();
                self.see_update(at);
                self.found_state = s;
                let symbol: u8 = self.sym(s);
                self.update2();
                return symbol as i32;
            }
            if count >= total || fuel == 0 {
                return SYM_ERROR;
            }
            self.rc.decode(hi, total.wrapping_sub(hi));
            self.see_add(at, sum);
            let first: u32 = self.stats(mc);
            self.mask_states(&mut mask, first, n);
            fuel = fuel - 1;
        }
    }

    /// Follow shorter contexts to one that knows other symbols: it and zero,
    /// or one where there is none, or two where they do not end.
    fn fall(&mut self, num_masked: u32) -> (r: (u32, u8))
        requires
            old(self).wf(),
        ensures
            final(self).wf(),
            match rules::fall(
                old(self)@,
                old(self)@.min_context,
                num_masked,
                old(self)@.order_fall,
                old(self)@.base.len(),
            ) {
                Fallen::To(mc, order) => r == (mc, 0u8) && final(self)@ == (Model {
                    order_fall: order,
                    ..old(self)@
                }),
                Fallen::End(order) => r.1 == 1 && final(self)@ == (Model {
                    order_fall: order,
                    ..old(self)@
                }),
                Fallen::Bad(order) => r.1 == 2 && final(self)@ == (Model {
                    order_fall: order,
                    ..old(self)@
                }),
            },
    {
        let mut mc: u32 = self.min_context;
        let mut fuel: usize = self.arena.len();
        let ghost m = self@;
        let ghost whole = rules::fall(m, mc, num_masked, self.order_fall, fuel as nat);
        loop
            invariant
                self.wf(),
                m == old(self)@,
                self@ == (Model { order_fall: self.order_fall, ..m }),
                whole == rules::fall(
                    m,
                    m.min_context,
                    num_masked,
                    m.order_fall,
                    m.base.len(),
                ),
                whole == rules::fall(m, mc, num_masked, self.order_fall, fuel as nat),
            decreases fuel,
        {
            self.order_fall = self.order_fall.wrapping_add(1);
            if fuel == 0 {
                return (0, 2);
            }
            let d: u32 = self.suffix(mc);
            if d == 0 {
                return (0, 1);
            }
            if self.num_stats(d) != num_masked {
                return (d, 0);
            }
            mc = d;
            fuel = fuel - 1;
        }
    }

    /// The frequency of a state, none if its symbol has been escaped from.
    fn open_freq(&self, mask: &Vec<bool>, s: u32) -> (r: u32)
        requires
            mask@.len() == 256,
        ensures
            r == rules::open_freq(self@, mask@, s),
    {
        if mask[self.sym(s) as usize] {
            0
        } else {
            self.freq(s)
        }
    }

    /// The sum of those of `n` states.
    fn open_freqs(&self, mask: &Vec<bool>, first: u32, n: u32) -> (r: u32)
        requires
            mask@.len() == 256,
        ensures
            r == rules::open_freqs(self@, mask@, first, n, 0),
    {
        let mut s: u32 = first;
        let mut left: u32 = n;
        let mut sum: u32 = 0;
        while left > 0
            invariant
                mask@.len() == 256,
                rules::open_freqs(self@, mask@, first, n, 0) == rules::open_freqs(
                    self@,
                    mask@,
                    s,
                    left,
                    sum,
                ),
            decreases left,
        {
            sum = sum.wrapping_add(self.open_freq(mask, s));
            s = s.wrapping_add(STATE);
            left = left - 1;
        }
        sum
    }

    /// The state in whose interval `count` lies, of `n` from `first` on.
    fn seek_open(&self, mask: &Vec<bool>, first: u32, count: u32, n: u32) -> (r: (u32, u32))
        requires
            mask@.len() == 256,
        ensures
            r == rules::seek_open(self@, mask@, first, count, n),
    {
        let mut s: u32 = first;
        let mut past: u32 = count;
        let mut left: u32 = n;
        loop
            invariant
                mask@.len() == 256,
                rules::seek_open(self@, mask@, first, count, n) == rules::seek_open(
                    self@,
                    mask@,
                    s,
                    past,
                    left,
                ),
            decreases left,
        {
            past = past.wrapping_sub(self.open_freq(mask, s));
            if past >= 0x8000_0000 || left == 0 {
                return (s, past);
            }
            s = s.wrapping_add(STATE);
            left = left - 1;
        }
    }

    /// Mask the symbols of `n` states.
    fn mask_states(&self, mask: &mut Vec<bool>, first: u32, n: u32)
        requires
            old(mask)@.len() == 256,
        ensures
            final(mask)@ == rules::mask_states(self@, old(mask)@, first, n),
            final(mask)@.len() == 256,
    {
        let mut s: u32 = first;
        let mut left: u32 = n;
        while left > 0
            invariant
                mask@.len() == 256,
                rules::mask_states(self@, old(mask)@, first, n) == rules::mask_states(
                    self@,
                    mask@,
                    s,
                    left,
                ),
            decreases left,
        {
            mask.set(self.sym(s) as usize, true);
            s = s.wrapping_add(STATE);
            left = left - 1;
        }
    }

    /// The state in whose interval `count` lies, of up to `n` after `s`.
    fn seek(&self, s: u32, count: u32, n: u32) -> (r: (Option<u32>, u32))
        ensures
            r == rules::seek(self@, s, count, n),
    {
        let mut t: u32 = s;
        let mut past: u32 = count;
        let mut left: u32 = n;
        while left > 0
            invariant
                rules::seek(self@, s, count, n) == rules::seek(self@, t, past, left),
            decreases left,
        {
            t = t.wrapping_add(STATE);
            past = past.wrapping_sub(self.freq(t));
            if past >= 0x8000_0000 {
                return (Some(t), past);
            }
            left = left - 1;
        }
        (None, past)
    }

    #[verifier::spinoff_prover]
    #[verifier::rlimit(40)]
    fn decode_many(&mut self) -> (r: i32)
        requires
            old(self).wf(),
        ensures
            final(self).wf(),
            (final(self)@, r) == rules::decode_many(old(self)@),
    {
        reveal(rules::decode_many);
        let mc: u32 = self.min_context;
        let s: u32 = self.stats(mc);
        let mut total: u32 = self.summ_freq(mc);
        self.rc.correct_sum_range(&mut total);
        let hi: u32 = self.rc.threshold(total);
        let f: u32 = self.freq(s);
        let count: u32 = hi.wrapping_sub(f);
        if count >= 0x8000_0000 {
            self.rc.decode(0, f);
            self.rc.normalize_remote();
            self.found_state = s;
            let symbol: u8 = self.sym(s);
            self.update1_0();
            return symbol as i32;
        }
        self.prev_success = 0;
        let n: u32 = self.num_stats(mc);
        match self.seek(s, count, n) {
            (Some(t), left) => {
                let f: u32 = self.freq(t);
                self.rc.decode(hi.wrapping_sub(left).wrapping_sub(f), f);
                self.rc.normalize_remote();
                self.found_state = t;
                let symbol: u8 = self.sym(t);
                self.update1();
                symbol as i32
            },
            (None, left) => {
                if hi >= total {
                    return SYM_ERROR;
                }
                let used: u32 = hi.wrapping_sub(left);
                self.rc.decode(used, total.wrapping_sub(used));
                let first: u32 = self.stats(mc);
                let n: u32 = self.num_stats(mc) + 1;
                let mut mask: Vec<bool> = vec![false; 256];
                assert(mask@ =~= rules::none_masked());
                self.mask_states(&mut mask, first, n);
                self.escaped(mask)
            },
        }
    }

    #[verifier::spinoff_prover]
    #[verifier::rlimit(40)]
    fn decode_one(&mut self) -> (r: i32)
        requires
            old(self).wf(),
        ensures
            final(self).wf(),
            (final(self)@, r) == rules::decode_one(old(self)@),
    {
        reveal(rules::decode_one);
        let one: u32 = one_state(self.min_context);
        let i: usize = match self.bin_summ_index() {
            None => {
                return SYM_ERROR;
            },
            Some(i) => i,
        };
        let pr: u32 = self.bin_summ[i] as u32;
        let left: u32 = pr - mean(pr);
        let size0: u32 = (self.rc.range() / BIN_SCALE).wrapping_mul(pr);
        if self.rc.code() < size0 {
            self.bin_summ.set(i, #[verifier::truncate] ((left + 128) as u16));
            self.rc.set_range(size0);
            self.rc.normalize();
            self.found_state = one;
            let symbol: u8 = self.sym(one);
            self.update_bin();
            return symbol as i32;
        }
        self.bin_summ.set(i, #[verifier::truncate] (left as u16));
        self.init_esc = cost_of_escape(left);
        self.rc.decode_bit1(size0);
        self.prev_success = 0;
        let mut mask: Vec<bool> = vec![false; 256];
        assert(mask@ =~= rules::none_masked());
        mask.set(self.sym(one) as usize, true);
        self.escaped(mask)
    }

    /// Decode a symbol. What comes back is the symbol, or `SYM_END` where the
    /// data ends, or `SYM_ERROR` where nothing can be decoded.
    pub fn decode_symbol(&mut self) -> (r: i32)
        requires
            old(self).wf(),
        ensures
            final(self).wf(),
            (final(self)@, r) == rules::decoded(old(self)@),
    {
        if self.num_stats(self.min_context) != 0 {
            self.decode_many()
        } else {
            self.decode_one()
        }
    }

    /// A model of `mem_size` bytes and order `max_order` on `inner`.
    #[verifier::spinoff_prover]
    pub fn new(inner: Vec<u8>, mem_size: u32, max_order: u32, restore_method: u32) -> (r: Result<
        Self,
    >)
        requires
            max_order <= MAX_ORDER,
            mem_size <= 0xffff_ff00,
        ensures
            match range::started(inner@) {
                Some(rc) => r matches Ok(m) && m.wf() && m@ == rules::fresh(
                    rc,
                    mem_size,
                    max_order,
                    restore_method,
                ),
                None => r matches Err(e) && e == Error::Malformed,
            },
    {
        let rc: RangeDecoder = match RangeDecoder::new(inner) {
            Err(e) => {
                return Err(e);
            },
            Ok(rc) => rc,
        };
        let align_offset: u32 = (4 - mem_size % 4) % 4;
        let mut ns2indx: Vec<u8> = vec![0, 1, 2, 3, 4];
        let mut m: usize = 5;
        let mut k: usize = 1;
        while ns2indx.len() < 260
            invariant
                5 <= ns2indx.len() <= 260,
                rules::class_at(ns2indx.len() as int) == (m as int, k as int),
                forall|i: int|
                    0 <= i < ns2indx.len() ==> #[trigger] ns2indx[i] == rules::ns2indx(i),
            decreases 260 - ns2indx.len(),
        {
            proof {
                lemma_class(ns2indx.len() as int);
            }
            ns2indx.push(m as u8);
            k = k - 1;
            if k == 0 {
                m = m + 1;
                k = m - 4;
            }
        }
        let bytes: u32 = align_offset + mem_size + UNIT_SIZE;
        let mut model: Ppmd8 = Ppmd8 {
            rc,
            arena: Arena::new(bytes as usize),
            size: mem_size,
            align_offset,
            min_context: 0,
            max_context: 0,
            found_state: 0,
            order_fall: 0,
            init_esc: 0,
            prev_success: 0,
            max_order,
            restore_method,
            run_length: 0,
            init_rl: 0,
            glue_count: 0,
            lo_unit: 0,
            hi_unit: 0,
            text: 0,
            units_start: 0,
            sizes: Sizes::new(),
            free_list: Vec::new(),
            stamps: Vec::new(),
            ns2indx,
            see: Vec::new(),
            bin_summ: Vec::new(),
        };
        let ghost was = model@;
        model.restart();
        proof {
            reveal(rules::restart);
            let blank = Model {
                free_list: Seq::new(INDEXES as nat, |i: int| 0u32),
                stamps: Seq::new(INDEXES as nat, |i: int| 0u32),
                see: rules::fresh_see(),
                bin_summ: rules::fresh_bins(),
                ..was
            };
            assert(rules::restart(was) == rules::restart(blank));
        }
        Ok(model)
    }
}

} // verus!
