//! The head of a dynamic block: how code lengths are written, and that they
//! are read back.
use crate::codecs::deflate::huffman;
use crate::codecs::deflate::huffman::MAX_BITS;
use crate::codecs::deflate::inflate;
use crate::codecs::deflate::inflate::{Variant, CODE_LENGTH_ORDER};
use crate::codecs::deflate::tokens;
use crate::codecs::lengths;
use crate::codecs::lengths::assign_lengths;
use crate::utils::bits;
use vstd::arithmetic::power2::*;
use vstd::prelude::*;

verus! {

/// How many symbols the code length code has.
pub const NUM_CODE_LENGTH: usize = 19;

/// A code length symbol with its repeat count, the number of bits that the
/// count takes.
pub type Item = (u8, u8, u8);

/// What an item adds to the lengths before it.
pub open spec fn item_applied(acc: Seq<u8>, it: Item) -> Seq<u8> {
    if it.0 <= 15 {
        acc.push(it.0)
    } else if it.0 == 16 {
        inflate::repeated(acc, acc.last(), (3 + it.1) as nat)
    } else if it.0 == 17 {
        inflate::repeated(acc, 0, (3 + it.1) as nat)
    } else {
        inflate::repeated(acc, 0, (11 + it.1) as nat)
    }
}

/// How many bits the count of a symbol takes.
pub open spec fn item_width(sym: u8) -> int {
    if sym <= 15 {
        0
    } else if sym == 16 {
        2
    } else if sym == 17 {
        3
    } else {
        7
    }
}

/// An item is of a known kind, and its count fits its bits.
pub open spec fn item_ok(it: Item, before: nat) -> bool {
    &&& it.0 <= 18
    &&& it.2 == item_width(it.0)
    &&& it.1 < pow2(it.2 as nat)
    &&& it.0 == 16 ==> before > 0
}

/// The lengths that a run of items spells.
pub open spec fn items_spelled(items: Seq<Item>) -> Seq<u8>
    decreases items.len(),
{
    if items.len() == 0 {
        Seq::empty()
    } else {
        item_applied(items_spelled(items.drop_last()), items.last())
    }
}

/// Every item is in order where it stands.
pub open spec fn items_ok(items: Seq<Item>) -> bool {
    forall|i: int|
        0 <= i < items.len() ==> item_ok(#[trigger] items[i], items_spelled(items.take(i)).len())
}

/// The bits of an item.
pub open spec fn item_bits(it: Item, cl: Seq<u8>) -> Seq<bool> {
    tokens::symbol_bits(cl, it.0 as int) + bits::bits_of(it.1 as nat, it.2 as nat)
}

/// The bits of a run of items.
pub open spec fn items_bits(items: Seq<Item>, cl: Seq<u8>) -> Seq<bool>
    decreases items.len(),
{
    if items.len() == 0 {
        Seq::empty()
    } else {
        items_bits(items.drop_last(), cl) + item_bits(items.last(), cl)
    }
}

proof fn lemma_items_push(items: Seq<Item>, it: Item)
    requires
        items_ok(items),
        item_ok(it, items_spelled(items).len()),
    ensures
        items_spelled(items.push(it)) == item_applied(items_spelled(items), it),
        items_ok(items.push(it)),
{
    let r = items.push(it);
    assert(r.drop_last() =~= items);
    assert forall|i: int| 0 <= i < r.len() implies item_ok(
        #[trigger] r[i],
        items_spelled(r.take(i)).len(),
    ) by {
        if i < items.len() {
            assert(r.take(i) =~= items.take(i));
            assert(r[i] == items[i]);
        } else {
            assert(r.take(i) =~= items);
        }
    }
}

proof fn lemma_items_grow(items: Seq<Item>, i: int)
    requires
        0 <= i <= items.len(),
    ensures
        items_spelled(items.take(i)).len() + (items.len() - i) <= items_spelled(items).len(),
    decreases items.len() - i,
{
    if i == items.len() {
        assert(items.take(i) =~= items);
    } else {
        lemma_items_grow(items, i + 1);
        assert(items.take(i + 1).drop_last() =~= items.take(i));
    }
}

/// An item written is an item read.
proof fn lemma_item_read(data: Seq<u8>, p: int, acc: Seq<u8>, it: Item, cl: Seq<u8>, total: nat)
    requires
        tokens::usable(cl),
        cl.len() == 19,
        item_ok(it, acc.len()),
        cl[it.0 as int] > 0,
        acc.len() < total,
        item_applied(acc, it).len() <= total,
        bits::has(data, p, item_bits(it, cl)),
    ensures
        inflate::code_lengths(data, p, cl, acc, total) == inflate::code_lengths(
            data,
            p + item_bits(it, cl).len(),
            cl,
            item_applied(acc, it),
            total,
        ),
{
    let s = tokens::symbol_bits(cl, it.0 as int);
    let x = bits::bits_of(it.1 as nat, it.2 as nat);
    bits::lemma_has_concat(data, p, s, x);
    tokens::lemma_symbol_read(data, p, cl, it.0 as int);
    tokens::lemma_field_read(data, p + s.len(), it.1 as nat, it.2 as nat);
}

/// Items written are lengths read.
#[verifier::spinoff_prover]
#[verifier::rlimit(60)]
pub proof fn lemma_items_read(
    data: Seq<u8>,
    p: int,
    items: Seq<Item>,
    cl: Seq<u8>,
    total: nat,
    n: int,
)
    requires
        tokens::usable(cl),
        cl.len() == 19,
        items_ok(items),
        forall|i: int| 0 <= i < items.len() ==> cl[(#[trigger] items[i]).0 as int] > 0,
        items_spelled(items).len() == total,
        0 <= n <= items.len(),
        bits::has(data, p, items_bits(items.take(n), cl)),
    ensures
        inflate::code_lengths(data, p, cl, Seq::empty(), total) == inflate::code_lengths(
            data,
            p + items_bits(items.take(n), cl).len(),
            cl,
            items_spelled(items.take(n)),
            total,
        ),
    decreases n,
{
    if n == 0 {
        assert(items.take(0) =~= Seq::<Item>::empty());
    } else {
        let front = items.take(n - 1);
        let it = items[n - 1];
        assert(items.take(n).drop_last() =~= front);
        let w = items_bits(front, cl);
        bits::lemma_has_concat(data, p, w, item_bits(it, cl));
        lemma_items_read(data, p, items, cl, total, n - 1);
        let acc = items_spelled(front);
        assert(item_ok(items[n - 1], acc.len()));
        assert(cl[items[n - 1].0 as int] > 0);
        lemma_items_grow(items, n);
        assert(items_spelled(items.take(n)) == item_applied(acc, it));
        lemma_item_read(data, p + w.len(), acc, it, cl, total);
    }
}

/// The first `k` lengths of the code length code, in the order they are
/// written.
pub open spec fn order_bits(cl: Seq<u8>, k: nat) -> Seq<bool>
    decreases k,
{
    if k == 0 {
        Seq::empty()
    } else {
        order_bits(cl, (k - 1) as nat) + bits::bits_of(cl[CODE_LENGTH_ORDER@[k - 1] as int] as nat, 3)
    }
}

/// Where a symbol stands in the order.
pub open spec fn order_place(x: int) -> int {
    if x == 16 {
        0
    } else if x == 17 {
        1
    } else if x == 18 {
        2
    } else if x == 0 {
        3
    } else if x == 8 {
        4
    } else if x < 8 {
        19 - 2 * x
    } else {
        2 * x - 12
    }
}

pub proof fn lemma_order(k: int)
    requires
        0 <= k < 19,
    ensures
        0 <= CODE_LENGTH_ORDER@[k] < 19,
        order_place(CODE_LENGTH_ORDER@[k] as int) == k,
        0 <= order_place(k) < 19,
        CODE_LENGTH_ORDER@[order_place(k)] == k,
{
}

pub proof fn lemma_order_lengths(data: Seq<u8>, p: int, cl: Seq<u8>, k: nat)
    requires
        k <= 19,
        cl.len() == 19,
        forall|i: int| 0 <= i < 19 ==> #[trigger] cl[i] < 8,
        bits::has(data, p, order_bits(cl, k)),
    ensures
        order_bits(cl, k).len() == 3 * k,
        inflate::order_lengths(data, p, k).len() == 19,
        forall|i: int|
            0 <= i < 19 ==> #[trigger] inflate::order_lengths(data, p, k)[i] == if order_place(i)
                < k {
                cl[i]
            } else {
                0
            },
    decreases k,
{
    if k > 0 {
        let j = (k - 1) as nat;
        let x = CODE_LENGTH_ORDER@[k - 1] as int;
        lemma_order(k - 1);
        let b = bits::bits_of(cl[x] as nat, 3);
        bits::lemma_has_concat(data, p, order_bits(cl, j), b);
        lemma_order_lengths(data, p, cl, j);
        bits::lemma_has_value(data, p + 3 * j, cl[x] as nat, 3);
        lemma2_to64();
        vstd::arithmetic::div_mod::lemma_small_mod(cl[x] as nat, 8);
        assert forall|i: int| 0 <= i < 19 implies #[trigger] inflate::order_lengths(data, p, k)[i]
            == if order_place(i) < k {
            cl[i]
        } else {
            0
        } by {
            lemma_order(i);
            if i != x {
                assert(order_place(i) != k - 1);
            }
        }
    }
}

/// How many items have the symbol `s`.
pub open spec fn symbol_count(items: Seq<Item>, s: int) -> nat
    decreases items.len(),
{
    if items.len() == 0 {
        0
    } else {
        symbol_count(items.drop_last(), s) + if items.last().0 == s {
            1nat
        } else {
            0
        }
    }
}

/// A symbol occurs no more often than there are items, and one that occurs is
/// counted.
proof fn lemma_symbol_count(items: Seq<Item>, s: int)
    ensures
        symbol_count(items, s) <= items.len(),
        forall|i: int| 0 <= i < items.len() && (#[trigger] items[i]).0 == s ==> symbol_count(items, s)
            > 0,
    decreases items.len(),
{
    if items.len() > 0 {
        let front = items.drop_last();
        lemma_symbol_count(front, s);
        assert forall|i: int| 0 <= i < items.len() && (#[trigger] items[i]).0 == s implies symbol_count(
            items,
            s,
        ) > 0 by {
            if i < front.len() {
                assert(front[i].0 == s);
            }
        }
    }
}

/// Lengths one by one.
pub open spec fn plain_items(value: u8, n: nat) -> Seq<Item> {
    Seq::new(n, |i: int| (value, 0u8, 0u8))
}

/// A run of zeros.
pub open spec fn zero_items(n: nat) -> Seq<Item>
    decreases n,
{
    if n >= 11 {
        let k: nat = if n < 138 {
            n
        } else {
            138
        };
        seq![(18u8, (k - 11) as u8, 7u8)] + zero_items((n - k) as nat)
    } else if n >= 3 {
        seq![(17u8, (n - 3) as u8, 3u8)]
    } else {
        plain_items(0, n)
    }
}

/// A run of the length before it.
pub open spec fn more_items(value: u8, n: nat) -> Seq<Item>
    decreases n,
{
    if n >= 3 {
        let k: nat = if n < 6 {
            n
        } else {
            6
        };
        seq![(16u8, (k - 3) as u8, 2u8)] + more_items(value, (n - k) as nat)
    } else {
        plain_items(value, n)
    }
}

/// A run of equal lengths.
pub open spec fn run_items(value: u8, n: nat) -> Seq<Item> {
    if value == 0 {
        zero_items(n)
    } else {
        seq![(value, 0u8, 0u8)] + more_items(value, (n - 1) as nat)
    }
}

/// Where the run of lengths that starts at `i` and goes on to `j` ends.
pub open spec fn run_end(all: Seq<u8>, i: int, j: int) -> int
    decreases all.len() - j,
{
    if j < all.len() && all[j] == all[i] {
        run_end(all, i, j + 1)
    } else {
        j
    }
}

/// How the lengths from `i` on are written, run by run.
pub open spec fn items_from(all: Seq<u8>, i: int) -> Seq<Item>
    decreases all.len() - i,
{
    if i >= all.len() {
        Seq::empty()
    } else {
        let end = run_end(all, i, i + 1);
        if i < end <= all.len() {
            run_items(all[i], (end - i) as nat) + items_from(all, end)
        } else {
            Seq::empty()
        }
    }
}

/// How often each symbol occurs among items.
pub open spec fn symbol_counts(items: Seq<Item>) -> Seq<u32> {
    Seq::new(19, |s: int| symbol_count(items, s) as u32)
}

/// Lengths without the zeros at their end, `least` of them at least.
pub open spec fn trimmed(lens: Seq<u8>, least: int, n: int) -> Seq<u8>
    decreases n,
{
    if n > least && n > 0 && lens[n - 1] == 0 {
        trimmed(lens, least, n - 1)
    } else {
        lens.take(n)
    }
}

/// The code for literals and lengths that occur this often.
pub open spec fn literal_code(literal: Seq<u32>) -> Seq<u8> {
    trimmed(lengths::lengths_for(literal, MAX_BITS as nat), 257, 288)
}

/// The code for distances that occur this often. Where none occurs, the first
/// two have a bit each.
pub open spec fn distance_code(distance: Seq<u32>) -> Seq<u8> {
    let full = lengths::lengths_for(distance, MAX_BITS as nat);
    trimmed(
        if forall|k: int| 0 <= k < full.len() ==> #[trigger] full[k] == 0 {
            full.update(0, 1).update(1, 1)
        } else {
            full
        },
        1,
        30,
    )
}

/// How many of the first `k` code length codes are written.
pub open spec fn order_end(cl: Seq<u8>, k: int) -> int
    decreases k,
{
    if k > 4 && cl[CODE_LENGTH_ORDER@[k - 1] as int] == 0 {
        order_end(cl, k - 1)
    } else {
        k
    }
}

/// The head of a block with these two codes.
pub open spec fn head_bits(lit: Seq<u8>, dist: Seq<u8>) -> Seq<bool> {
    let items = items_from(lit + dist, 0);
    let cl = lengths::lengths_for(symbol_counts(items), 7);
    let hclen = order_end(cl, 19);
    bits::bits_of((lit.len() - 257) as nat, 5) + bits::bits_of((dist.len() - 1) as nat, 5)
        + bits::bits_of((hclen - 4) as nat, 4) + order_bits(cl, hclen as nat) + items_bits(
        items,
        cl,
    )
}

/// Code lengths as they are written, and how often each symbol occurs in
/// them.
pub struct CodeLengthStream {
    pub items: Vec<Item>,
    pub freqs: [u32; 19],
}

impl CodeLengthStream {
    /// The items spell `all`, and every symbol among them is counted.
    pub open spec fn wf(&self, all: Seq<u8>) -> bool {
        &&& items_ok(self.items@)
        &&& items_spelled(self.items@) == all
        &&& self.items@.len() <= all.len()
        &&& forall|s: int| 0 <= s < 19 ==> #[trigger] self.freqs@[s] == symbol_count(self.items@, s)
    }

    spec fn counted(&self) -> bool {
        forall|s: int| 0 <= s < 19 ==> #[trigger] self.freqs@[s] == symbol_count(self.items@, s)
    }

    fn put(&mut self, it: Item)
        requires
            items_ok(old(self).items@),
            item_ok(it, items_spelled(old(self).items@).len()),
            old(self).counted(),
            old(self).items@.len() < u32::MAX,
        ensures
            items_ok(final(self).items@),
            final(self).counted(),
            final(self).items@ == old(self).items@.push(it),
            items_spelled(final(self).items@) == item_applied(items_spelled(old(self).items@), it),
    {
        proof {
            lemma_items_push(self.items@, it);
            lemma_symbol_count(self.items@, it.0 as int);
            assert(self.items@.push(it).drop_last() =~= self.items@);
        }
        self.items.push(it);
        self.freqs[it.0 as usize] = self.freqs[it.0 as usize] + 1;
    }

    /// Runs of equal lengths become repeat counts.
    #[verifier::spinoff_prover]
    #[verifier::rlimit(80)]
    pub fn build(all_lengths: &[u8]) -> (r: Self)
        requires
            all_lengths@.len() <= u32::MAX,
            forall|i: int| 0 <= i < all_lengths@.len() ==> #[trigger] all_lengths@[i] <= 15,
        ensures
            r.wf(all_lengths@),
            r.items@ == items_from(all_lengths@, 0),
            r.freqs@ == symbol_counts(r.items@),
    {
        let mut zeros: [u32; 19] = [0u32; 19];
        let mut cleared: usize = 0;
        while cleared < 19
            invariant
                cleared <= 19,
                forall|k: int| 0 <= k < cleared ==> #[trigger] zeros@[k] == 0,
            decreases 19 - cleared,
        {
            zeros[cleared] = 0;
            cleared = cleared + 1;
        }
        let mut r: CodeLengthStream = CodeLengthStream {
            items: Vec::with_capacity(all_lengths.len()),
            freqs: zeros,
        };
        assert(r.counted());
        let ghost all = all_lengths@;
        let mut i: usize = 0;
        let ghost whole = items_from(all, 0);
        assert(items_spelled(r.items@) =~= all.take(0));
        assert(r.items@ + items_from(all, 0) =~= whole);
        while i < all_lengths.len()
            invariant
                r.items@ + items_from(all, i as int) == whole,
                i <= all_lengths.len() <= u32::MAX,
                all == all_lengths@,
                forall|k: int| 0 <= k < all.len() ==> #[trigger] all[k] <= 15,
                items_ok(r.items@),
                r.counted(),
                r.items@.len() <= i,
                items_spelled(r.items@) == all.take(i as int),
            decreases all_lengths.len() - i,
        {
            let value: u8 = all_lengths[i];
            let mut n: usize = 1;
            while i + n < all_lengths.len() && all_lengths[i + n] == value
                invariant
                    i < all_lengths.len() <= u32::MAX,
                    1 <= n <= all_lengths.len() - i,
                    forall|k: int| i <= k < i + n ==> all_lengths@[k] == value,
                    run_end(all_lengths@, i as int, i + 1) == run_end(
                        all_lengths@,
                        i as int,
                        i + n,
                    ),
                decreases all_lengths.len() - i - n,
            {
                n = n + 1;
            }
            let ghost before = all.take(i as int);
            let ghost rest = items_from(all, i + n);
            let ghost start = r.items@;
            let mut done: usize = 0;
            proof {
                lemma2_to64();
                assert(run_end(all, i as int, i + 1) == i + n);
                assert(items_from(all, i as int) == run_items(value, n as nat) + rest);
                assert(start + run_items(value, n as nat) + rest =~= whole);
            }
            assert(all.take(i as int) =~= inflate::repeated(before, value, 0));
            if value == 0 {
                while n - done >= 11
                    invariant
                        done <= n <= u32::MAX,
                        value == 0,
                        items_ok(r.items@),
                        r.counted(),
                        before.len() == i,
                        i + n <= u32::MAX,
                        r.items@.len() <= i + done,
                        items_spelled(r.items@) == inflate::repeated(before, value, done as nat),
                        r.items@ + zero_items((n - done) as nat) + rest == whole,
                    decreases n - done,
                {
                    let ghost had = r.items@;
                    let k: usize = if n - done < 138 {
                        n - done
                    } else {
                        138
                    };
                    proof {
                        lemma2_to64();
                    }
                    r.put((18, (k - 11) as u8, 7));
                    assert(items_spelled(r.items@) =~= inflate::repeated(
                        before,
                        value,
                        (done + k) as nat,
                    ));
                    done = done + k;
                    assert(r.items@ + zero_items((n - done) as nat) =~= had + zero_items(
                        (n - done + k) as nat,
                    ));
                }
                while n - done >= 3
                    invariant
                        done <= n <= u32::MAX,
                        n - done < 11,
                        value == 0,
                        items_ok(r.items@),
                        r.counted(),
                        before.len() == i,
                        i + n <= u32::MAX,
                        r.items@.len() <= i + done,
                        items_spelled(r.items@) == inflate::repeated(before, value, done as nat),
                        r.items@ + zero_items((n - done) as nat) + rest == whole,
                    decreases n - done,
                {
                    let ghost had = r.items@;
                    let k: usize = n - done;
                    proof {
                        lemma2_to64();
                    }
                    r.put((17, (k - 3) as u8, 3));
                    assert(items_spelled(r.items@) =~= inflate::repeated(
                        before,
                        value,
                        (done + k) as nat,
                    ));
                    done = done + k;
                    assert(r.items@ + zero_items(0) =~= had + zero_items(k as nat));
                }
                assert(zero_items((n - done) as nat) =~= plain_items(value, (n - done) as nat));
            } else {
                r.put((value, 0, 0));
                assert(items_spelled(r.items@) =~= inflate::repeated(before, value, 1));
                done = 1;
                assert(r.items@ + more_items(value, (n - 1) as nat) =~= start + run_items(
                    value,
                    n as nat,
                ));
                while n - done >= 3
                    invariant
                        1 <= done <= n <= u32::MAX,
                        items_ok(r.items@),
                        r.counted(),
                        before.len() == i,
                        i + n <= u32::MAX,
                        r.items@.len() <= i + done,
                        items_spelled(r.items@) == inflate::repeated(before, value, done as nat),
                        r.items@ + more_items(value, (n - done) as nat) + rest == whole,
                    decreases n - done,
                {
                    let ghost had = r.items@;
                    let k: usize = if n - done < 6 {
                        n - done
                    } else {
                        6
                    };
                    proof {
                        lemma2_to64();
                    }
                    r.put((16, (k - 3) as u8, 2));
                    assert(items_spelled(r.items@) =~= inflate::repeated(
                        before,
                        value,
                        (done + k) as nat,
                    ));
                    done = done + k;
                    assert(r.items@ + more_items(value, (n - done) as nat) =~= had + more_items(
                        value,
                        (n - done + k) as nat,
                    ));
                }
            }
            while done < n
                invariant
                    r.items@ + plain_items(value, (n - done) as nat) + rest == whole,
                    done <= n <= u32::MAX,
                    value <= 15,
                    items_ok(r.items@),
                    r.counted(),
                    before.len() == i,
                    i + n <= u32::MAX,
                    r.items@.len() <= i + done,
                    items_spelled(r.items@) == inflate::repeated(before, value, done as nat),
                decreases n - done,
            {
                let ghost had = r.items@;
                proof {
                    lemma2_to64();
                }
                r.put((value, 0, 0));
                assert(items_spelled(r.items@) =~= inflate::repeated(
                    before,
                    value,
                    (done + 1) as nat,
                ));
                done = done + 1;
                assert(r.items@ + plain_items(value, (n - done) as nat) =~= had + plain_items(
                    value,
                    (n - done + 1) as nat,
                ));
            }
            assert(r.items@ + plain_items(value, 0) =~= r.items@);
            i = i + n;
            assert(all.take(i as int) =~= inflate::repeated(before, value, n as nat));
        }
        assert(all.take(i as int) =~= all);
        proof {
            assert(r.items@ =~= whole);
            assert forall|s: int| 0 <= s < 19 implies r.freqs@[s] == symbol_counts(r.items@)[s] by {
                assert(r.freqs@[s] == symbol_count(r.items@, s));
            }
            assert(r.freqs@ =~= symbol_counts(r.items@));
        }
        r
    }
}

/// The codes of a dynamic block and everything that describes them.
pub struct DynamicHeader {
    pub hlit: usize,
    pub hdist: usize,
    pub hclen: usize,
    pub lit_lengths: Vec<u8>,
    pub dist_lengths: Vec<u8>,
    pub cl_lengths: Vec<u8>,
    pub stream: CodeLengthStream,
}

/// A code that a reader takes.
spec fn readable(lens: Seq<u8>) -> bool {
    tokens::usable(lens) && huffman::valid(lens)
}

impl DynamicHeader {
    /// A reader takes all three codes, and the items spell two of them.
    pub closed spec fn wf(&self) -> bool {
        &&& 257 <= self.hlit <= 286
        &&& 1 <= self.hdist <= 30
        &&& 4 <= self.hclen <= 19
        &&& self.lit_lengths@.len() == self.hlit
        &&& self.dist_lengths@.len() == self.hdist
        &&& self.cl_lengths@.len() == 19
        &&& readable(self.lit_lengths@)
        &&& readable(self.dist_lengths@)
        &&& readable(self.cl_lengths@)
        &&& self.lit_lengths@[256] > 0
        &&& forall|i: int| 0 <= i < 19 ==> #[trigger] self.cl_lengths@[i] < 8
        &&& forall|k: int|
            self.hclen <= k < 19 ==> self.cl_lengths@[#[trigger] CODE_LENGTH_ORDER@[k] as int] == 0
        &&& self.stream.wf(self.lit_lengths@ + self.dist_lengths@)
        &&& forall|i: int|
            0 <= i < self.stream.items@.len() ==> self.cl_lengths@[(#[trigger] self.stream.items@[i]).0 as int]
                > 0
    }

    /// What can be written with the codes.
    pub proof fn lemma_usable(&self)
        requires
            self.wf(),
        ensures
            tokens::usable(self.lit_lengths@),
            tokens::usable(self.dist_lengths@),
            tokens::usable(self.cl_lengths@),
            self.lit_lengths@.len() == self.hlit,
            self.dist_lengths@.len() == self.hdist,
            self.cl_lengths@.len() == 19,
            257 <= self.hlit <= 286,
            1 <= self.hdist <= 30,
            4 <= self.hclen <= 19,
            self.lit_lengths@[256] > 0,
            forall|i: int|
                0 <= i < self.stream.items@.len() ==> self.cl_lengths@[(#[trigger] self.stream.items@[i]).0 as int]
                    > 0 && self.stream.items@[i].0 <= 18 && self.stream.items@[i].2 <= 7,
    {
        assert forall|i: int| 0 <= i < self.stream.items@.len() implies self.cl_lengths@[(
        #[trigger] self.stream.items@[i]).0 as int] > 0 && self.stream.items@[i].0 <= 18
            && self.stream.items@[i].2 <= 7 by {
            assert(item_ok(self.stream.items@[i], items_spelled(self.stream.items@.take(i)).len()));
        }
    }

    /// The bits of the header, after the kind of the block.
    pub open spec fn bits(&self) -> Seq<bool> {
        bits::bits_of((self.hlit - 257) as nat, 5) + bits::bits_of((self.hdist - 1) as nat, 5)
            + bits::bits_of((self.hclen - 4) as nat, 4) + order_bits(
            self.cl_lengths@,
            self.hclen as nat,
        ) + items_bits(self.stream.items@, self.cl_lengths@)
    }

    /// A header written is the pair of codes read.
    #[verifier::spinoff_prover]
    #[verifier::rlimit(60)]
    pub proof fn lemma_read(&self, data: Seq<u8>, p: int)
        requires
            self.wf(),
            bits::has(data, p, self.bits()),
        ensures
            inflate::dynamic_tables(Variant::Deflate, data, p) == Some(
                (self.lit_lengths@, self.dist_lengths@, p + self.bits().len()),
            ),
    {
        let cl = self.cl_lengths@;
        let b1 = bits::bits_of((self.hlit - 257) as nat, 5);
        let b2 = bits::bits_of((self.hdist - 1) as nat, 5);
        let b3 = bits::bits_of((self.hclen - 4) as nat, 4);
        let b4 = order_bits(cl, self.hclen as nat);
        let items = self.stream.items@;
        let b5 = items_bits(items, cl);
        bits::lemma_has_concat(data, p, b1 + b2 + b3 + b4, b5);
        bits::lemma_has_concat(data, p, b1 + b2 + b3, b4);
        bits::lemma_has_concat(data, p, b1 + b2, b3);
        bits::lemma_has_concat(data, p, b1, b2);
        lemma2_to64();
        tokens::lemma_field_read(data, p, (self.hlit - 257) as nat, 5);
        tokens::lemma_field_read(data, p + 5, (self.hdist - 1) as nat, 5);
        tokens::lemma_field_read(data, p + 10, (self.hclen - 4) as nat, 4);
        lemma_order_lengths(data, p + 14, cl, self.hclen as nat);
        assert(inflate::order_lengths(data, p + 14, self.hclen as nat) =~= cl) by {
            assert forall|i: int| 0 <= i < 19 implies inflate::order_lengths(
                data,
                p + 14,
                self.hclen as nat,
            )[i] == cl[i] by {
                lemma_order(i);
                if order_place(i) >= self.hclen {
                    assert(cl[CODE_LENGTH_ORDER@[order_place(i)] as int] == 0);
                }
            }
        }
        let q = p + 14 + 3 * self.hclen;
        let all = self.lit_lengths@ + self.dist_lengths@;
        assert(items.take(items.len() as int) =~= items);
        lemma_items_read(data, q, items, cl, all.len(), items.len() as int);
        assert(all.take(self.hlit as int) =~= self.lit_lengths@);
        assert(all.skip(self.hlit as int) =~= self.dist_lengths@);
        assert(all[256] == self.lit_lengths@[256]);
    }

    /// The codes for symbols that occur this often.
    #[verifier::spinoff_prover]
    #[verifier::rlimit(80)]
    pub fn build(literal: &[u32; 288], distance: &[u32; 30]) -> (r: Self)
        requires
            literal@[256] > 0,
            literal@[286] == 0,
            literal@[287] == 0,
        ensures
            r.wf(),
            r.lit_lengths@ == literal_code(literal@),
            r.dist_lengths@ == distance_code(distance@),
            r.bits() == head_bits(literal_code(literal@), distance_code(distance@)),
            forall|i: int|
                0 <= i < 288 && #[trigger] literal@[i] > 0 ==> i < r.lit_lengths@.len()
                    && r.lit_lengths@[i] > 0,
            forall|i: int|
                0 <= i < 30 && #[trigger] distance@[i] > 0 ==> i < r.dist_lengths@.len()
                    && r.dist_lengths@[i] > 0,
    {
        proof {
            lemma2_to64();
            lengths::lemma_occurring(literal@);
            lengths::lemma_occurring(distance@);
        }
        let full_lit: Vec<u8> = assign_lengths(literal.as_slice(), MAX_BITS);
        let mut full_dist: Vec<u8> = assign_lengths(distance.as_slice(), MAX_BITS);
        let mut any: bool = false;
        let mut i: usize = 0;
        while i < 30
            invariant
                i <= 30,
                full_dist@.len() == 30,
                any <==> exists|k: int| 0 <= k < i && full_dist@[k] > 0,
            decreases 30 - i,
        {
            if full_dist[i] > 0 {
                any = true;
            }
            i = i + 1;
        }
        if !any {
            proof {
                assert forall|k: int| 0 <= k < 30 implies distance@[k] == 0 by {
                    if distance@[k] > 0 {
                        assert(full_dist@[k] > 0);
                    }
                }
                lengths::lemma_kraft_zeros(full_dist@, 15);
                lengths::lemma_kraft_update(full_dist@, 0, 1, 15);
                lengths::lemma_kraft_update(full_dist@.update(0, 1), 1, 1, 15);
            }
            full_dist[0] = 1;
            full_dist[1] = 1;
        } else {
            proof {
                if forall|k: int| 0 <= k < 30 ==> distance@[k] == 0 {
                    assert(false);
                }
                let k = choose|k: int| 0 <= k < 30 && distance@[k] != 0;
                assert(distance@[k] > 0);
            }
        }
        assert(lengths::complete(full_dist@, 15));
        let ghost dist_before = lengths::lengths_for(distance@, 15);
        assert(full_dist@ =~= if forall|k: int|
            0 <= k < dist_before.len() ==> #[trigger] dist_before[k] == 0 {
            dist_before.update(0, 1).update(1, 1)
        } else {
            dist_before
        });
        let mut hlit: usize = 288;
        while hlit > 257 && full_lit[hlit - 1] == 0
            invariant
                257 <= hlit <= 288,
                full_lit@.len() == 288,
                forall|k: int| hlit <= k < 288 ==> full_lit@[k] == 0,
                trimmed(full_lit@, 257, hlit as int) == trimmed(full_lit@, 257, 288),
            decreases hlit,
        {
            hlit = hlit - 1;
        }
        assert(hlit <= 286) by {
            assert(full_lit@[286] == 0);
            assert(full_lit@[287] == 0);
        }
        let mut hdist: usize = 30;
        while hdist > 1 && full_dist[hdist - 1] == 0
            invariant
                1 <= hdist <= 30,
                full_dist@.len() == 30,
                forall|k: int| hdist <= k < 30 ==> full_dist@[k] == 0,
                trimmed(full_dist@, 1, hdist as int) == trimmed(full_dist@, 1, 30),
            decreases hdist,
        {
            hdist = hdist - 1;
        }
        let mut lit_lengths: Vec<u8> = Vec::with_capacity(hlit);
        lit_lengths.extend_from_slice(&full_lit.as_slice()[0..hlit]);
        let mut dist_lengths: Vec<u8> = Vec::with_capacity(hdist);
        dist_lengths.extend_from_slice(&full_dist.as_slice()[0..hdist]);
        proof {
            assert(lit_lengths@ =~= full_lit@.take(hlit as int));
            assert(dist_lengths@ =~= full_dist@.take(hdist as int));
            lengths::lemma_kraft_trailing_zeros(full_lit@, hlit as int, 15);
            lengths::lemma_kraft_trailing_zeros(full_dist@, hdist as int, 15);
        }
        proof {
            assert forall|i: int| 0 <= i < 288 && #[trigger] literal@[i] > 0 implies i
                < lit_lengths@.len() && lit_lengths@[i] > 0 by {
                assert(full_lit@[i] > 0);
            }
            assert forall|i: int| 0 <= i < 30 && #[trigger] distance@[i] > 0 implies i
                < dist_lengths@.len() && dist_lengths@[i] > 0 by {
                assert(full_dist@[i] > 0);
            }
        }
        let mut all: Vec<u8> = Vec::with_capacity(hlit + hdist);
        all.extend_from_slice(lit_lengths.as_slice());
        all.extend_from_slice(dist_lengths.as_slice());
        assert(all@ =~= lit_lengths@ + dist_lengths@);
        let stream: CodeLengthStream = CodeLengthStream::build(all.as_slice());
        proof {
            lemma_items_nonempty(stream.items@);
            assert(item_ok(stream.items@[0], items_spelled(stream.items@.take(0)).len()));
            lemma_symbol_count(stream.items@, stream.items@[0].0 as int);
            assert(stream.freqs@[stream.items@[0].0 as int] > 0);
            lengths::lemma_occurring(stream.freqs@);
        }
        let cl_lengths: Vec<u8> = assign_lengths(stream.freqs.as_slice(), 7);
        proof {
            lengths::lemma_kraft_extend(cl_lengths@, 7, 15);
            lemma_pow2_adds(8, 7);
        }
        let mut hclen: usize = NUM_CODE_LENGTH;
        while hclen > 4 && cl_lengths[CODE_LENGTH_ORDER[hclen - 1]] == 0
            invariant
                4 <= hclen <= 19,
                cl_lengths@.len() == 19,
                forall|k: int|
                    hclen <= k < 19 ==> cl_lengths@[#[trigger] CODE_LENGTH_ORDER@[k] as int] == 0,
                order_end(cl_lengths@, hclen as int) == order_end(cl_lengths@, 19),
            decreases hclen,
        {
            hclen = hclen - 1;
        }
        proof {
            assert forall|i: int| 0 <= i < stream.items@.len() implies cl_lengths@[(
            #[trigger] stream.items@[i]).0 as int] > 0 by {
                assert(item_ok(stream.items@[i], items_spelled(stream.items@.take(i)).len()));
                lemma_symbol_count(stream.items@, stream.items@[i].0 as int);
                assert(stream.freqs@[stream.items@[i].0 as int] > 0);
            }
        }
        DynamicHeader { hlit, hdist, hclen, lit_lengths, dist_lengths, cl_lengths, stream }
    }

    /// How many bits the header takes.
    pub fn header_bits(&self) -> (r: u64)
        requires
            self.wf(),
        ensures
            r == self.bits().len(),
            r <= 20_000,
    {
        let mut total: u64 = 5 + 5 + 4 + 3 * self.hclen as u64;
        let ghost items = self.stream.items@;
        let ghost cl = self.cl_lengths@;
        let mut i: usize = 0;
        proof {
            self.lemma_usable();
            lemma_order_bits_len(cl, self.hclen as nat);
            assert(items.take(0) =~= Seq::<Item>::empty());
        }
        while i < self.stream.items.len()
            invariant
                i <= items.len() <= 1000,
                items == self.stream.items@,
                cl == self.cl_lengths@,
                self.wf(),
                total == 14 + 3 * self.hclen + items_bits(items.take(i as int), cl).len(),
                total <= 100 + 30 * i,
                self.hclen <= 19,
            decreases items.len() - i,
        {
            let it: Item = self.stream.items[i];
            proof {
                self.lemma_usable();
                assert(items[i as int].0 <= 18);
                assert(cl[it.0 as int] <= MAX_BITS);
                assert(items.take(i + 1).drop_last() =~= items.take(i as int));
            }
            total = total + self.cl_lengths[it.0 as usize] as u64 + it.2 as u64;
            i = i + 1;
        }
        assert(items.take(i as int) =~= items);
        total
    }
}

proof fn lemma_order_bits_len(cl: Seq<u8>, k: nat)
    ensures
        order_bits(cl, k).len() == 3 * k,
    decreases k,
{
    if k > 0 {
        lemma_order_bits_len(cl, (k - 1) as nat);
    }
}

proof fn lemma_items_nonempty(items: Seq<Item>)
    requires
        items_spelled(items).len() > 0,
    ensures
        items.len() > 0,
{
}

} // verus!
