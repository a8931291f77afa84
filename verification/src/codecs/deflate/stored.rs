//! Stored blocks, byte for byte.
use crate::codecs::deflate::bitwriter;
use crate::codecs::deflate::compress::BLOCK_SIZE;
use crate::codecs::deflate::huffman;
use crate::codecs::deflate::tokens;
use crate::codecs::lengths;
use crate::utils::bits;
use crate::utils::bytes;
use vstd::arithmetic::div_mod::*;
use vstd::arithmetic::power2::*;
use vstd::prelude::*;

verus! {

/// The most data one stored block holds.
pub const MAX_STORED: usize = 65_535;

/// One stored block that starts at a whole byte.
pub open spec fn block(chunk: Seq<u8>, last: bool) -> Seq<u8> {
    seq![
        if last {
            1u8
        } else {
            0u8
        },
    ] + bytes::le_bytes(chunk.len(), 2) + bytes::le_bytes((0xffff - chunk.len()) as nat, 2) + chunk
}

/// Data cut into stored blocks, each as long as can be. `last` marks the
/// final one.
pub open spec fn run(data: Seq<u8>, last: bool) -> Seq<u8>
    decreases data.len(),
{
    if data.len() <= MAX_STORED {
        block(data, last)
    } else {
        block(data.take(MAX_STORED as int), false) + run(data.skip(MAX_STORED as int), last)
    }
}

/// Data of any length, stored.
pub open spec fn runs(data: Seq<u8>, last: bool) -> Seq<u8>
    decreases data.len(),
{
    if data.len() == 0 {
        Seq::empty()
    } else if data.len() <= BLOCK_SIZE {
        run(data, last)
    } else {
        run(data.take(BLOCK_SIZE as int), false) + runs(data.skip(BLOCK_SIZE as int), last)
    }
}

/// A piece of a stream in which nothing is compressed. One that is not the
/// last ends with an empty stored block. One that is the last and holds no
/// data is an empty block with the fixed codes.
pub open spec fn piece(data: Seq<u8>, is_final: bool) -> Seq<u8> {
    if !is_final {
        runs(data, false) + block(Seq::empty(), false)
    } else if data.len() == 0 {
        seq![3u8, 0u8]
    } else {
        runs(data, true)
    }
}

/// A stream in which nothing is compressed, written block by block: after
/// whole blocks alone an empty one ends it.
pub open spec fn stream(data: Seq<u8>) -> Seq<u8> {
    if data.len() % BLOCK_SIZE as nat == 0 {
        runs(data, false) + seq![3u8, 0u8]
    } else {
        runs(data, true)
    }
}

/// One more block after whole ones.
pub proof fn lemma_runs_more(data: Seq<u8>, chunk: Seq<u8>, last: bool)
    requires
        data.len() % BLOCK_SIZE as nat == 0,
        0 < chunk.len() <= BLOCK_SIZE,
    ensures
        runs(data + chunk, last) == runs(data, false) + run(chunk, last),
    decreases data.len(),
{
    let all = data + chunk;
    if data.len() == 0 {
        assert(all =~= chunk);
        assert(runs(data, false) + run(chunk, last) =~= run(chunk, last));
    } else {
        let rest = data.skip(BLOCK_SIZE as int);
        lemma_runs_more(rest, chunk, last);
        assert(all.take(BLOCK_SIZE as int) =~= data.take(BLOCK_SIZE as int));
        assert(all.skip(BLOCK_SIZE as int) =~= rest + chunk);
        if data.len() == BLOCK_SIZE {
            assert(data.take(BLOCK_SIZE as int) =~= data);
            assert(runs(rest, false) + run(chunk, last) =~= run(chunk, last));
        } else {
            let a = run(data.take(BLOCK_SIZE as int), false);
            assert(a + (runs(rest, false) + run(chunk, last)) =~= a + runs(rest, false) + run(
                chunk,
                last,
            ));
        }
    }
}

proof fn lemma_zero_bits(n: nat)
    ensures
        bits::bits_of(0, n) == Seq::new(n, |k: int| false),
{
    assert forall|k: int| 0 <= k < n implies !(#[trigger] bits::bits_of(0, n)[k]) by {
        lemma_pow2_pos(k as nat);
        lemma_div_basics(pow2(k as nat) as int);
    }
    assert(bits::bits_of(0, n) =~= Seq::new(n, |k: int| false));
}

/// The bits of a number in two bytes.
proof fn lemma_two_bytes(v: nat)
    requires
        v <= 0xffff,
    ensures
        bits::all_bits(bytes::le_bytes(v, 2)) == bits::bits_of(v, 16),
{
    reveal_with_fuel(bytes::le_bytes, 3);
    let lo = (v % 256) as u8;
    let hi = (v / 256) as u8;
    let none = Seq::<u8>::empty();
    assert(bytes::le_bytes(v, 2) =~= none.push(lo).push(hi));
    bits::lemma_all_bits_push(none, lo);
    bits::lemma_all_bits_push(none.push(lo), hi);
    assert(bits::all_bits(none) =~= Seq::<bool>::empty());
    assert(pow2(8) == 256) by {
        lemma2_to64();
    }
    bits::lemma_bits_of_concat(lo as nat, hi as nat, 8, 8);
    assert(lo as nat + 256 * (hi as nat) == v);
    assert(bits::all_bits(bytes::le_bytes(v, 2)) =~= bits::bits_of(v, 16));
}

/// The bits of one stored block.
pub proof fn lemma_block_bits(chunk: Seq<u8>, last: bool)
    requires
        chunk.len() <= MAX_STORED,
    ensures
        bits::all_bits(block(chunk, last)) == bits::bits_of(
            if last {
                1
            } else {
                0
            },
            1,
        ) + bits::bits_of(0, 2) + Seq::new(5, |k: int| false) + bits::bits_of(chunk.len(), 16)
            + bits::bits_of((0xffff - chunk.len()) as nat, 16) + bits::all_bits(chunk),
{
    let l: nat = if last {
        1
    } else {
        0
    };
    let first = Seq::<u8>::empty().push(l as u8);
    let a = bytes::le_bytes(chunk.len(), 2);
    let b = bytes::le_bytes((0xffff - chunk.len()) as nat, 2);
    assert(block(chunk, last) =~= first + a + b + chunk);
    bits::lemma_all_bits_concat(first + a + b, chunk);
    bits::lemma_all_bits_concat(first + a, b);
    bits::lemma_all_bits_concat(first, a);
    lemma_two_bytes(chunk.len());
    lemma_two_bytes((0xffff - chunk.len()) as nat);
    bits::lemma_all_bits_push(Seq::empty(), l as u8);
    assert(bits::all_bits(Seq::<u8>::empty()) =~= Seq::<bool>::empty());
    assert(pow2(1) == 2) by {
        lemma2_to64();
    }
    bits::lemma_bits_of_concat(l, 0, 1, 7);
    lemma_zero_bits(7);
    lemma_zero_bits(2);
    assert(bits::all_bits(first) =~= bits::bits_of(l, 1) + bits::bits_of(0, 2) + Seq::new(
        5,
        |k: int| false,
    ));
}

/// Byte strings with the same bits are the same.
pub proof fn lemma_same_bits(a: Seq<u8>, b: Seq<u8>)
    requires
        bits::all_bits(a) == bits::all_bits(b),
    ensures
        a == b,
    decreases a.len(),
{
    assert(bits::all_bits(a).len() == 8 * a.len());
    assert(bits::all_bits(b).len() == 8 * b.len());
    if a.len() > 0 {
        let x = a.drop_last();
        let y = b.drop_last();
        assert(x.push(a.last()) =~= a);
        assert(y.push(b.last()) =~= b);
        bits::lemma_all_bits_push(x, a.last());
        bits::lemma_all_bits_push(y, b.last());
        let n = 8 * x.len();
        assert(bits::all_bits(x) =~= bits::all_bits(a).take(n as int));
        assert(bits::all_bits(y) =~= bits::all_bits(b).take(n as int));
        lemma_same_bits(x, y);
        let u = bits::bits_of(a.last() as nat, 8);
        let v = bits::bits_of(b.last() as nat, 8);
        assert(u =~= bits::all_bits(a).skip(n as int));
        assert(v =~= bits::all_bits(b).skip(n as int));
        bits::lemma_value_of_bits_of(a.last() as nat, 8);
        bits::lemma_value_of_bits_of(b.last() as nat, 8);
        lemma2_to64();
    }
    assert(a =~= b);
}

proof fn lemma_no_short(s: Seq<u8>, l: int)
    requires
        forall|i: int| 0 <= i < s.len() ==> #[trigger] s[i] > l,
    ensures
        lengths::kraft(s, l) == 0,
    decreases s.len(),
{
    if s.len() > 0 {
        lemma_no_short(s.drop_last(), l);
    }
}

proof fn lemma_none_so_long(s: Seq<u8>, l: int)
    requires
        forall|i: int| 0 <= i < s.len() ==> #[trigger] s[i] != l,
    ensures
        lengths::cnt(s, l) == 0,
    decreases s.len(),
{
    if s.len() > 0 {
        lemma_none_so_long(s.drop_last(), l);
    }
}

/// With the fixed codes the end of a block is seven zero bits.
proof fn lemma_fixed_end()
    ensures
        tokens::symbol_bits(Seq::new(288, |i: int| huffman::fixed_literal(i)), 256)
            == Seq::new(7, |k: int| false),
{
    let lit = Seq::new(288, |i: int| huffman::fixed_literal(i));
    assert(lit[256] == 7);
    lemma_no_short(lit, 6);
    lemma_none_so_long(lit.take(256), 7);
    assert(huffman::code_of(lit, 256) == 0);
    lemma_word_of_zero(7);
    lemma_zero_bits(7);
}

proof fn lemma_word_of_zero(n: nat)
    ensures
        huffman::word(0, n) == 0,
    decreases n,
{
    if n > 0 {
        lemma_word_of_zero((n - 1) as nat);
        lemma_pow2_pos((n - 1) as nat);
        lemma_div_basics(pow2((n - 1) as nat) as int);
    }
}

/// The bits of the empty block that ends a stream of no data.
pub proof fn lemma_empty_end()
    ensures
        bits::all_bits(seq![3u8, 0u8]) == bitwriter::padded(
            bits::bits_of(1, 1) + bits::bits_of(1, 2) + tokens::symbol_bits(
                Seq::new(288, |i: int| huffman::fixed_literal(i)),
                256,
            ),
        ),
{
    let none = Seq::<u8>::empty();
    assert(seq![3u8, 0u8] =~= none.push(3u8).push(0u8));
    bits::lemma_all_bits_push(none, 3u8);
    bits::lemma_all_bits_push(none.push(3u8), 0u8);
    assert(bits::all_bits(none) =~= Seq::<bool>::empty());
    assert(pow2(1) == 2 && pow2(2) == 4) by {
        lemma2_to64();
    }
    bits::lemma_bits_of_concat(1, 1, 1, 7);
    bits::lemma_bits_of_concat(1, 0, 2, 5);
    lemma_zero_bits(5);
    lemma_zero_bits(8);
    lemma_fixed_end();
    let w = bits::bits_of(1, 1) + bits::bits_of(1, 2) + Seq::new(7, |k: int| false);
    assert(w.len() == 10);
    assert(bits::all_bits(seq![3u8, 0u8]) =~= bitwriter::padded(w));
}

} // verus!
