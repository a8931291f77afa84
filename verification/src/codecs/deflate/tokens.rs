//! How tokens are written with a pair of prefix codes, and that they are read
//! back.
use crate::codecs::deflate::huffman;
use crate::codecs::deflate::huffman::{reverse_bits, MAX_BITS};
use crate::codecs::deflate::inflate;
use crate::codecs::deflate::inflate::{
    Variant, DIST_BASE, DIST_EXTRA, LENGTH_BASE, LENGTH_EXTRA,
};
use crate::codecs::deflate::lz77;
use crate::codecs::deflate::lz77::Token;
use crate::codecs::lengths;
use crate::utils::bits;
use crate::utils::lz;
use vstd::arithmetic::div_mod::*;
use vstd::arithmetic::power2::*;
use vstd::prelude::*;

verus! {

/// The bits of a symbol's code word.
pub open spec fn symbol_bits(lens: Seq<u8>, s: int) -> Seq<bool> {
    bits::bits_of(huffman::word(huffman::code_of(lens, s), lens[s] as nat), lens[s] as nat)
}

/// The last row at or before `i` whose base is no more than `len`.
pub open spec fn length_code_from(len: int, i: int) -> int
    decreases i,
{
    if i <= 0 || LENGTH_BASE@[i] <= len {
        i
    } else {
        length_code_from(len, i - 1)
    }
}

/// The number of the length symbol for a length.
pub open spec fn length_code_of(len: int) -> int {
    length_code_from(len, 28)
}

/// The last row at or before `i` whose base is no more than `dist`.
pub open spec fn dist_code_from(dist: int, i: int) -> int
    decreases i,
{
    if i <= 0 || DIST_BASE@[i] <= dist {
        i
    } else {
        dist_code_from(dist, i - 1)
    }
}

/// The distance symbol for a distance.
pub open spec fn dist_code_of(dist: int) -> int {
    dist_code_from(dist, 29)
}

proof fn lemma_length_code_from(len: int, i: int)
    requires
        3 <= len <= 258,
        0 <= i < 29,
        i < 28 ==> len < LENGTH_BASE@[i + 1],
    ensures
        ({
            let c = length_code_from(len, i);
            0 <= c < 29 && LENGTH_BASE@[c] <= len < LENGTH_BASE@[c] + pow2(LENGTH_EXTRA@[c] as nat)
        }),
    decreases i,
{
    lemma2_to64();
    if i > 0 && LENGTH_BASE@[i] > len {
        lemma_length_code_from(len, i - 1);
    }
}

/// Every length has a symbol, and the rest of it fits the symbol's extra bits.
pub proof fn lemma_length_code(len: int)
    requires
        3 <= len <= 258,
    ensures
        ({
            let c = length_code_of(len);
            0 <= c < 29 && LENGTH_BASE@[c] <= len < LENGTH_BASE@[c] + pow2(LENGTH_EXTRA@[c] as nat)
        }),
{
    lemma_length_code_from(len, 28);
}

proof fn lemma_dist_code_from(dist: int, i: int)
    requires
        1 <= dist <= 32768,
        0 <= i < 30,
        i < 29 ==> dist < DIST_BASE@[i + 1],
    ensures
        ({
            let c = dist_code_from(dist, i);
            0 <= c < 30 && DIST_BASE@[c] <= dist < DIST_BASE@[c] + pow2(DIST_EXTRA@[c] as nat)
        }),
    decreases i,
{
    lemma2_to64();
    if i > 0 && DIST_BASE@[i] > dist {
        lemma_dist_code_from(dist, i - 1);
    }
}

/// Every distance has a symbol, and the rest of it fits the symbol's extra
/// bits.
pub proof fn lemma_dist_code(dist: int)
    requires
        1 <= dist <= 32768,
    ensures
        ({
            let c = dist_code_of(dist);
            0 <= c < 30 && DIST_BASE@[c] <= dist < DIST_BASE@[c] + pow2(DIST_EXTRA@[c] as nat)
        }),
{
    lemma_dist_code_from(dist, 29);
}

/// The number of the length symbol for a length.
pub fn length_code(len: u16) -> (r: usize)
    requires
        3 <= len <= 258,
    ensures
        r == length_code_of(len as int),
        r < 29,
{
    let mut i: usize = 28;
    while i > 0 && LENGTH_BASE[i] > len
        invariant
            i < 29,
            length_code_from(len as int, i as int) == length_code_of(len as int),
        decreases i,
    {
        i = i - 1;
    }
    i
}

/// The distance symbol for a distance.
pub fn dist_code(dist: u16) -> (r: usize)
    requires
        1 <= dist <= 32768,
    ensures
        r == dist_code_of(dist as int),
        r < 30,
{
    let mut i: usize = 29;
    while i > 0 && DIST_BASE[i] > dist
        invariant
            i < 30,
            dist_code_from(dist as int, i as int) == dist_code_of(dist as int),
        decreases i,
    {
        i = i - 1;
    }
    i
}

/// The bits of a token.
pub open spec fn token_bits(t: Token, lit: Seq<u8>, dist: Seq<u8>) -> Seq<bool> {
    match t {
        Token::Literal(b) => symbol_bits(lit, b as int),
        Token::Match { len, dist: d } => {
            let c = length_code_of(len as int);
            let k = dist_code_of(d as int);
            symbol_bits(lit, 257 + c) + bits::bits_of(
                (len - LENGTH_BASE@[c]) as nat,
                LENGTH_EXTRA@[c] as nat,
            ) + symbol_bits(dist, k) + bits::bits_of(
                (d - DIST_BASE@[k]) as nat,
                DIST_EXTRA@[k] as nat,
            )
        },
    }
}

/// The bits of a run of tokens.
pub open spec fn tokens_bits(tokens: Seq<Token>, lit: Seq<u8>, dist: Seq<u8>) -> Seq<bool>
    decreases tokens.len(),
{
    if tokens.len() == 0 {
        Seq::empty()
    } else {
        tokens_bits(tokens.drop_last(), lit, dist) + token_bits(tokens.last(), lit, dist)
    }
}

/// A code that symbols can be written with.
pub open spec fn usable(lens: Seq<u8>) -> bool {
    &&& forall|i: int| 0 <= i < lens.len() ==> #[trigger] lens[i] <= MAX_BITS
    &&& lengths::kraft(lens, MAX_BITS as int) <= pow2(MAX_BITS as nat)
}

/// Every symbol a token needs has a code word.
pub open spec fn token_covered(t: Token, lit: Seq<u8>, dist: Seq<u8>) -> bool {
    match t {
        Token::Literal(b) => b < lit.len() && lit[b as int] > 0,
        Token::Match { len, dist: d } => {
            let c = length_code_of(len as int);
            let k = dist_code_of(d as int);
            &&& 257 + c < lit.len()
            &&& lit[257 + c] > 0
            &&& k < dist.len()
            &&& dist[k] > 0
        },
    }
}

/// Every symbol the tokens need, and the end of the block, have code words.
pub open spec fn covered(tokens: Seq<Token>, lit: Seq<u8>, dist: Seq<u8>) -> bool {
    &&& usable(lit)
    &&& usable(dist)
    &&& 256 < lit.len()
    &&& lit[256] > 0
    &&& forall|i: int| 0 <= i < tokens.len() ==> token_covered(#[trigger] tokens[i], lit, dist)
}

/// A code word written is the symbol read.
pub proof fn lemma_symbol_read(data: Seq<u8>, p: int, lens: Seq<u8>, s: int)
    requires
        usable(lens),
        0 <= s < lens.len(),
        lens[s] > 0,
        bits::has(data, p, symbol_bits(lens, s)),
    ensures
        inflate::symbol(data, p, lens) == Some((s as nat, p + lens[s])),
{
    let l = lens[s] as nat;
    let code = huffman::code_of(lens, s);
    let w = huffman::word(code, l);
    assert(lens[s] <= MAX_BITS);
    huffman::lemma_code_fits(lens, s);
    huffman::lemma_word_bound(code, l);
    huffman::lemma_word_involution(code, l);
    bits::lemma_has_value(data, p, w, l);
    lemma_small_mod(w, pow2(l));
    let x = bits::peek(data, p, 15);
    bits::lemma_peek_div_mod(data, p, l, (15 - l) as nat);
    huffman::lemma_word_low(x, w, l, l);
    assert(huffman::starts_with(lens, x, s));
    huffman::lemma_decoded(lens, x, s);
}

/// A field written is the number read.
pub proof fn lemma_field_read(data: Seq<u8>, p: int, v: nat, n: nat)
    requires
        v < pow2(n),
        bits::has(data, p, bits::bits_of(v, n)),
    ensures
        inflate::field(data, p, n) == Some((v, p + n)),
{
    bits::lemma_has_value(data, p, v, n);
    lemma_small_mod(v, pow2(n));
}

/// A token written is the token read.
pub proof fn lemma_token_read(
    data: Seq<u8>,
    p: int,
    out: Seq<u8>,
    t: Token,
    lit: Seq<u8>,
    dist: Seq<u8>,
    last: bool,
)
    requires
        usable(lit),
        usable(dist),
        token_covered(t, lit, dist),
        lz77::token_ok(t, out.len()),
        bits::has(data, p, token_bits(t, lit, dist)),
    ensures
        inflate::codes(Variant::Deflate, data, p, out, lit, dist, last) == inflate::codes(
            Variant::Deflate,
            data,
            p + token_bits(t, lit, dist).len(),
            lz77::apply(out, t),
            lit,
            dist,
            last,
        ),
{
    match t {
        Token::Literal(b) => {
            lemma_symbol_read(data, p, lit, b as int);
        },
        Token::Match { len, dist: d } => {
            let c = length_code_of(len as int);
            let k = dist_code_of(d as int);
            lemma_length_code(len as int);
            lemma_dist_code(d as int);
            let x = (len - LENGTH_BASE@[c]) as nat;
            let y = (d - DIST_BASE@[k]) as nat;
            let b1 = symbol_bits(lit, 257 + c);
            let b2 = bits::bits_of(x, LENGTH_EXTRA@[c] as nat);
            let b3 = symbol_bits(dist, k);
            let b4 = bits::bits_of(y, DIST_EXTRA@[k] as nat);
            bits::lemma_has_concat(data, p, b1 + b2 + b3, b4);
            bits::lemma_has_concat(data, p, b1 + b2, b3);
            bits::lemma_has_concat(data, p, b1, b2);
            let p2 = p + b1.len();
            let p3 = p2 + b2.len();
            let p4 = p3 + b3.len();
            lemma_symbol_read(data, p, lit, 257 + c);
            lemma_field_read(data, p2, x, LENGTH_EXTRA@[c] as nat);
            lemma_symbol_read(data, p3, dist, k);
            lemma_field_read(data, p4, y, DIST_EXTRA@[k] as nat);
            assert(inflate::copy_at(Variant::Deflate, data, p2, c, dist) == Some(
                (len as nat, d as nat, p4 + b4.len()),
            ));
        },
    }
}

/// Tokens and an end of block written are a compressed block read.
pub proof fn lemma_tokens_read(
    data: Seq<u8>,
    p: int,
    out: Seq<u8>,
    tokens: Seq<Token>,
    lit: Seq<u8>,
    dist: Seq<u8>,
    last: bool,
)
    requires
        covered(tokens, lit, dist),
        lz77::tokens_ok(tokens),
        bits::has(data, p, tokens_bits(tokens, lit, dist) + symbol_bits(lit, 256)),
    ensures
        inflate::codes(Variant::Deflate, data, p, out, lit, dist, last) == inflate::blocks(
            Variant::Deflate,
            data,
            p + tokens_bits(tokens, lit, dist).len() + lit[256],
            out + lz77::spelled(tokens),
            last,
        ),
{
    let w = tokens_bits(tokens, lit, dist);
    bits::lemma_has_concat(data, p, w, symbol_bits(lit, 256));
    lemma_tokens_prefix(data, p, out, tokens, lit, dist, last);
    lemma_symbol_read(data, p + w.len(), lit, 256);
}

proof fn lemma_tokens_prefix(
    data: Seq<u8>,
    p: int,
    out: Seq<u8>,
    tokens: Seq<Token>,
    lit: Seq<u8>,
    dist: Seq<u8>,
    last: bool,
)
    requires
        covered(tokens, lit, dist),
        lz77::tokens_ok(tokens),
        bits::has(data, p, tokens_bits(tokens, lit, dist)),
    ensures
        inflate::codes(Variant::Deflate, data, p, out, lit, dist, last) == inflate::codes(
            Variant::Deflate,
            data,
            p + tokens_bits(tokens, lit, dist).len(),
            out + lz77::spelled(tokens),
            lit,
            dist,
            last,
        ),
    decreases tokens.len(),
{
    if tokens.len() == 0 {
        assert(out + lz77::spelled(tokens) =~= out);
    } else {
        let front = tokens.drop_last();
        let t = tokens.last();
        let w = tokens_bits(front, lit, dist);
        bits::lemma_has_concat(data, p, w, token_bits(t, lit, dist));
        assert forall|i: int| 0 <= i < front.len() implies lz77::token_ok(
            #[trigger] front[i],
            lz77::spelled(front.take(i)).len(),
        ) by {
            assert(front.take(i) =~= tokens.take(i));
            assert(front[i] == tokens[i]);
        }
        assert forall|i: int| 0 <= i < front.len() implies token_covered(
            #[trigger] front[i],
            lit,
            dist,
        ) by {
            assert(front[i] == tokens[i]);
        }
        lemma_tokens_prefix(data, p, out, front, lit, dist, last);
        assert(tokens.take(tokens.len() - 1) =~= front);
        assert(lz77::token_ok(tokens[tokens.len() - 1], lz77::spelled(front).len()));
        assert(token_covered(tokens[tokens.len() - 1], lit, dist));
        let sofar = lz77::spelled(front);
        lemma_token_read(data, p + w.len(), out + sofar, t, lit, dist, last);
        assert(lz77::apply(out + sofar, t) =~= out + lz77::apply(sofar, t)) by {
            match t {
                Token::Literal(b) => {},
                Token::Match { len, dist: d } => {
                    lz::lemma_copied_after(out, sofar, d as int, len as nat);
                },
            }
        }
    }
}

/// The code words of a canonical code, each ready to be written with its low
/// bit first.
pub fn canonical_codes(lens: &[u8]) -> (codes: Vec<u16>)
    requires
        usable(lens@),
        lens@.len() <= 4096,
    ensures
        codes@.len() == lens@.len(),
        forall|s: int|
            0 <= s < lens@.len() && lens@[s] > 0 ==> #[trigger] codes@[s] == huffman::word(
                huffman::code_of(lens@, s),
                lens@[s] as nat,
            ),
{
    let ghost ls = lens@;
    let mut counts: [u16; 16] = [0u16; 16];
    let mut cleared: usize = 0;
    while cleared < 16
        invariant
            cleared <= 16,
            forall|k: int| 0 <= k < cleared ==> #[trigger] counts@[k] == 0,
        decreases 16 - cleared,
    {
        counts[cleared] = 0;
        cleared = cleared + 1;
    }
    let mut i: usize = 0;
    assert forall|l: int| 0 <= l < 16 implies #[trigger] counts@[l] == lengths::cnt(
        ls.take(0),
        l,
    ) by {
        assert(ls.take(0).len() == 0);
    }
    while i < lens.len()
        invariant
            i <= lens.len() <= 4096,
            ls == lens@,
            usable(ls),
            forall|l: int|
                0 <= l < 16 ==> #[trigger] counts@[l] == lengths::cnt(ls.take(i as int), l),
        decreases lens.len() - i,
    {
        assert(ls[i as int] <= MAX_BITS);
        let l: usize = lens[i] as usize;
        proof {
            huffman::lemma_cnt_bounds(ls, i as int, l as int);
            assert forall|m: int| 0 <= m < 16 implies lengths::cnt(ls.take(i + 1), m)
                == #[trigger] lengths::cnt(ls.take(i as int), m) + if ls[i as int] as int == m {
                1nat
            } else {
                0
            } by {
                huffman::lemma_cnt_take(ls, i as int, m);
            }
        }
        counts[l] = counts[l] + 1;
        i = i + 1;
    }
    assert(ls.take(i as int) =~= ls);
    let mut next_code: [u16; 17] = [0u16; 17];
    let mut code: u16 = 0;
    proof {
        lengths::lemma_kraft_zero(ls);
    }
    let mut l: usize = 1;
    while l <= 15
        invariant
            1 <= l <= 16,
            usable(ls),
            forall|k: int| 0 <= k < 16 ==> #[trigger] counts@[k] == lengths::cnt(ls, k),
            l > 1 ==> code == huffman::first_code(ls, l - 1),
            l == 1 ==> code == 0,
            forall|k: int| 1 <= k < l ==> #[trigger] next_code@[k] == huffman::first_code(ls, k),
        decreases 16 - l,
    {
        if l > 1 {
            proof {
                lengths::lemma_kraft_step(ls, l - 1);
                lengths::lemma_kraft_bound(ls, l - 1, 15);
                if l - 1 < 14 {
                    lemma_pow2_strictly_increases((l - 1) as nat, 14);
                }
                lemma2_to64();
            }
            code = (code + counts[l - 1]) * 2;
        } else {
            proof {
                lengths::lemma_kraft_zero(ls);
            }
        }
        next_code[l] = code;
        l = l + 1;
    }
    let mut codes: Vec<u16> = Vec::with_capacity(lens.len());
    let mut i: usize = 0;
    while i < lens.len()
        invariant
            i <= lens.len() <= 4096,
            ls == lens@,
            usable(ls),
            codes@.len() == i,
            forall|k: int|
                1 <= k <= 15 ==> #[trigger] next_code@[k] == huffman::first_code(ls, k)
                    + lengths::cnt(ls.take(i as int), k),
            forall|s: int|
                0 <= s < i && ls[s] > 0 ==> #[trigger] codes@[s] == huffman::word(
                    huffman::code_of(ls, s),
                    ls[s] as nat,
                ),
        decreases lens.len() - i,
    {
        assert(ls[i as int] <= MAX_BITS);
        let l: u8 = lens[i];
        proof {
            assert forall|m: int| 0 <= m < 16 implies lengths::cnt(ls.take(i + 1), m)
                == #[trigger] lengths::cnt(ls.take(i as int), m) + if ls[i as int] as int == m {
                1nat
            } else {
                0
            } by {
                huffman::lemma_cnt_take(ls, i as int, m);
            }
        }
        if l == 0 {
            codes.push(0);
        } else {
            proof {
                huffman::lemma_code_fits(ls, i as int);
                lemma2_to64();
                if l < 15 {
                    lemma_pow2_strictly_increases(l as nat, 15);
                }
            }
            let c: u16 = next_code[l as usize];
            next_code[l as usize] = c + 1;
            codes.push(reverse_bits(c as u32, l as u32) as u16);
        }
        i = i + 1;
    }
    codes
}

} // verus!
