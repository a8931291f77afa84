//! Reading Deflate and Deflate64.
use crate::codecs::deflate::huffman;
use crate::codecs::deflate::history::History;
use crate::codecs::deflate::huffman::{fixed_distance_lengths, fixed_literal_lengths, Decoder};
use crate::codecs::deflate::source::BitSource;
use crate::utils::bits;
use crate::utils::error::{Error, Result};
use crate::utils::lz;
use vstd::arithmetic::div_mod::*;
use vstd::arithmetic::power2::*;
use vstd::prelude::*;

verus! {

const WINDOW: usize = 32_768;

const WINDOW64: usize = 65_536;

/// The shortest length of each length symbol.
pub const LENGTH_BASE: [u16; 29] = [
    3, 4, 5, 6, 7, 8, 9, 10, 11, 13, 15, 17, 19, 23, 27, 31, 35, 43, 51, 59, 67, 83, 99, 115, 131,
    163, 195, 227, 258,
];

/// How many bits follow each length symbol.
pub const LENGTH_EXTRA: [u8; 29] = [
    0, 0, 0, 0, 0, 0, 0, 0, 1, 1, 1, 1, 2, 2, 2, 2, 3, 3, 3, 3, 4, 4, 4, 4, 5, 5, 5, 5, 0,
];

/// The shortest distance of each distance symbol.
pub const DIST_BASE: [u16; 30] = [
    1, 2, 3, 4, 5, 7, 9, 13, 17, 25, 33, 49, 65, 97, 129, 193, 257, 385, 513, 769, 1025, 1537, 2049,
    3073, 4097, 6145, 8193, 12_289, 16_385, 24_577,
];

/// How many bits follow each distance symbol.
pub const DIST_EXTRA: [u8; 30] = [
    0, 0, 0, 0, 1, 1, 2, 2, 3, 3, 4, 4, 5, 5, 6, 6, 7, 7, 8, 8, 9, 9, 10, 10, 11, 11, 12, 12, 13, 13,
];

/// The same for Deflate64.
pub const LENGTH_BASE64: [u16; 29] = [
    3, 4, 5, 6, 7, 8, 9, 10, 11, 13, 15, 17, 19, 23, 27, 31, 35, 43, 51, 59, 67, 83, 99, 115, 131,
    163, 195, 227, 3,
];

/// The same for Deflate64.
pub const LENGTH_EXTRA64: [u8; 29] = [
    0, 0, 0, 0, 0, 0, 0, 0, 1, 1, 1, 1, 2, 2, 2, 2, 3, 3, 3, 3, 4, 4, 4, 4, 5, 5, 5, 5, 16,
];

/// The same for Deflate64.
pub const DIST_BASE64: [u32; 32] = [
    1, 2, 3, 4, 5, 7, 9, 13, 17, 25, 33, 49, 65, 97, 129, 193, 257, 385, 513, 769, 1025, 1537, 2049,
    3073, 4097, 6145, 8193, 12_289, 16_385, 24_577, 32_769, 49_153,
];

/// The same for Deflate64.
pub const DIST_EXTRA64: [u8; 32] = [
    0, 0, 0, 0, 1, 1, 2, 2, 3, 3, 4, 4, 5, 5, 6, 6, 7, 7, 8, 8, 9, 9, 10, 10, 11, 11, 12, 12, 13, 13,
    14, 14,
];

/// The order in which the lengths of the code length code are written.
pub const CODE_LENGTH_ORDER: [usize; 19] = [
    16, 17, 18, 0, 8, 7, 9, 6, 10, 5, 11, 4, 12, 3, 13, 2, 14, 1, 15,
];

/// Which of the two formats.
#[derive(Debug, Clone, Copy, PartialEq, Eq, Structural)]
pub enum Variant {
    /// Deflate, with a window of 32 KiB.
    Deflate,
    /// Deflate64, with a window of 64 KiB.
    Deflate64,
}

impl Default for Variant {
    fn default() -> (r: Self)
        ensures
            r == Variant::Deflate,
    {
        Variant::Deflate
    }
}

/// How far back a copy can reach.
pub open spec fn window_of(v: Variant) -> int {
    match v {
        Variant::Deflate => 32_768,
        Variant::Deflate64 => 65_536,
    }
}

/// How many distance symbols there are.
pub open spec fn distance_codes_of(v: Variant) -> int {
    match v {
        Variant::Deflate => 30,
        Variant::Deflate64 => 32,
    }
}

impl Variant {
    fn window(self) -> (r: usize)
        ensures
            r == window_of(self),
    {
        match self {
            Variant::Deflate => WINDOW,
            Variant::Deflate64 => WINDOW64,
        }
    }

    fn distance_codes(self) -> (r: usize)
        ensures
            r == distance_codes_of(self),
    {
        match self {
            Variant::Deflate => 30,
            Variant::Deflate64 => 32,
        }
    }
}

/// The base and the number of extra bits of a length symbol.
pub open spec fn length_row(v: Variant, i: int) -> (nat, nat) {
    match v {
        Variant::Deflate => (LENGTH_BASE@[i] as nat, LENGTH_EXTRA@[i] as nat),
        Variant::Deflate64 => (LENGTH_BASE64@[i] as nat, LENGTH_EXTRA64@[i] as nat),
    }
}

/// The base and the number of extra bits of a distance symbol.
pub open spec fn distance_row(v: Variant, i: int) -> (nat, nat) {
    match v {
        Variant::Deflate => (DIST_BASE@[i] as nat, DIST_EXTRA@[i] as nat),
        Variant::Deflate64 => (DIST_BASE64@[i] as nat, DIST_EXTRA64@[i] as nat),
    }
}

/// Up to where bits can be read: the input, and sixty-four clear bits after
/// it, since a short code at the end is looked at together with what follows.
pub open spec fn limit(data: Seq<u8>) -> int {
    8 * (data.len() as int) + 64
}

/// A field of `n` bits at `p`, and where it ends.
pub open spec fn field(data: Seq<u8>, p: int, n: nat) -> Option<(nat, int)> {
    if p + n <= limit(data) {
        Some((bits::peek(data, p, n), p + n))
    } else {
        None
    }
}

/// A symbol of the code with lengths `lens` at `p`, and where it ends.
pub open spec fn symbol(data: Seq<u8>, p: int, lens: Seq<u8>) -> Option<(nat, int)> {
    if p + 15 <= limit(data) {
        match huffman::decoded(lens, bits::peek(data, p, 15)) {
            Some((s, l)) => Some((s, p + l)),
            None => None,
        }
    } else {
        None
    }
}

/// The first `k` lengths of the code length code, three bits each.
pub open spec fn order_lengths(data: Seq<u8>, p: int, k: nat) -> Seq<u8>
    decreases k,
{
    if k == 0 {
        Seq::new(19, |i: int| 0u8)
    } else {
        order_lengths(data, p, (k - 1) as nat).update(
            CODE_LENGTH_ORDER@[k - 1] as int,
            bits::peek(data, p + 3 * (k - 1), 3) as u8,
        )
    }
}

/// `s` followed by `n` times `x`.
pub open spec fn repeated(s: Seq<u8>, x: u8, n: nat) -> Seq<u8> {
    s + Seq::new(n, |i: int| x)
}

/// `total` code lengths, written with the code length code `cl`, of which
/// `acc` are known already.
pub open spec fn code_lengths(
    data: Seq<u8>,
    p: int,
    cl: Seq<u8>,
    acc: Seq<u8>,
    total: nat,
) -> Option<(Seq<u8>, int)>
    decreases limit(data) - p,
{
    if acc.len() >= total {
        Some((acc, p))
    } else {
        match symbol(data, p, cl) {
            None => None,
            Some((s, q)) => {
                if s <= 15 {
                    code_lengths(data, q, cl, acc.push(s as u8), total)
                } else if s <= 18 {
                    let (width, base, x) = if s == 16 {
                        (2nat, 3nat, acc.last())
                    } else if s == 17 {
                        (3, 3, 0u8)
                    } else {
                        (7, 11, 0u8)
                    };
                    match field(data, q, width) {
                        None => None,
                        Some((n, r)) => if (s == 16 && acc.len() == 0) || acc.len() + base + n
                            > total {
                            None
                        } else {
                            code_lengths(data, r, cl, repeated(acc, x, base + n), total)
                        },
                    }
                } else {
                    None
                }
            },
        }
    }
}

/// The two codes that a dynamic block starts with, and where they end.
pub open spec fn dynamic_tables(v: Variant, data: Seq<u8>, p: int) -> Option<
    (Seq<u8>, Seq<u8>, int),
> {
    let hlit = bits::peek(data, p, 5) + 257;
    let hdist = bits::peek(data, p + 5, 5) + 1;
    let hclen = bits::peek(data, p + 10, 4) + 4;
    let q = p + 14 + 3 * hclen;
    let cl = order_lengths(data, p + 14, hclen);
    if q > limit(data) || hlit > 286 || hdist > distance_codes_of(v) || !huffman::valid(cl) {
        None
    } else {
        match code_lengths(data, q, cl, Seq::empty(), hlit + hdist) {
            None => None,
            Some((all, r)) => {
                let lit = all.take(hlit as int);
                let dist = all.skip(hlit as int);
                if all[256] == 0 || !huffman::valid(lit) || !huffman::valid(dist) {
                    None
                } else {
                    Some((lit, dist, r))
                }
            },
        }
    }
}

/// What the blocks from `p` on add to `out`, and where the stream ends. `done`
/// says that the block before was marked as the last one.
pub open spec fn blocks(v: Variant, data: Seq<u8>, p: int, out: Seq<u8>, done: bool) -> Option<
    (Seq<u8>, int),
>
    decreases limit(data) - p, 1int,
{
    if done {
        Some((out, p))
    } else if p + 3 > limit(data) {
        None
    } else {
        let last = bits::peek(data, p, 1) == 1;
        let kind = bits::peek(data, p + 1, 2);
        if kind == 0 {
            let q = bits::align8(p + 3);
            let n = bits::peek(data, q, 16);
            if q + 32 > limit(data) || n + bits::peek(data, q + 16, 16) != 0xffff {
                None
            } else {
                stored(v, data, q + 32, out, n, last)
            }
        } else if kind == 1 {
            codes(
                v,
                data,
                p + 3,
                out,
                Seq::new(288, |i: int| huffman::fixed_literal(i)),
                Seq::new(32, |i: int| 5u8),
                last,
            )
        } else if kind == 2 {
            match dynamic_tables(v, data, p + 3) {
                None => None,
                Some((lit, dist, q)) => {
                    proof {
                        lemma_dynamic_tables_end(v, data, p + 3);
                    }
                    codes(v, data, q, out, lit, dist, last)
                },
            }
        } else {
            None
        }
    }
}

/// What a stored block with `n` bytes to come, and the blocks after it, add.
pub open spec fn stored(
    v: Variant,
    data: Seq<u8>,
    p: int,
    out: Seq<u8>,
    n: nat,
    last: bool,
) -> Option<(Seq<u8>, int)>
    decreases limit(data) - p, 2int,
{
    if n == 0 {
        blocks(v, data, p, out, last)
    } else if p + 8 * n <= 8 * data.len() {
        blocks(v, data, p + 8 * n, out + data.subrange(p / 8, p / 8 + n), last)
    } else {
        None
    }
}

/// What a compressed block, and the blocks after it, add.
pub open spec fn codes(
    v: Variant,
    data: Seq<u8>,
    p: int,
    out: Seq<u8>,
    lit: Seq<u8>,
    dist: Seq<u8>,
    last: bool,
) -> Option<(Seq<u8>, int)>
    decreases limit(data) - p, 2int,
{
    match symbol(data, p, lit) {
        None => None,
        Some((s, q)) => {
            if s < 256 {
                codes(v, data, q, out.push(s as u8), lit, dist, last)
            } else if s == 256 {
                blocks(v, data, q, out, last)
            } else if s <= 285 {
                match copy_at(v, data, q, s as int - 257, dist) {
                    None => None,
                    Some((n, d, r)) => if d > out.len() {
                        None
                    } else {
                        codes(v, data, r, lz::copied(out, d as int, n), lit, dist, last)
                    },
                }
            } else {
                None
            }
        },
    }
}

/// The length and the distance of a copy whose length symbol was number `i`,
/// and where they end.
pub open spec fn copy_at(v: Variant, data: Seq<u8>, p: int, i: int, dist: Seq<u8>) -> Option<
    (nat, nat, int),
> {
    let (base, extra) = length_row(v, i);
    match field(data, p, extra) {
        None => None,
        Some((x, q)) => match symbol(data, q, dist) {
            None => None,
            Some((d, r)) => if d >= distance_codes_of(v) {
                None
            } else {
                let (dbase, dextra) = distance_row(v, d as int);
                match field(data, r, dextra) {
                    None => None,
                    Some((y, t)) => Some((base + x, dbase + y, t)),
                }
            },
        },
    }
}

/// What a whole stream decodes to, and the bit position where it ends.
pub open spec fn inflated(v: Variant, data: Seq<u8>) -> Option<(Seq<u8>, int)> {
    blocks(v, data, 0, Seq::empty(), false)
}

/// What the blocks from `p` on hold behind `out`, up to the end or up to the
/// first fault.
pub open spec fn held_blocks(v: Variant, data: Seq<u8>, p: int, out: Seq<u8>, done: bool) -> Seq<u8>
    decreases limit(data) - p, 1int,
{
    if done || p + 3 > limit(data) {
        out
    } else {
        let last = bits::peek(data, p, 1) == 1;
        let kind = bits::peek(data, p + 1, 2);
        if kind == 0 {
            let q = bits::align8(p + 3);
            let n = bits::peek(data, q, 16);
            if q + 32 > limit(data) || n + bits::peek(data, q + 16, 16) != 0xffff {
                out
            } else {
                held_stored(v, data, q + 32, out, n, last)
            }
        } else if kind == 1 {
            held_codes(
                v,
                data,
                p + 3,
                out,
                Seq::new(288, |i: int| huffman::fixed_literal(i)),
                Seq::new(32, |i: int| 5u8),
                last,
            )
        } else if kind == 2 {
            match dynamic_tables(v, data, p + 3) {
                None => out,
                Some((lit, dist, q)) => {
                    proof {
                        lemma_dynamic_tables_end(v, data, p + 3);
                    }
                    held_codes(v, data, q, out, lit, dist, last)
                },
            }
        } else {
            out
        }
    }
}

/// What a stored block with `n` bytes to come, and the blocks after it, hold.
/// Of a block that is cut it is what is there.
pub open spec fn held_stored(
    v: Variant,
    data: Seq<u8>,
    p: int,
    out: Seq<u8>,
    n: nat,
    last: bool,
) -> Seq<u8>
    decreases limit(data) - p, 2int,
{
    if n == 0 {
        held_blocks(v, data, p, out, last)
    } else if p + 8 * n <= 8 * data.len() {
        held_blocks(v, data, p + 8 * n, out + data.subrange(p / 8, p / 8 + n), last)
    } else if 0 <= p <= 8 * data.len() {
        out + data.skip(p / 8)
    } else {
        out
    }
}

/// What a compressed block, and the blocks after it, hold.
pub open spec fn held_codes(
    v: Variant,
    data: Seq<u8>,
    p: int,
    out: Seq<u8>,
    lit: Seq<u8>,
    dist: Seq<u8>,
    last: bool,
) -> Seq<u8>
    decreases limit(data) - p, 2int,
{
    match symbol(data, p, lit) {
        None => out,
        Some((s, q)) => {
            if s < 256 {
                held_codes(v, data, q, out.push(s as u8), lit, dist, last)
            } else if s == 256 {
                held_blocks(v, data, q, out, last)
            } else if s <= 285 {
                match copy_at(v, data, q, s as int - 257, dist) {
                    None => out,
                    Some((n, d, r)) => if d > out.len() {
                        out
                    } else {
                        held_codes(v, data, r, lz::copied(out, d as int, n), lit, dist, last)
                    },
                }
            } else {
                out
            }
        },
    }
}

/// What a stream holds up to its end or up to the first fault.
pub open spec fn held(v: Variant, data: Seq<u8>) -> Seq<u8> {
    held_blocks(v, data, 0, Seq::empty(), false)
}

/// A stream that can be read to its end holds what it decodes to.
pub proof fn lemma_held(v: Variant, data: Seq<u8>)
    ensures
        inflated(v, data) matches Some((all, end)) ==> held(v, data) == all,
{
    lemma_blocks_extend(v, data, 0, Seq::empty(), false);
}

pub proof fn lemma_symbol_advances(data: Seq<u8>, p: int, lens: Seq<u8>)
    ensures
        symbol(data, p, lens) matches Some((s, q)) ==> p < q <= limit(data) && s < lens.len(),
{
    huffman::lemma_decoded_range(lens, bits::peek(data, p, 15));
}

proof fn lemma_code_lengths_end(data: Seq<u8>, p: int, cl: Seq<u8>, acc: Seq<u8>, total: nat)
    requires
        p <= limit(data),
        acc.len() <= total,
    ensures
        code_lengths(data, p, cl, acc, total) matches Some((all, q)) ==> p <= q <= limit(data)
            && all.len() == total,
    decreases limit(data) - p,
{
    if acc.len() < total {
        if let Some((s, q)) = symbol(data, p, cl) {
            lemma_symbol_advances(data, p, cl);
            if s <= 15 {
                lemma_code_lengths_end(data, q, cl, acc.push(s as u8), total);
            } else if s <= 18 {
                let (width, base, x) = if s == 16 {
                    (2nat, 3nat, acc.last())
                } else if s == 17 {
                    (3, 3, 0u8)
                } else {
                    (7, 11, 0u8)
                };
                if let Some((n, r)) = field(data, q, width) {
                    if !((s == 16 && acc.len() == 0) || acc.len() + base + n > total) {
                        lemma_code_lengths_end(data, r, cl, repeated(acc, x, base + n), total);
                    }
                }
            }
        }
    }
}

/// The tables end within the input, and are no larger than the format allows.
pub proof fn lemma_dynamic_tables_end(v: Variant, data: Seq<u8>, p: int)
    ensures
        dynamic_tables(v, data, p) matches Some((lit, dist, q)) ==> p < q <= limit(data)
            && lit.len() <= 286 && 1 <= dist.len() <= distance_codes_of(v),
{
    let hlit = bits::peek(data, p, 5) + 257;
    let hdist = bits::peek(data, p + 5, 5) + 1;
    let hclen = bits::peek(data, p + 10, 4) + 4;
    let q = p + 14 + 3 * hclen;
    if q <= limit(data) {
        lemma_code_lengths_end(
            data,
            q,
            order_lengths(data, p + 14, hclen),
            Seq::empty(),
            hlit + hdist,
        );
    }
}

/// Decoding only ever adds to what was there.
pub proof fn lemma_blocks_extend(v: Variant, data: Seq<u8>, p: int, out: Seq<u8>, done: bool)
    ensures
        blocks(v, data, p, out, done) matches Some((all, q)) ==> out.is_prefix_of(all)
            && held_blocks(v, data, p, out, done) == all,
        out.is_prefix_of(held_blocks(v, data, p, out, done)),
    decreases limit(data) - p, 1int,
{
    assert(out.take(out.len() as int) =~= out);
    if !done && p + 3 <= limit(data) {
        let last = bits::peek(data, p, 1) == 1;
        let kind = bits::peek(data, p + 1, 2);
        if kind == 0 {
            let q = bits::align8(p + 3);
            let n = bits::peek(data, q, 16);
            if q + 32 <= limit(data) && n + bits::peek(data, q + 16, 16) == 0xffff {
                lemma_stored_extend(v, data, q + 32, out, n, last);
            }
        } else if kind == 1 {
            lemma_codes_extend(
                v,
                data,
                p + 3,
                out,
                Seq::new(288, |i: int| huffman::fixed_literal(i)),
                Seq::new(32, |i: int| 5u8),
                last,
            );
        } else if kind == 2 {
            if let Some((lit, dist, q)) = dynamic_tables(v, data, p + 3) {
                lemma_dynamic_tables_end(v, data, p + 3);
                lemma_codes_extend(v, data, q, out, lit, dist, last);
            }
        }
    }
}

/// Decoding only ever adds to what was there.
pub proof fn lemma_stored_extend(
    v: Variant,
    data: Seq<u8>,
    p: int,
    out: Seq<u8>,
    n: nat,
    last: bool,
)
    ensures
        stored(v, data, p, out, n, last) matches Some((all, q)) ==> out.is_prefix_of(all)
            && held_stored(v, data, p, out, n, last) == all,
        out.is_prefix_of(held_stored(v, data, p, out, n, last)),
    decreases limit(data) - p, 2int,
{
    let h = held_stored(v, data, p, out, n, last);
    if n == 0 {
        lemma_blocks_extend(v, data, p, out, last);
    } else if p + 8 * n <= 8 * data.len() {
        let next = out + data.subrange(p / 8, p / 8 + n);
        lemma_blocks_extend(v, data, p + 8 * n, next, last);
        assert(out =~= next.take(out.len() as int));
        assert(h.take(out.len() as int) =~= h.take(next.len() as int).take(out.len() as int));
    } else {
        assert(h.take(out.len() as int) =~= out);
    }
}

/// Decoding only ever adds to what was there.
pub proof fn lemma_codes_extend(
    v: Variant,
    data: Seq<u8>,
    p: int,
    out: Seq<u8>,
    lit: Seq<u8>,
    dist: Seq<u8>,
    last: bool,
)
    ensures
        codes(v, data, p, out, lit, dist, last) matches Some((all, q)) ==> out.is_prefix_of(all)
            && held_codes(v, data, p, out, lit, dist, last) == all,
        out.is_prefix_of(held_codes(v, data, p, out, lit, dist, last)),
    decreases limit(data) - p, 2int,
{
    let h = held_codes(v, data, p, out, lit, dist, last);
    assert(out.take(out.len() as int) =~= out);
    if let Some((s, q)) = symbol(data, p, lit) {
        lemma_symbol_advances(data, p, lit);
        if s < 256 {
            lemma_codes_extend(v, data, q, out.push(s as u8), lit, dist, last);
            assert(out =~= out.push(s as u8).take(out.len() as int));
            assert(h.take(out.len() as int) =~= h.take(out.len() as int + 1).take(
                out.len() as int,
            ));
        } else if s == 256 {
            lemma_blocks_extend(v, data, q, out, last);
        } else if s <= 285 {
            if let Some((n, d, r)) = copy_at(v, data, q, s as int - 257, dist) {
                if d <= out.len() {
                    let next = lz::copied(out, d as int, n);
                    lz::lemma_copied_prefix(out, d as int, n);
                    lemma_codes_extend(v, data, r, next, lit, dist, last);
                    assert(h.take(out.len() as int) =~= h.take(next.len() as int).take(
                        out.len() as int,
                    ));
                }
            }
        }
    }
}

/// A stream ends within the input and the zeros after it.
pub proof fn lemma_inflated_end(v: Variant, data: Seq<u8>)
    ensures
        inflated(v, data) matches Some((all, end)) ==> 0 <= end <= limit(data),
{
    lemma_blocks_end(v, data, 0, Seq::empty(), false);
}

proof fn lemma_blocks_end(v: Variant, data: Seq<u8>, p: int, out: Seq<u8>, done: bool)
    requires
        0 <= p <= limit(data),
    ensures
        blocks(v, data, p, out, done) matches Some((all, q)) ==> p <= q <= limit(data),
    decreases limit(data) - p, 1int,
{
    if !done && p + 3 <= limit(data) {
        let last = bits::peek(data, p, 1) == 1;
        let kind = bits::peek(data, p + 1, 2);
        if kind == 0 {
            let q = bits::align8(p + 3);
            let n = bits::peek(data, q, 16);
            if q + 32 <= limit(data) && n + bits::peek(data, q + 16, 16) == 0xffff {
                if n == 0 {
                    lemma_blocks_end(v, data, q + 32, out, last);
                } else if q + 32 + 8 * n <= 8 * data.len() {
                    let next = out + data.subrange((q + 32) / 8, (q + 32) / 8 + n);
                    lemma_blocks_end(v, data, q + 32 + 8 * n, next, last);
                }
            }
        } else if kind == 1 {
            lemma_codes_end(
                v,
                data,
                p + 3,
                out,
                Seq::new(288, |i: int| huffman::fixed_literal(i)),
                Seq::new(32, |i: int| 5u8),
                last,
            );
        } else if kind == 2 {
            if let Some((lit, dist, q)) = dynamic_tables(v, data, p + 3) {
                lemma_dynamic_tables_end(v, data, p + 3);
                lemma_codes_end(v, data, q, out, lit, dist, last);
            }
        }
    }
}

proof fn lemma_codes_end(
    v: Variant,
    data: Seq<u8>,
    p: int,
    out: Seq<u8>,
    lit: Seq<u8>,
    dist: Seq<u8>,
    last: bool,
)
    requires
        0 <= p <= limit(data),
    ensures
        codes(v, data, p, out, lit, dist, last) matches Some((all, q)) ==> p <= q <= limit(data),
    decreases limit(data) - p, 2int,
{
    if let Some((s, q)) = symbol(data, p, lit) {
        lemma_symbol_advances(data, p, lit);
        if s < 256 {
            lemma_codes_end(v, data, q, out.push(s as u8), lit, dist, last);
        } else if s == 256 {
            lemma_blocks_end(v, data, q, out, last);
        } else if s <= 285 {
            if let Some((n, d, r)) = copy_at(v, data, q, s as int - 257, dist) {
                if d <= out.len() {
                    lemma_codes_end(v, data, r, lz::copied(out, d as int, n), lit, dist, last);
                }
            }
        }
    }
}

/// How a stored block starts.
pub proof fn lemma_blocks_stored(v: Variant, data: Seq<u8>, p: int, out: Seq<u8>)
    requires
        bits::peek(data, p + 1, 2) == 0,
        bits::align8(p + 3) + 32 <= limit(data),
        bits::peek(data, bits::align8(p + 3), 16) + bits::peek(data, bits::align8(p + 3) + 16, 16)
            == 0xffff,
    ensures
        blocks(v, data, p, out, false) == stored(
            v,
            data,
            bits::align8(p + 3) + 32,
            out,
            bits::peek(data, bits::align8(p + 3), 16),
            bits::peek(data, p, 1) == 1,
        ),
{
}

/// How a stored block ends.
pub proof fn lemma_stored_blocks(
    v: Variant,
    data: Seq<u8>,
    i: int,
    out: Seq<u8>,
    n: nat,
    last: bool,
)
    requires
        0 <= i,
        i + n <= data.len(),
    ensures
        stored(v, data, 8 * i, out, n, last) == blocks(
            v,
            data,
            8 * (i + n),
            out + data.subrange(i, i + n),
            last,
        ),
{
    assert((8 * i) / 8 == i);
    if n == 0 {
        assert(out + data.subrange(i, i + n) =~= out);
    }
}

/// A stored block can be read in two pieces.
proof fn lemma_stored_split(
    v: Variant,
    data: Seq<u8>,
    p: int,
    out: Seq<u8>,
    n: nat,
    got: nat,
    last: bool,
)
    requires
        0 <= p,
        p % 8 == 0,
        0 < got <= n,
        p + 8 * got <= 8 * data.len(),
    ensures
        stored(v, data, p, out, n, last) == stored(
            v,
            data,
            p + 8 * got,
            out + data.subrange(p / 8, p / 8 + got),
            (n - got) as nat,
            last,
        ),
        held_stored(v, data, p, out, n, last) == held_stored(
            v,
            data,
            p + 8 * got,
            out + data.subrange(p / 8, p / 8 + got),
            (n - got) as nat,
            last,
        ),
{
    let q = p + 8 * got;
    let next = out + data.subrange(p / 8, p / 8 + got);
    assert(q / 8 == p / 8 + got);
    assert(out + data.skip(p / 8) =~= next + data.skip(q / 8));
    if p + 8 * n <= 8 * data.len() && got < n {
        assert(out + data.subrange(p / 8, p / 8 + n) =~= next + data.subrange(
            q / 8,
            q / 8 + (n - got),
        ));
    }
}

#[derive(Debug, Clone, Copy, PartialEq, Eq, Structural)]
enum State {
    BlockHeader,
    Stored(u32),
    Compressed,
    Done,
}

/// Decodes a Deflate or Deflate64 stream piece by piece.
pub struct InflateReader {
    source: BitSource,
    variant: Variant,
    output: History,
    state: State,
    final_block: bool,
    literal: Option<Decoder>,
    distance: Option<Decoder>,
    pending_copy: Option<(usize, usize)>,
}

impl InflateReader {
    spec fn parts_wf(&self) -> bool {
        &&& self.source.wf()
        &&& self.output.wf()
        &&& self.output.window() == window_of(self.variant)
        &&& self.pending_copy matches Some((n, d)) ==> 0 < n && 1 <= d <= window_of(self.variant)
            && d <= self.output.all().len()
    }

    /// Everything written once the copy in progress is made.
    spec fn after_copy(&self) -> Seq<u8> {
        match self.pending_copy {
            Some((n, d)) => lz::copied(self.output.all(), d as int, n as nat),
            None => self.output.all(),
        }
    }

    /// What the stream decodes to, seen from inside a compressed block.
    spec fn outcome_in(&self, lit: Seq<u8>, dist: Seq<u8>) -> Option<(Seq<u8>, int)> {
        codes(
            self.variant,
            self.source.data(),
            self.source.pos(),
            self.after_copy(),
            lit,
            dist,
            self.final_block,
        )
    }

    /// What the stream holds, seen from inside a compressed block.
    spec fn held_in(&self, lit: Seq<u8>, dist: Seq<u8>) -> Seq<u8> {
        held_codes(
            self.variant,
            self.source.data(),
            self.source.pos(),
            self.after_copy(),
            lit,
            dist,
            self.final_block,
        )
    }

    /// What the stream holds, seen from where the reader stands.
    spec fn held_here(&self) -> Seq<u8> {
        match self.state {
            State::BlockHeader => held_blocks(
                self.variant,
                self.source.data(),
                self.source.pos(),
                self.output.all(),
                self.final_block,
            ),
            State::Stored(n) => held_stored(
                self.variant,
                self.source.data(),
                self.source.pos(),
                self.output.all(),
                n as nat,
                self.final_block,
            ),
            State::Compressed => self.held_in(self.literal->0@, self.distance->0@),
            State::Done => self.output.all(),
        }
    }

    /// What the stream decodes to, seen from where the reader stands.
    spec fn outcome(&self) -> Option<(Seq<u8>, int)> {
        match self.state {
            State::BlockHeader => blocks(
                self.variant,
                self.source.data(),
                self.source.pos(),
                self.output.all(),
                self.final_block,
            ),
            State::Stored(n) => stored(
                self.variant,
                self.source.data(),
                self.source.pos(),
                self.output.all(),
                n as nat,
                self.final_block,
            ),
            State::Compressed => self.outcome_in(self.literal->0@, self.distance->0@),
            State::Done => Some((self.output.all(), self.source.pos())),
        }
    }

    /// The reader stands somewhere in the stream that it was given.
    pub closed spec fn wf(&self) -> bool {
        &&& self.parts_wf()
        &&& self.state is Compressed || self.pending_copy is None
        &&& self.state is Compressed ==> self.literal is Some && self.literal->0.wf()
            && self.distance is Some && self.distance->0.wf()
        &&& self.state is Stored ==> self.source.held() == 0 && self.source.pos() % 8 == 0
        &&& self.outcome() == self.stream()
        &&& self.held_here() == self.held()
    }

    /// The bytes the reader was given.
    pub closed spec fn input(&self) -> Seq<u8> {
        self.source.data()
    }

    /// Which format it reads.
    pub closed spec fn format(&self) -> Variant {
        self.variant
    }

    /// What the whole stream decodes to.
    pub open spec fn stream(&self) -> Option<(Seq<u8>, int)> {
        inflated(self.format(), self.input())
    }

    /// What the whole stream holds, or where it cannot be decoded to its end,
    /// what it holds before the fault.
    pub open spec fn held(&self) -> Seq<u8> {
        held(self.format(), self.input())
    }

    /// What was read so far.
    pub closed spec fn delivered(&self) -> Seq<u8> {
        self.output.delivered()
    }

    /// Whether the end of the stream was reached and everything was read.
    pub closed spec fn finished(&self) -> bool {
        self.state is Done && self.output.unread() == 0
    }

    /// The bit position reached in the input.
    pub closed spec fn position(&self) -> int {
        self.source.pos()
    }

    /// How much reading is left at most.
    pub closed spec fn budget(&self) -> nat {
        (70_000 * (limit(self.source.data()) - self.source.pos()) + match self.pending_copy {
            Some((n, d)) => n as int,
            None => 0int,
        } + self.output.unread()) as nat
    }

    /// What was read is a start of what the stream decodes to; at the end it
    /// is all of it.
    pub proof fn lemma_delivered(&self)
        requires
            self.wf(),
        ensures
            self.stream() matches Some((all, end)) ==> self.delivered().is_prefix_of(all)
                && self.held() == all,
            self.delivered().is_prefix_of(self.held()),
            self.finished() ==> self.stream() == Some((self.delivered(), self.position())),
    {
        let v = self.variant;
        let data = self.source.data();
        let p = self.source.pos();
        let out = self.output.all();
        self.output.lemma_unread();
        match self.state {
            State::BlockHeader => lemma_blocks_extend(v, data, p, out, self.final_block),
            State::Stored(n) => lemma_stored_extend(v, data, p, out, n as nat, self.final_block),
            State::Compressed => {
                if let Some((n, d)) = self.pending_copy {
                    lz::lemma_copied_prefix(out, d as int, n as nat);
                }
                lemma_codes_extend(
                    v,
                    data,
                    p,
                    self.after_copy(),
                    self.literal->0@,
                    self.distance->0@,
                    self.final_block,
                );
            },
            State::Done => {},
        }
        let h = self.held();
        lemma_held(v, data);
        assert(out.is_prefix_of(h)) by {
            assert(out.take(out.len() as int) =~= out);
            if self.state is Compressed {
                let n = self.after_copy().len() as int;
                assert(self.after_copy().take(out.len() as int) =~= out);
                assert(h.take(out.len() as int) =~= h.take(n).take(out.len() as int));
            }
        }
        assert(self.delivered() =~= h.take(out.len() as int).take(self.delivered().len() as int));
        assert(self.delivered() =~= h.take(self.delivered().len() as int));
        if let Some((all, end)) = self.stream() {
            assert(out.is_prefix_of(all)) by {
                if self.state is Compressed {
                    if let Some((n, d)) = self.pending_copy {
                        assert(self.after_copy().take(out.len() as int) == out);
                        assert(all.take(out.len() as int) =~= out);
                    }
                }
            }
            assert(self.delivered() =~= all.take(self.delivered().len() as int));
        }
        if self.finished() {
            assert(self.delivered() =~= out);
        }
    }

    /// A reader of a Deflate stream.
    pub fn new(input: Vec<u8>) -> (r: Self)
        ensures
            r.wf(),
            r.input() == input@,
            r.format() == Variant::Deflate,
            r.delivered() == Seq::<u8>::empty(),
            r.position() == 0,
    {
        Self::with_variant(input, Variant::Deflate)
    }

    /// A reader of a Deflate64 stream.
    pub fn deflate64(input: Vec<u8>) -> (r: Self)
        ensures
            r.wf(),
            r.input() == input@,
            r.format() == Variant::Deflate64,
            r.delivered() == Seq::<u8>::empty(),
            r.position() == 0,
    {
        Self::with_variant(input, Variant::Deflate64)
    }

    /// A reader of a stream in the given format.
    pub fn with_variant(input: Vec<u8>, variant: Variant) -> (r: Self)
        ensures
            r.wf(),
            r.input() == input@,
            r.format() == variant,
            r.delivered() == Seq::<u8>::empty(),
            r.position() == 0,
    {
        let r: InflateReader = InflateReader {
            source: BitSource::new(input),
            variant,
            output: History::new(variant.window()),
            state: State::BlockHeader,
            final_block: false,
            literal: None,
            distance: None,
            pending_copy: None,
        };
        assert(r.output.delivered() =~= Seq::<u8>::empty());
        r
    }

    /// The input back.
    pub fn into_inner(self) -> (r: Vec<u8>)
        ensures
            r@ == self.input(),
    {
        self.source.into_data()
    }

    /// The input back, along with the bytes past the ones the stream has used.
    ///
    /// A caller that has more to parse after the deflate data — a gzip trailer,
    /// then perhaps another member — goes on from those bytes. The partial byte
    /// the stream stopped inside is dropped, since deflate data is followed by
    /// padding to the next byte boundary.
    pub fn into_parts(self) -> (r: (Vec<u8>, Vec<u8>))
        requires
            self.wf(),
        ensures
            r.0@ == self.input(),
            r.1@ == self.input().skip(
                if bits::align8(self.position()) / 8 < self.input().len() {
                    bits::align8(self.position()) / 8
                } else {
                    self.input().len() as int
                },
            ),
    {
        let used: usize = self.consumed();
        let data: Vec<u8> = self.source.into_data();
        let mut rest: Vec<u8> = Vec::with_capacity(data.len() - used);
        rest.extend_from_slice(&data.as_slice()[used..data.len()]);
        assert(rest@ =~= data@.skip(used as int));
        (data, rest)
    }

    /// Whether the end of the stream was reached and everything was read.
    pub fn is_finished(&self) -> (r: bool)
        requires
            self.wf(),
        ensures
            r == self.finished(),
    {
        match self.state {
            State::Done => self.output.is_drained(),
            _ => false,
        }
    }

    /// Bytes of the compressed input the deflate stream actually used.
    ///
    /// A gzip or zlib wrapper needs this to find its trailer.
    pub fn consumed(&self) -> (r: usize)
        requires
            self.wf(),
        ensures
            r == if bits::align8(self.position()) / 8 < self.input().len() {
                bits::align8(self.position()) / 8
            } else {
                self.input().len() as int
            },
    {
        self.source.consumed()
    }

    #[verifier::spinoff_prover]
    #[verifier::rlimit(60)]
    fn read_block_header(&mut self) -> (r: Result<()>)
        requires
            old(self).wf(),
            old(self).state is BlockHeader,
        ensures
            r is Ok ==> final(self).wf() && final(self).input() == old(self).input()
                && final(self).variant == old(self).variant && final(self).output
                == old(self).output && final(self).pending_copy is None,
            r is Ok ==> if old(self).final_block {
                final(self).state is Done && final(self).position() == old(self).position()
            } else {
                final(self).position() > old(self).position()
            },
            r matches Err(e) ==> e == Error::Malformed && old(self).stream() is None,
    {
        if self.final_block {
            self.state = State::Done;
            return Ok(());
        }
        let ghost data = self.source.data();
        let ghost p = self.source.pos();
        let ghost v = self.variant;
        proof {
            self.source.lemma_pos();
            lemma2_to64();
            bits::lemma_peek_bound(data, p, 1);
            bits::lemma_peek_bound(data, p + 1, 2);
        }
        let last: u32 = match self.source.bits(1) {
            Ok(x) => x,
            Err(e) => {
                return Err(e);
            },
        };
        let kind: u32 = match self.source.bits(2) {
            Ok(x) => x,
            Err(e) => {
                return Err(e);
            },
        };
        self.final_block = last == 1;
        if kind == 0 {
            self.source.align_to_byte();
            let ghost q = self.source.pos();
            proof {
                bits::lemma_peek_bound(data, q, 16);
                bits::lemma_peek_bound(data, q + 16, 16);
            }
            let len: u32 = match self.source.bits(16) {
                Ok(x) => x,
                Err(e) => {
                    return Err(e);
                },
            };
            let nlen: u32 = match self.source.bits(16) {
                Ok(x) => x,
                Err(e) => {
                    return Err(e);
                },
            };
            if len + nlen != 0xffff {
                return Err(Error::Malformed);
            }
            self.state = State::Stored(len);
            Ok(())
        } else if kind == 1 {
            let lit: [u8; 288] = fixed_literal_lengths();
            let dist: [u8; 32] = fixed_distance_lengths();
            match Decoder::new(lit.as_slice()) {
                Ok(d) => {
                    self.literal = Some(d);
                },
                Err(e) => {
                    return Err(e);
                },
            }
            match Decoder::new(dist.as_slice()) {
                Ok(d) => {
                    self.distance = Some(d);
                },
                Err(e) => {
                    return Err(e);
                },
            }
            self.state = State::Compressed;
            Ok(())
        } else if kind == 2 {
            match self.read_dynamic_tables() {
                Ok(_) => {},
                Err(e) => {
                    return Err(e);
                },
            }
            proof {
                lemma_dynamic_tables_end(v, data, p + 3);
            }
            self.state = State::Compressed;
            Ok(())
        } else {
            Err(Error::Malformed)
        }
    }

    fn read_dynamic_tables(&mut self) -> (r: Result<()>)
        requires
            old(self).source.wf(),
        ensures
            final(self).source.wf(),
            final(self).source.data() == old(self).source.data(),
            final(self).variant == old(self).variant,
            final(self).output == old(self).output,
            final(self).state == old(self).state,
            final(self).final_block == old(self).final_block,
            final(self).pending_copy == old(self).pending_copy,
            match dynamic_tables(old(self).variant, old(self).source.data(), old(self).source.pos()) {
                Some((lit, dist, q)) => r is Ok && final(self).source.pos() == q
                    && final(self).literal is Some && final(self).literal->0.wf()
                    && final(self).literal->0@ == lit && final(self).distance is Some
                    && final(self).distance->0.wf() && final(self).distance->0@ == dist,
                None => r == Err::<(), Error>(Error::Malformed),
            },
    {
        let ghost data = self.source.data();
        let ghost p = self.source.pos();
        proof {
            lemma2_to64();
            bits::lemma_peek_bound(data, p, 5);
            bits::lemma_peek_bound(data, p + 5, 5);
            bits::lemma_peek_bound(data, p + 10, 4);
        }
        let hlit: usize = match self.source.bits(5) {
            Ok(x) => x as usize + 257,
            Err(e) => {
                return Err(e);
            },
        };
        let hdist: usize = match self.source.bits(5) {
            Ok(x) => x as usize + 1,
            Err(e) => {
                return Err(e);
            },
        };
        let hclen: usize = match self.source.bits(4) {
            Ok(x) => x as usize + 4,
            Err(e) => {
                return Err(e);
            },
        };
        if hlit > 286 || hdist > self.variant.distance_codes() {
            return Err(Error::Malformed);
        }
        let code_decoder: Decoder = match Self::read_code_length_code(&mut self.source, hclen) {
            Ok(d) => d,
            Err(e) => {
                return Err(e);
            },
        };
        let total: usize = hlit + hdist;
        let lengths: Vec<u8> = match Self::read_code_lengths(
            &mut self.source,
            &code_decoder,
            total,
        ) {
            Ok(l) => l,
            Err(e) => {
                return Err(e);
            },
        };
        proof {
            lemma_code_lengths_end(
                data,
                p + 14 + 3 * hclen,
                code_decoder@,
                Seq::empty(),
                total as nat,
            );
        }
        if lengths[256] == 0 {
            return Err(Error::Malformed);
        }
        assert(lengths@.subrange(0, hlit as int) =~= lengths@.take(hlit as int));
        assert(lengths@.subrange(hlit as int, total as int) =~= lengths@.skip(hlit as int));
        match Decoder::new(&lengths.as_slice()[0..hlit]) {
            Ok(d) => {
                self.literal = Some(d);
            },
            Err(e) => {
                return Err(e);
            },
        }
        match Decoder::new(&lengths.as_slice()[hlit..total]) {
            Ok(d) => {
                self.distance = Some(d);
            },
            Err(e) => {
                return Err(e);
            },
        }
        Ok(())
    }

    /// The code that code lengths are written with.
    fn read_code_length_code(source: &mut BitSource, hclen: usize) -> (r: Result<Decoder>)
        requires
            old(source).wf(),
            hclen <= 19,
        ensures
            final(source).wf(),
            final(source).data() == old(source).data(),
            ({
                let p = old(source).pos();
                let cl = order_lengths(old(source).data(), p, hclen as nat);
                if p + 3 * hclen <= limit(old(source).data()) && huffman::valid(cl) {
                    r matches Ok(d) && d.wf() && d@ == cl && final(source).pos() == p + 3 * hclen
                } else {
                    r matches Err(e) && e == Error::Malformed
                }
            }),
    {
        let ghost data = source.data();
        let ghost p = source.pos();
        let mut code_lengths: [u8; 19] = [0u8; 19];
        assert(code_lengths@ =~= order_lengths(data, p, 0));
        let mut k: usize = 0;
        proof {
            source.lemma_pos();
        }
        while k < hclen
            invariant
                k <= hclen <= 19,
                source.wf(),
                source.data() == data,
                data == old(source).data(),
                p == old(source).pos(),
                source.pos() == p + 3 * k,
                p + 3 * k <= limit(data),
                code_lengths@ == order_lengths(data, p, k as nat),
            decreases hclen - k,
        {
            proof {
                lemma2_to64();
                bits::lemma_peek_bound(data, p + 3 * k, 3);
            }
            match source.bits(3) {
                Ok(x) => {
                    let slot: usize = CODE_LENGTH_ORDER[k];
                    code_lengths[slot] = x as u8;
                },
                Err(e) => {
                    return Err(e);
                },
            }
            k = k + 1;
            assert(code_lengths@ =~= order_lengths(data, p, k as nat));
        }
        Decoder::new(code_lengths.as_slice())
    }

    /// Code lengths written with another code.
    fn read_code_lengths(source: &mut BitSource, decoder: &Decoder, total: usize) -> (r: Result<
        Vec<u8>,
    >)
        requires
            old(source).wf(),
            decoder.wf(),
            total <= 1000,
        ensures
            final(source).wf(),
            final(source).data() == old(source).data(),
            match code_lengths(
                old(source).data(),
                old(source).pos(),
                decoder@,
                Seq::empty(),
                total as nat,
            ) {
                Some((all, q)) => r matches Ok(v) && v@ == all && final(source).pos() == q,
                None => r matches Err(e) && e == Error::Malformed,
            },
    {
        let ghost data = source.data();
        let ghost target = code_lengths(data, source.pos(), decoder@, Seq::empty(), total as nat);
        let mut lengths: Vec<u8> = Vec::with_capacity(total);
        proof {
            source.lemma_pos();
        }
        while lengths.len() < total
            invariant
                lengths@.len() <= total <= 1000,
                source.wf(),
                source.data() == data,
                data == old(source).data(),
                decoder.wf(),
                target == code_lengths(data, source.pos(), decoder@, lengths@, total as nat),
                target == code_lengths(
                    old(source).data(),
                    old(source).pos(),
                    decoder@,
                    Seq::empty(),
                    total as nat,
                ),
                0 <= source.pos() <= limit(data),
            decreases limit(data) - source.pos(),
        {
            proof {
                lemma_symbol_advances(data, source.pos(), decoder@);
            }
            let sym: u16 = match source.decode_symbol(decoder) {
                Ok(s) => s,
                Err(e) => {
                    return Err(e);
                },
            };
            if sym <= 15 {
                lengths.push(sym as u8);
            } else if sym <= 18 {
                let width: u32 = if sym == 16 {
                    2
                } else if sym == 17 {
                    3
                } else {
                    7
                };
                let base: usize = if sym == 18 {
                    11
                } else {
                    3
                };
                proof {
                    lemma2_to64();
                    bits::lemma_peek_bound(data, source.pos(), width as nat);
                    if width < 7 {
                        lemma_pow2_strictly_increases(width as nat, 7);
                    }
                }
                let count: usize = match source.bits(width) {
                    Ok(n) => base + n as usize,
                    Err(e) => {
                        return Err(e);
                    },
                };
                let mut value: u8 = 0;
                if sym == 16 {
                    if lengths.len() == 0 {
                        return Err(Error::Malformed);
                    }
                    value = lengths[lengths.len() - 1];
                }
                if lengths.len() + count > total {
                    return Err(Error::Malformed);
                }
                let ghost before = lengths@;
                let mut i: usize = 0;
                assert(lengths@ =~= repeated(before, value, 0));
                while i < count
                    invariant
                        i <= count,
                        lengths@ == repeated(before, value, i as nat),
                    decreases count - i,
                {
                    lengths.push(value);
                    i = i + 1;
                    assert(lengths@ =~= repeated(before, value, i as nat));
                }
            } else {
                return Err(Error::Malformed);
            }
        }
        Ok(lengths)
    }

    #[verifier::rlimit(60)]
    #[verifier::spinoff_prover]
    fn read_stored(&mut self, remaining: u32) -> (r: Result<()>)
        requires
            old(self).wf(),
            old(self).state == State::Stored(remaining),
            old(self).output.unread() == 0,
            old(self).output.room() > 0,
        ensures
            r is Ok ==> final(self).wf() && final(self).input() == old(self).input()
                && final(self).variant == old(self).variant && final(self).pending_copy is None,
            r is Ok ==> final(self).position() >= old(self).position() && final(
            self).output.delivered() == old(self).output.delivered(),
            r is Ok ==> 8 * final(self).output.unread() == final(self).position() - old(self).position(),
            r is Ok && final(self).output.unread() == 0 ==> final(self).state is BlockHeader,
            r matches Err(e) ==> e == Error::Malformed && old(self).stream() is None,
    {
        let space: usize = self.output.space();
        let want: usize = if (remaining as usize) < space {
            remaining as usize
        } else {
            space
        };
        let ghost data = self.source.data();
        let ghost p = self.source.pos();
        let ghost out = self.output.all();
        let mut chunk: Vec<u8> = Vec::new();
        proof {
            self.source.lemma_pos();
        }
        let got: usize = self.source.bytes(want, &mut chunk);
        if got < want {
            return Err(Error::Malformed);
        }
        self.output.append(&chunk);
        let left: u32 = remaining - got as u32;
        self.state = if left == 0 {
            State::BlockHeader
        } else {
            State::Stored(left)
        };
        proof {
            if got > 0 {
                assert(chunk@ =~= data.subrange(p / 8, p / 8 + got));
                lemma_stored_split(
                    self.variant,
                    data,
                    p,
                    out,
                    remaining as nat,
                    got as nat,
                    self.final_block,
                );
            } else {
                assert(out + chunk@ =~= out);
            }
            assert(self.output.delivered() =~= old(self).output.delivered());
        }
        Ok(())
    }

    /// Make as much of a copy as there is room for.
    fn copy_match(&mut self, length: usize, distance: usize) -> (r: Result<usize>)
        requires
            old(self).output.wf(),
            old(self).output.window() == window_of(old(self).variant),
            1 <= distance <= window_of(old(self).variant),
        ensures
            final(self).source == old(self).source,
            final(self).variant == old(self).variant,
            final(self).state == old(self).state,
            final(self).final_block == old(self).final_block,
            final(self).pending_copy == old(self).pending_copy,
            r is Ok <==> distance <= old(self).output.all().len(),
            r matches Err(e) ==> e == Error::Malformed,
            r matches Ok(left) ==> {
                let n = if length <= old(self).output.room() {
                    length as int
                } else {
                    old(self).output.room()
                };
                &&& left == length - n
                &&& final(self).output.wf()
                &&& final(self).output.window() == old(self).output.window()
                &&& final(self).output.all() == lz::copied(
                    old(self).output.all(),
                    distance as int,
                    n as nat,
                )
                &&& final(self).output.unread() == old(self).output.unread() + n
                &&& final(self).output.room() == old(self).output.room() - n
                &&& lz::copied(final(self).output.all(), distance as int, left as nat)
                    == lz::copied(old(self).output.all(), distance as int, length as nat)
                &&& final(self).output.delivered() == old(self).output.delivered()
            },
    {
        if !self.output.reaches(distance) {
            return Err(Error::Malformed);
        }
        let space: usize = self.output.space();
        let n: usize = if length < space {
            length
        } else {
            space
        };
        let ghost out = self.output.all();
        self.output.copy(distance, n);
        proof {
            lz::lemma_copied_split(out, distance as int, n as nat, (length - n) as nat);
            lz::lemma_copied_prefix(out, distance as int, n as nat);
            old(self).output.lemma_unread();
            let u = old(self).output.unread();
            assert(self.output.all().take(out.len() - u) =~= self.output.all().take(
                out.len() as int,
            ).take(out.len() - u));
        }
        Ok(length - n)
    }

    fn read_compressed(&mut self) -> (r: Result<()>)
        requires
            old(self).wf(),
            old(self).state is Compressed,
            old(self).output.unread() == 0,
            old(self).output.room() > 0,
        ensures
            r is Ok ==> final(self).wf() && final(self).input() == old(self).input()
                && final(self).variant == old(self).variant && final(self).output.delivered()
                == old(self).output.delivered(),
            r is Ok ==> final(self).position() >= old(self).position() && final(self).budget()
                <= old(self).budget(),
            r is Ok && final(self).output.unread() == 0 ==> final(self).position()
                > old(self).position(),
            r matches Err(e) ==> e == Error::Malformed && old(self).stream() is None,
    {
        let literal: Decoder = match self.literal.take() {
            Some(d) => d,
            None => {
                return Err(Error::Malformed);
            },
        };
        let distance: Decoder = match self.distance.take() {
            Some(d) => d,
            None => {
                return Err(Error::Malformed);
            },
        };
        let result: Result<()> = self.decode_block(&literal, &distance);
        self.literal = Some(literal);
        self.distance = Some(distance);
        result
    }

    fn decode_block(&mut self, literal: &Decoder, distance: &Decoder) -> (r: Result<()>)
        requires
            old(self).parts_wf(),
            old(self).state is Compressed,
            literal.wf(),
            distance.wf(),
            old(self).output.unread() == 0,
            old(self).output.room() > 0,
        ensures
            r is Ok ==> {
                let target = old(self).outcome_in(literal@, distance@);
                &&& final(self).parts_wf()
                &&& final(self).source.data() == old(self).source.data()
                &&& final(self).variant == old(self).variant
                &&& match final(self).state {
                    State::Compressed => final(self).outcome_in(literal@, distance@) == target
                        && final(self).held_in(literal@, distance@) == old(self).held_in(
                        literal@,
                        distance@,
                    ),
                    State::BlockHeader => final(self).outcome() == target && final(
                        self).pending_copy is None && final(self).held_here() == old(self).held_in(
                        literal@,
                        distance@,
                    ),
                    _ => false,
                }
                &&& final(self).output.delivered() == old(self).output.delivered()
                &&& final(self).source.pos() >= old(self).source.pos()
                &&& final(self).budget() <= old(self).budget()
                &&& final(self).output.unread() == 0 ==> final(self).source.pos() > old(
                    self).source.pos()
            },
            r matches Err(e) ==> e == Error::Malformed
                && old(self).outcome_in(literal@, distance@) is None,
    {
        let ghost target = self.outcome_in(literal@, distance@);
        let ghost data = self.source.data();
        let ghost v = self.variant;
        proof {
            self.source.lemma_pos();
        }
        if let Some((len, dist)) = self.pending_copy.take() {
            let left: usize = match self.copy_match(len, dist) {
                Ok(n) => n,
                Err(e) => {
                    return Err(e);
                },
            };
            if left > 0 {
                proof {
                    lz::lemma_copied_len(old(self).output.all(), dist as int, (len - left) as nat);
                }
                self.pending_copy = Some((left, dist));
                return Ok(());
            }
        }
        while self.output.space() > 0
            invariant
                self.parts_wf(),
                self.state is Compressed,
                self.pending_copy is None,
                literal.wf(),
                distance.wf(),
                self.source.data() == data,
                data == old(self).source.data(),
                self.variant == v,
                v == old(self).variant,
                self.outcome_in(literal@, distance@) == target,
                target == old(self).outcome_in(literal@, distance@),
                self.held_in(literal@, distance@) == old(self).held_in(literal@, distance@),
                self.output.delivered() == old(self).output.delivered(),
                self.source.pos() >= old(self).source.pos(),
                self.budget() <= old(self).budget(),
                self.output.unread() == 0 ==> self.source.pos() > old(self).source.pos()
                    || self.output.room() > 0,
            decreases limit(data) - self.source.pos(),
        {
            let ghost p = self.source.pos();
            let ghost out = self.output.all();
            proof {
                lemma_symbol_advances(data, p, literal@);
                self.source.lemma_pos();
                self.output.lemma_unread();
            }
            let sym: u16 = match self.source.decode_symbol(literal) {
                Ok(s) => s,
                Err(e) => {
                    return Err(e);
                },
            };
            if sym < 256 {
                self.output.push(sym as u8);
                proof {
                    assert(self.output.delivered() =~= old(self).output.delivered());
                }
            } else if sym == 256 {
                self.state = State::BlockHeader;
                return Ok(());
            } else if sym <= 285 {
                let (length, dist): (usize, usize) = match Self::read_copy(
                    &mut self.source,
                    self.variant,
                    (sym - 257) as usize,
                    distance,
                ) {
                    Ok(x) => x,
                    Err(e) => {
                        return Err(e);
                    },
                };
                let left: usize = match self.copy_match(length, dist) {
                    Ok(n) => n,
                    Err(e) => {
                        return Err(e);
                    },
                };
                proof {
                    lz::lemma_copied_len(out, dist as int, (length - left) as nat);
                }
                if left > 0 {
                    self.pending_copy = Some((left, dist));
                    return Ok(());
                }
            } else {
                return Err(Error::Malformed);
            }
        }
        Ok(())
    }

    /// The rest of a copy, after its length symbol.
    fn read_copy(source: &mut BitSource, variant: Variant, i: usize, distance: &Decoder) -> (r:
        Result<(usize, usize)>)
        requires
            old(source).wf(),
            distance.wf(),
            i < 29,
        ensures
            final(source).wf(),
            final(source).data() == old(source).data(),
            match copy_at(variant, old(source).data(), old(source).pos(), i as int, distance@) {
                Some((n, d, q)) => r == Ok::<(usize, usize), Error>((n as usize, d as usize))
                    && final(source).pos() == q && 3 <= n <= 65_538 && 1 <= d <= window_of(variant)
                    && q > old(source).pos(),
                None => r == Err::<(usize, usize), Error>(Error::Malformed),
            },
    {
        let ghost data = source.data();
        let ghost p = source.pos();
        let (base, extra): (usize, u32) = match variant {
            Variant::Deflate => (LENGTH_BASE[i] as usize, LENGTH_EXTRA[i] as u32),
            Variant::Deflate64 => (LENGTH_BASE64[i] as usize, LENGTH_EXTRA64[i] as u32),
        };
        assert(3 <= base <= 258 && extra <= 16 && (extra == 16 ==> base == 3));
        proof {
            lemma2_to64();
            bits::lemma_peek_bound(data, p, extra as nat);
            if extra < 16 {
                assert(extra <= 5);
                lemma_pow2_strictly_increases(extra as nat, 6);
            }
        }
        let length: usize = match source.bits(extra) {
            Ok(x) => base + x as usize,
            Err(e) => {
                return Err(e);
            },
        };
        proof {
            lemma_symbol_advances(data, source.pos(), distance@);
        }
        let dsym: usize = match source.decode_symbol(distance) {
            Ok(s) => s as usize,
            Err(e) => {
                return Err(e);
            },
        };
        if dsym >= variant.distance_codes() {
            return Err(Error::Malformed);
        }
        let (base, extra): (usize, u32) = match variant {
            Variant::Deflate => (DIST_BASE[dsym] as usize, DIST_EXTRA[dsym] as u32),
            Variant::Deflate64 => (DIST_BASE64[dsym] as usize, DIST_EXTRA64[dsym] as u32),
        };
        proof {
            bits::lemma_peek_bound(data, source.pos(), extra as nat);
            lemma_distance_rows(variant, dsym as int);
        }
        let dist: usize = match source.bits(extra) {
            Ok(x) => base + x as usize,
            Err(e) => {
                return Err(e);
            },
        };
        Ok((length, dist))
    }

    fn produce(&mut self) -> (r: Result<()>)
        requires
            old(self).wf(),
            old(self).output.unread() == 0,
        ensures
            r is Ok ==> final(self).wf() && final(self).input() == old(self).input()
                && final(self).variant == old(self).variant && final(self).output.delivered()
                == old(self).output.delivered() && final(self).budget() <= old(self).budget()
                && (final(self).output.unread() == 0 ==> final(self).state is Done),
            r matches Err(e) ==> e == Error::Malformed && old(self).stream() is None,
    {
        while self.output.is_drained() && self.state != State::Done
            invariant
                self.wf(),
                self.input() == old(self).input(),
                self.variant == old(self).variant,
                self.output.delivered() == old(self).output.delivered(),
                self.budget() <= old(self).budget(),
            decreases
                    limit(self.input()) - self.position(),
                    match self.state {
                        State::Done => 0int,
                        State::BlockHeader => 1,
                        State::Stored(_) => 2,
                        State::Compressed => 2,
                    },
                    match self.pending_copy {
                        Some((n, d)) => n as int,
                        None => 0int,
                    },
        {
            let ghost before = *self;
            self.output.compact();
            assert(self.output.delivered() == before.output.delivered());
            assert(self.wf());
            let result: Result<()> = match self.state {
                State::BlockHeader => self.read_block_header(),
                State::Stored(remaining) => self.read_stored(remaining),
                State::Compressed => self.read_compressed(),
                State::Done => Ok(()),
            };
            if let Err(e) = result {
                return Err(e);
            }
            proof {
                self.source.lemma_pos();
                before.source.lemma_pos();
            }
        }
        Ok(())
    }

    /// Read the next bytes of the output into `buf`. Nothing is read only at
    /// the end of the stream.
    pub fn read(&mut self, buf: &mut [u8]) -> (r: Result<usize>)
        requires
            old(self).wf(),
        ensures
            final(buf)@.len() == old(buf)@.len(),
            r matches Ok(n) ==> {
                &&& final(self).wf()
                &&& final(self).input() == old(self).input()
                &&& final(self).format() == old(self).format()
                &&& n <= old(buf)@.len()
                &&& final(self).delivered() == old(self).delivered() + final(buf)@.take(n as int)
                &&& final(buf)@.skip(n as int) == old(buf)@.skip(n as int)
                &&& n == 0 && old(buf)@.len() > 0 ==> final(self).finished()
                &&& n > 0 ==> final(self).budget() < old(self).budget()
            },
            r matches Err(e) ==> e == Error::Malformed && old(self).stream() is None && old(
                self,
            ).delivered().is_prefix_of(old(self).held()),
    {
        if buf.len() == 0 {
            assert(buf@.take(0) =~= Seq::<u8>::empty());
            return Ok(0);
        }
        proof {
            self.lemma_delivered();
        }
        if self.output.is_drained() {
            if let Err(e) = self.produce() {
                return Err(e);
            }
        }
        let n: usize = self.output.read_into(buf);
        proof {
            self.source.lemma_pos();
        }
        Ok(n)
    }
}

proof fn lemma_distance_rows(v: Variant, i: int)
    requires
        0 <= i < distance_codes_of(v),
    ensures
        ({
            let (base, extra) = distance_row(v, i);
            1 <= base && extra <= 14 && base + pow2(extra) - 1 <= window_of(v)
        }),
{
    lemma2_to64();
}

/// The whole of a Deflate stream, decoded.
pub fn decompress(data: &[u8], size_hint: usize) -> (r: Result<Vec<u8>>)
    ensures
        match inflated(Variant::Deflate, data@) {
            Some((all, end)) => r matches Ok(out) && out@ == all,
            None => r matches Err(e) && e == Error::Malformed,
        },
{
    decompress_variant(data, size_hint, Variant::Deflate)
}

/// The whole of a stream in the given format, decoded.
pub fn decompress_variant(data: &[u8], size_hint: usize, variant: Variant) -> (r: Result<Vec<u8>>)
    ensures
        match inflated(variant, data@) {
            Some((all, end)) => r matches Ok(out) && out@ == all,
            None => r matches Err(e) && e == Error::Malformed,
        },
{
    let mut out: Vec<u8> = Vec::with_capacity(size_hint);
    let mut input: Vec<u8> = Vec::with_capacity(data.len());
    input.extend_from_slice(data);
    assert(input@ =~= data@);
    let mut reader: InflateReader = InflateReader::with_variant(input, variant);
    let mut chunk: Vec<u8> = vec![0u8; 4096];
    loop
        invariant
            reader.wf(),
            reader.input() == data@,
            reader.format() == variant,
            out@ == reader.delivered(),
            chunk@.len() == 4096,
        decreases reader.budget(),
    {
        match reader.read(chunk.as_mut_slice()) {
            Err(e) => {
                return Err(e);
            },
            Ok(n) => {
                if n == 0 {
                    proof {
                        reader.lemma_delivered();
                        assert(out@ + chunk@.take(0) =~= out@);
                    }
                    return Ok(out);
                }
                out.extend_from_slice(&chunk.as_slice()[0..n]);
                assert(out@ =~= reader.delivered());
            },
        }
    }
}

} // verus!
