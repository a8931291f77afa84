//! Streams written by the rules of the formats.
//!
//! A length or a distance is halved until few bits are left: those and how
//! often it was halved give the symbol, and what was lost follows in as many
//! bits.
use crate::codecs::deflate::compress;
use crate::codecs::deflate::header;
use crate::codecs::deflate::header::Item;
use crate::codecs::deflate::huffman;
use crate::codecs::deflate::inflate;
use crate::codecs::deflate::inflate::Variant;
use crate::codecs::deflate::tokens;
use crate::utils::bits;
use crate::utils::lz;
use vstd::arithmetic::power2::*;
use vstd::prelude::*;

verus! {

/// A byte, or bytes that came before.
pub enum Part {
    Literal(u8),
    Copy { len: int, dist: int },
}

/// How often a number is halved until it is less than twice `steps`.
pub open spec fn halvings(k: int, steps: int) -> nat
    decreases k,
{
    if k < 2 * steps || steps < 1 {
        0
    } else {
        1 + halvings(k / 2, steps)
    }
}

/// The longest copy: Deflate64 has one symbol for all lengths of sixteen bits.
pub open spec fn longest(v: Variant) -> int {
    match v {
        Variant::Deflate => 258,
        Variant::Deflate64 => 65538,
    }
}

/// How far back a copy can start.
pub open spec fn farthest(v: Variant) -> int {
    match v {
        Variant::Deflate => 32768,
        Variant::Deflate64 => 65536,
    }
}

/// Symbol, number of bits after it, and their value, of a length.
#[verifier::opaque]
pub open spec fn length_parts(v: Variant, len: int) -> (int, nat, nat) {
    if len >= 258 {
        match v {
            Variant::Deflate => (285, 0, 0),
            Variant::Deflate64 => (285, 16, (len - 3) as nat),
        }
    } else {
        let k = len - 3;
        let e = halvings(k, 4);
        (257 + 4 * e + k / (pow2(e) as int), e, (k % (pow2(e) as int)) as nat)
    }
}

/// The same of a distance.
#[verifier::opaque]
pub open spec fn distance_parts(dist: int) -> (int, nat, nat) {
    let k = dist - 1;
    let e = halvings(k, 2);
    (2 * e + k / (pow2(e) as int), e, (k % (pow2(e) as int)) as nat)
}

/// The bits of a part.
pub open spec fn part_bits(v: Variant, t: Part, lit: Seq<u8>, dist: Seq<u8>) -> Seq<bool> {
    match t {
        Part::Literal(b) => tokens::symbol_bits(lit, b as int),
        Part::Copy { len, dist: d } => {
            let (s, m, x) = length_parts(v, len);
            let (k, n, y) = distance_parts(d);
            tokens::symbol_bits(lit, s) + bits::bits_of(x, m) + tokens::symbol_bits(dist, k)
                + bits::bits_of(y, n)
        },
    }
}

/// The bits of parts, and of the end of a block.
pub open spec fn parts_bits(v: Variant, ts: Seq<Part>, lit: Seq<u8>, dist: Seq<u8>) -> Seq<bool>
    decreases ts.len(),
{
    if ts.len() == 0 {
        tokens::symbol_bits(lit, 256)
    } else {
        part_bits(v, ts[0], lit, dist) + parts_bits(v, ts.skip(1), lit, dist)
    }
}

/// What a part adds.
pub open spec fn added(out: Seq<u8>, t: Part) -> Seq<u8> {
    match t {
        Part::Literal(b) => out.push(b),
        Part::Copy { len, dist } => lz::copied(out, dist, len as nat),
    }
}

/// What parts add.
pub open spec fn all_added(out: Seq<u8>, ts: Seq<Part>) -> Seq<u8>
    decreases ts.len(),
{
    if ts.len() == 0 {
        out
    } else {
        all_added(added(out, ts[0]), ts.skip(1))
    }
}

/// Whether a part can stand after `before` bytes, and its symbols have words.
pub open spec fn part_ok(v: Variant, t: Part, before: nat, lit: Seq<u8>, dist: Seq<u8>) -> bool {
    match t {
        Part::Literal(b) => lit[b as int] > 0,
        Part::Copy { len, dist: d } => {
            &&& 3 <= len <= longest(v)
            &&& 1 <= d <= farthest(v)
            &&& d <= before
            &&& length_parts(v, len).0 < lit.len()
            &&& lit[length_parts(v, len).0] > 0
            &&& distance_parts(d).0 < dist.len()
            &&& dist[distance_parts(d).0] > 0
        },
    }
}

/// Whether parts can stand after one another.
pub open spec fn parts_ok(
    v: Variant,
    ts: Seq<Part>,
    out: Seq<u8>,
    lit: Seq<u8>,
    dist: Seq<u8>,
) -> bool
    decreases ts.len(),
{
    ts.len() > 0 ==> part_ok(v, ts[0], out.len(), lit, dist) && parts_ok(
        v,
        ts.skip(1),
        added(out, ts[0]),
        lit,
        dist,
    )
}

/// A block.
pub enum Lump {
    /// Bytes as they are.
    Stored(Seq<u8>),
    /// Parts in the codes of the format.
    Fixed(Seq<Part>),
    /// Parts in codes of their own.
    Own(Head, Seq<Part>),
}

/// Codes of a block: the lengths of the two codes, those of the code that they
/// are written with, how many of these are written, and the items written.
pub struct Head {
    pub lit: Seq<u8>,
    pub dist: Seq<u8>,
    pub cl: Seq<u8>,
    pub written: nat,
    pub items: Seq<Item>,
}

/// A code that can be written and is taken by a reader.
pub open spec fn complete(lens: Seq<u8>) -> bool {
    tokens::usable(lens) && huffman::valid(lens)
}

/// How many distance symbols there are.
pub open spec fn distances(v: Variant) -> nat {
    match v {
        Variant::Deflate => 30,
        Variant::Deflate64 => 32,
    }
}

/// Whether a head is in order.
pub open spec fn head_ok(v: Variant, h: Head) -> bool {
    &&& 257 <= h.lit.len() <= 286
    &&& 1 <= h.dist.len() <= distances(v)
    &&& 4 <= h.written <= 19
    &&& h.cl.len() == 19
    &&& complete(h.lit)
    &&& complete(h.dist)
    &&& complete(h.cl)
    &&& h.lit[256] > 0
    &&& forall|i: int| 0 <= i < 19 ==> #[trigger] h.cl[i] < 8
    &&& forall|i: int| 0 <= i < 19 && header::order_place(i) >= h.written ==> #[trigger] h.cl[i] == 0
    &&& header::items_ok(h.items)
    &&& header::items_spelled(h.items) == h.lit + h.dist
    &&& forall|i: int| 0 <= i < h.items.len() ==> h.cl[(#[trigger] h.items[i]).0 as int] > 0
}

/// The bits of a head.
pub open spec fn head_bits(h: Head) -> Seq<bool> {
    bits::bits_of((h.lit.len() - 257) as nat, 5) + bits::bits_of((h.dist.len() - 1) as nat, 5)
        + bits::bits_of((h.written - 4) as nat, 4) + header::order_bits(h.cl, h.written)
        + header::items_bits(h.items, h.cl)
}

/// The literal and length code of the format: eight bits up to 143, nine up to
/// 255, seven up to 279, and eight again.
pub open spec fn fixed_lit() -> Seq<u8> {
    Seq::new(
        288,
        |i: int|
            if 144 <= i < 256 {
                9u8
            } else if 256 <= i < 280 {
                7u8
            } else {
                8u8
            },
    )
}

/// The distance code of the format.
pub open spec fn fixed_dist() -> Seq<u8> {
    Seq::new(32, |i: int| 5u8)
}

/// Whether a block can stand after `out`.
pub open spec fn lump_ok(v: Variant, l: Lump, out: Seq<u8>) -> bool {
    match l {
        Lump::Stored(b) => b.len() <= 0xffff,
        Lump::Fixed(ts) => parts_ok(v, ts, out, fixed_lit(), fixed_dist()),
        Lump::Own(h, ts) => head_ok(v, h) && parts_ok(v, ts, out, h.lit, h.dist),
    }
}

/// What a block adds.
pub open spec fn lump_added(out: Seq<u8>, l: Lump) -> Seq<u8> {
    match l {
        Lump::Stored(b) => out + b,
        Lump::Fixed(ts) => all_added(out, ts),
        Lump::Own(_, ts) => all_added(out, ts),
    }
}

/// The bits of a block at `p`: whether it is the last, its kind, and what it
/// holds. Stored bytes start at a whole byte.
pub open spec fn lump_bits(v: Variant, l: Lump, p: int, last: bool) -> Seq<bool> {
    let flag = seq![last];
    match l {
        Lump::Stored(b) => flag + seq![false, false] + Seq::new(
            ((5 - p % 8) % 8) as nat,
            |i: int| false,
        ) + bits::bits_of(b.len(), 16) + bits::bits_of((0xffff - b.len()) as nat, 16)
            + bits::all_bits(b),
        Lump::Fixed(ts) => flag + seq![true, false] + parts_bits(v, ts, fixed_lit(), fixed_dist()),
        Lump::Own(h, ts) => flag + seq![false, true] + head_bits(h) + parts_bits(
            v,
            ts,
            h.lit,
            h.dist,
        ),
    }
}

/// The bits of blocks from `p` on.
pub open spec fn lumps_bits(v: Variant, ls: Seq<Lump>, p: int) -> Seq<bool>
    decreases ls.len(),
{
    if ls.len() == 0 {
        Seq::empty()
    } else {
        let w = lump_bits(v, ls[0], p, ls.len() == 1);
        w + lumps_bits(v, ls.skip(1), p + w.len())
    }
}

/// What blocks add.
pub open spec fn lumps_added(out: Seq<u8>, ls: Seq<Lump>) -> Seq<u8>
    decreases ls.len(),
{
    if ls.len() == 0 {
        out
    } else {
        lumps_added(lump_added(out, ls[0]), ls.skip(1))
    }
}

/// Whether blocks can stand after one another.
pub open spec fn lumps_ok(v: Variant, ls: Seq<Lump>, out: Seq<u8>) -> bool
    decreases ls.len(),
{
    ls.len() > 0 ==> lump_ok(v, ls[0], out) && lumps_ok(v, ls.skip(1), lump_added(out, ls[0]))
}

/// A number halved `e` times.
proof fn lemma_halved(k: int, steps: int, e: nat)
    requires
        1 <= steps,
        e == 0 ==> 0 <= k < 2 * steps,
        e > 0 ==> steps * pow2(e) <= k < 2 * steps * pow2(e),
    ensures
        halvings(k, steps) == e,
        e > 0 ==> steps <= k / (pow2(e) as int),
        0 <= k / (pow2(e) as int) < 2 * steps,
        k == pow2(e) * (k / (pow2(e) as int)) + k % (pow2(e) as int),
        0 <= k % (pow2(e) as int) < pow2(e),
    decreases e,
{
    lemma_pow2_pos(e);
    let m = pow2(e) as int;
    vstd::arithmetic::div_mod::lemma_fundamental_div_mod(k, m);
    if e == 0 {
        lemma2_to64();
    } else {
        let f = (e - 1) as nat;
        lemma_pow2_unfold(e);
        let h = pow2(f) as int;
        lemma_pow2_pos(f);
        assert(steps * m == 2 * (steps * h)) by (nonlinear_arith)
            requires
                m == 2 * h,
        ;
        assert(2 * steps * m == 2 * (2 * steps * h)) by (nonlinear_arith)
            requires
                m == 2 * h,
        ;
        assert(steps * h <= k / 2 < 2 * steps * h);
        assert(steps * h >= steps) by (nonlinear_arith)
            requires
                h >= 1,
                steps >= 1,
        ;
        if f == 0 {
            lemma2_to64();
            assert(h == 1);
            assert(2 * steps * h == 2 * steps) by (nonlinear_arith)
                requires
                    h == 1,
            ;
            assert(k / 2 < 2 * steps);
        }
        lemma_halved(k / 2, steps, f);
        assert(k >= 2 * steps);
        vstd::arithmetic::div_mod::lemma_div_denominator(k, 2, h);
        assert(k / m == (k / 2) / h);
        if f == 0 {
            assert(k / 2 / 1 == k / 2);
        }
    }
}

/// What the tables say of a distance symbol.
#[verifier::spinoff_prover]
#[verifier::rlimit(60)]
proof fn lemma_distance_row(v: Variant, e: nat, h: int)
    requires
        e <= 14,
        e == 14 ==> v == Variant::Deflate64,
        e == 0 ==> 0 <= h < 4,
        e > 0 ==> 2 <= h < 4,
    ensures
        0 <= 2 * e + h < distances(v),
        inflate::distance_codes_of(v) == distances(v),
        inflate::distance_row(v, 2 * e + h) == ((1 + h * pow2(e)) as nat, e),
{
    lemma2_to64();
    if e == 0 && h == 0 {
        assert(inflate::distance_row(v, 0) == (1nat, 0nat));
    }
    if e == 0 && h == 1 {
        assert(inflate::distance_row(v, 1) == (2nat, 0nat));
    }
    if e == 0 && h == 2 {
        assert(inflate::distance_row(v, 2) == (3nat, 0nat));
    }
    if e == 0 && h == 3 {
        assert(inflate::distance_row(v, 3) == (4nat, 0nat));
    }
    if e == 1 && h == 2 {
        assert(inflate::distance_row(v, 4) == (5nat, 1nat));
    }
    if e == 1 && h == 3 {
        assert(inflate::distance_row(v, 5) == (7nat, 1nat));
    }
    if e == 2 && h == 2 {
        assert(inflate::distance_row(v, 6) == (9nat, 2nat));
    }
    if e == 2 && h == 3 {
        assert(inflate::distance_row(v, 7) == (13nat, 2nat));
    }
    if e == 3 && h == 2 {
        assert(inflate::distance_row(v, 8) == (17nat, 3nat));
    }
    if e == 3 && h == 3 {
        assert(inflate::distance_row(v, 9) == (25nat, 3nat));
    }
    if e == 4 && h == 2 {
        assert(inflate::distance_row(v, 10) == (33nat, 4nat));
    }
    if e == 4 && h == 3 {
        assert(inflate::distance_row(v, 11) == (49nat, 4nat));
    }
    if e == 5 && h == 2 {
        assert(inflate::distance_row(v, 12) == (65nat, 5nat));
    }
    if e == 5 && h == 3 {
        assert(inflate::distance_row(v, 13) == (97nat, 5nat));
    }
    if e == 6 && h == 2 {
        assert(inflate::distance_row(v, 14) == (129nat, 6nat));
    }
    if e == 6 && h == 3 {
        assert(inflate::distance_row(v, 15) == (193nat, 6nat));
    }
    if e == 7 && h == 2 {
        assert(inflate::distance_row(v, 16) == (257nat, 7nat));
    }
    if e == 7 && h == 3 {
        assert(inflate::distance_row(v, 17) == (385nat, 7nat));
    }
    if e == 8 && h == 2 {
        assert(inflate::distance_row(v, 18) == (513nat, 8nat));
    }
    if e == 8 && h == 3 {
        assert(inflate::distance_row(v, 19) == (769nat, 8nat));
    }
    if e == 9 && h == 2 {
        assert(inflate::distance_row(v, 20) == (1025nat, 9nat));
    }
    if e == 9 && h == 3 {
        assert(inflate::distance_row(v, 21) == (1537nat, 9nat));
    }
    if e == 10 && h == 2 {
        assert(inflate::distance_row(v, 22) == (2049nat, 10nat));
    }
    if e == 10 && h == 3 {
        assert(inflate::distance_row(v, 23) == (3073nat, 10nat));
    }
    if e == 11 && h == 2 {
        assert(inflate::distance_row(v, 24) == (4097nat, 11nat));
    }
    if e == 11 && h == 3 {
        assert(inflate::distance_row(v, 25) == (6145nat, 11nat));
    }
    if e == 12 && h == 2 {
        assert(inflate::distance_row(v, 26) == (8193nat, 12nat));
    }
    if e == 12 && h == 3 {
        assert(inflate::distance_row(v, 27) == (12289nat, 12nat));
    }
    if e == 13 && h == 2 {
        assert(inflate::distance_row(v, 28) == (16385nat, 13nat));
    }
    if e == 13 && h == 3 {
        assert(inflate::distance_row(v, 29) == (24577nat, 13nat));
    }
    if e == 14 && h == 2 {
        assert(inflate::distance_row(v, 30) == (32769nat, 14nat));
    }
    if e == 14 && h == 3 {
        assert(inflate::distance_row(v, 31) == (49153nat, 14nat));
    }
}

/// What the tables say of a length symbol.
#[verifier::spinoff_prover]
#[verifier::rlimit(60)]
proof fn lemma_length_row(v: Variant, e: nat, h: int)
    requires
        e <= 5,
        e == 0 ==> 0 <= h < 8,
        e > 0 ==> 4 <= h < 8,
        e == 5 ==> h < 8,
    ensures
        0 <= 4 * e + h < 28,
        inflate::length_row(v, 4 * e + h) == ((3 + h * pow2(e)) as nat, e),
{
    lemma2_to64();
    if e == 0 && h == 0 {
        assert(inflate::length_row(v, 0) == (3nat, 0nat));
    }
    if e == 0 && h == 1 {
        assert(inflate::length_row(v, 1) == (4nat, 0nat));
    }
    if e == 0 && h == 2 {
        assert(inflate::length_row(v, 2) == (5nat, 0nat));
    }
    if e == 0 && h == 3 {
        assert(inflate::length_row(v, 3) == (6nat, 0nat));
    }
    if e == 0 && h == 4 {
        assert(inflate::length_row(v, 4) == (7nat, 0nat));
    }
    if e == 0 && h == 5 {
        assert(inflate::length_row(v, 5) == (8nat, 0nat));
    }
    if e == 0 && h == 6 {
        assert(inflate::length_row(v, 6) == (9nat, 0nat));
    }
    if e == 0 && h == 7 {
        assert(inflate::length_row(v, 7) == (10nat, 0nat));
    }
    if e == 1 && h == 4 {
        assert(inflate::length_row(v, 8) == (11nat, 1nat));
    }
    if e == 1 && h == 5 {
        assert(inflate::length_row(v, 9) == (13nat, 1nat));
    }
    if e == 1 && h == 6 {
        assert(inflate::length_row(v, 10) == (15nat, 1nat));
    }
    if e == 1 && h == 7 {
        assert(inflate::length_row(v, 11) == (17nat, 1nat));
    }
    if e == 2 && h == 4 {
        assert(inflate::length_row(v, 12) == (19nat, 2nat));
    }
    if e == 2 && h == 5 {
        assert(inflate::length_row(v, 13) == (23nat, 2nat));
    }
    if e == 2 && h == 6 {
        assert(inflate::length_row(v, 14) == (27nat, 2nat));
    }
    if e == 2 && h == 7 {
        assert(inflate::length_row(v, 15) == (31nat, 2nat));
    }
    if e == 3 && h == 4 {
        assert(inflate::length_row(v, 16) == (35nat, 3nat));
    }
    if e == 3 && h == 5 {
        assert(inflate::length_row(v, 17) == (43nat, 3nat));
    }
    if e == 3 && h == 6 {
        assert(inflate::length_row(v, 18) == (51nat, 3nat));
    }
    if e == 3 && h == 7 {
        assert(inflate::length_row(v, 19) == (59nat, 3nat));
    }
    if e == 4 && h == 4 {
        assert(inflate::length_row(v, 20) == (67nat, 4nat));
    }
    if e == 4 && h == 5 {
        assert(inflate::length_row(v, 21) == (83nat, 4nat));
    }
    if e == 4 && h == 6 {
        assert(inflate::length_row(v, 22) == (99nat, 4nat));
    }
    if e == 4 && h == 7 {
        assert(inflate::length_row(v, 23) == (115nat, 4nat));
    }
    if e == 5 && h == 4 {
        assert(inflate::length_row(v, 24) == (131nat, 5nat));
    }
    if e == 5 && h == 5 {
        assert(inflate::length_row(v, 25) == (163nat, 5nat));
    }
    if e == 5 && h == 6 {
        assert(inflate::length_row(v, 26) == (195nat, 5nat));
    }
    if e == 5 && h == 7 {
        assert(inflate::length_row(v, 27) == (227nat, 5nat));
    }
}

/// Every distance has a symbol and bits after it that are read as that
/// distance.
proof fn lemma_distance(v: Variant, d: int)
    requires
        1 <= d <= farthest(v),
    ensures
        ({
            let (s, n, y) = distance_parts(d);
            &&& 0 <= s < inflate::distance_codes_of(v)
            &&& inflate::distance_row(v, s).1 == n
            &&& inflate::distance_row(v, s).0 + y == d
            &&& y < pow2(n)
        }),
{
    reveal(distance_parts);
    let k = d - 1;
    lemma2_to64();
    let e: nat = if k < 4 {
        0
    } else if k < 8 {
        1
    } else if k < 16 {
        2
    } else if k < 32 {
        3
    } else if k < 64 {
        4
    } else if k < 128 {
        5
    } else if k < 256 {
        6
    } else if k < 512 {
        7
    } else if k < 1024 {
        8
    } else if k < 2048 {
        9
    } else if k < 4096 {
        10
    } else if k < 8192 {
        11
    } else if k < 16384 {
        12
    } else if k < 32768 {
        13
    } else {
        14
    };
    lemma_halved(k, 2, e);
    lemma_distance_row(v, e, k / (pow2(e) as int));
    assert(pow2(e) * (k / (pow2(e) as int)) == (k / (pow2(e) as int)) * pow2(e)) by (nonlinear_arith);
}

/// Every length has a symbol and bits after it that are read as that length.
proof fn lemma_length(v: Variant, len: int)
    requires
        3 <= len <= longest(v),
    ensures
        ({
            let (s, n, x) = length_parts(v, len);
            &&& 257 <= s <= 285
            &&& inflate::length_row(v, s - 257).1 == n
            &&& inflate::length_row(v, s - 257).0 + x == len
            &&& x < pow2(n)
        }),
{
    reveal(length_parts);
    let k = len - 3;
    lemma2_to64();
    if len >= 258 {
        assert(inflate::length_row(Variant::Deflate, 28) == (258nat, 0nat));
        assert(inflate::length_row(Variant::Deflate64, 28) == (3nat, 16nat));
    } else {
        let e: nat = if k < 8 {
            0
        } else if k < 16 {
            1
        } else if k < 32 {
            2
        } else if k < 64 {
            3
        } else if k < 128 {
            4
        } else {
            5
        };
        lemma_halved(k, 4, e);
        lemma_length_row(v, e, k / (pow2(e) as int));
        assert(pow2(e) * (k / (pow2(e) as int)) == (k / (pow2(e) as int)) * pow2(e)) by (
        nonlinear_arith);
    }
}

/// A copy written is the copy read: for every length and every distance of the
/// format.
pub proof fn lemma_copy_read(
    v: Variant,
    data: Seq<u8>,
    p: int,
    len: int,
    d: int,
    dist: Seq<u8>,
)
    requires
        3 <= len <= longest(v),
        1 <= d <= farthest(v),
        tokens::usable(dist),
        distance_parts(d).0 < dist.len(),
        dist[distance_parts(d).0] > 0,
        bits::has(
            data,
            p,
            bits::bits_of(length_parts(v, len).2, length_parts(v, len).1) + tokens::symbol_bits(
                dist,
                distance_parts(d).0,
            ) + bits::bits_of(distance_parts(d).2, distance_parts(d).1),
        ),
    ensures
        257 <= length_parts(v, len).0 <= 285,
        inflate::copy_at(v, data, p, length_parts(v, len).0 - 257, dist) == Some(
            (
                len as nat,
                d as nat,
                p + length_parts(v, len).1 + dist[distance_parts(d).0] + distance_parts(d).1,
            ),
        ),
{
    let (s, m, x) = length_parts(v, len);
    let (k, n, y) = distance_parts(d);
    lemma_length(v, len);
    lemma_distance(v, d);
    let b2 = bits::bits_of(x, m);
    let b3 = tokens::symbol_bits(dist, k);
    let b4 = bits::bits_of(y, n);
    bits::lemma_has_concat(data, p, b2 + b3, b4);
    bits::lemma_has_concat(data, p, b2, b3);
    tokens::lemma_field_read(data, p, x, m);
    tokens::lemma_symbol_read(data, p + m, dist, k);
    tokens::lemma_field_read(data, p + m + dist[k], y, n);
}

#[verifier::spinoff_prover]
#[verifier::rlimit(60)]
proof fn lemma_part_read(
    v: Variant,
    data: Seq<u8>,
    p: int,
    out: Seq<u8>,
    t: Part,
    lit: Seq<u8>,
    dist: Seq<u8>,
    last: bool,
)
    requires
        tokens::usable(lit),
        tokens::usable(dist),
        256 < lit.len(),
        part_ok(v, t, out.len(), lit, dist),
        bits::has(data, p, part_bits(v, t, lit, dist)),
    ensures
        inflate::codes(v, data, p, out, lit, dist, last) == inflate::codes(
            v,
            data,
            p + part_bits(v, t, lit, dist).len(),
            added(out, t),
            lit,
            dist,
            last,
        ),
{
    match t {
        Part::Literal(b) => {
            tokens::lemma_symbol_read(data, p, lit, b as int);
        },
        Part::Copy { len, dist: d } => {
            let (s, m, x) = length_parts(v, len);
            let (k, n, y) = distance_parts(d);
            lemma_length(v, len);
            lemma_distance(v, d);
            let b1 = tokens::symbol_bits(lit, s);
            let b2 = bits::bits_of(x, m);
            let b3 = tokens::symbol_bits(dist, k);
            let b4 = bits::bits_of(y, n);
            assert(b1 + b2 + b3 + b4 =~= b1 + (b2 + b3 + b4));
            bits::lemma_has_concat(data, p, b1, b2 + b3 + b4);
            tokens::lemma_symbol_read(data, p, lit, s);
            lemma_copy_read(v, data, p + b1.len(), len, d, dist);
        },
    }
}

proof fn lemma_parts_read(
    v: Variant,
    data: Seq<u8>,
    p: int,
    out: Seq<u8>,
    ts: Seq<Part>,
    lit: Seq<u8>,
    dist: Seq<u8>,
    last: bool,
)
    requires
        tokens::usable(lit),
        tokens::usable(dist),
        256 < lit.len(),
        lit[256] > 0,
        parts_ok(v, ts, out, lit, dist),
        bits::has(data, p, parts_bits(v, ts, lit, dist)),
    ensures
        inflate::codes(v, data, p, out, lit, dist, last) == inflate::blocks(
            v,
            data,
            p + parts_bits(v, ts, lit, dist).len(),
            all_added(out, ts),
            last,
        ),
    decreases ts.len(),
{
    if ts.len() == 0 {
        tokens::lemma_symbol_read(data, p, lit, 256);
    } else {
        let w = part_bits(v, ts[0], lit, dist);
        let more = parts_bits(v, ts.skip(1), lit, dist);
        bits::lemma_has_concat(data, p, w, more);
        lemma_part_read(v, data, p, out, ts[0], lit, dist, last);
        lemma_parts_read(v, data, p + w.len(), added(out, ts[0]), ts.skip(1), lit, dist, last);
    }
}

/// A head written is the pair of codes read.
#[verifier::spinoff_prover]
#[verifier::rlimit(60)]
proof fn lemma_head_read(v: Variant, h: Head, data: Seq<u8>, p: int)
    requires
        head_ok(v, h),
        bits::has(data, p, head_bits(h)),
    ensures
        inflate::dynamic_tables(v, data, p) == Some((h.lit, h.dist, p + head_bits(h).len())),
{
    let cl = h.cl;
    let b1 = bits::bits_of((h.lit.len() - 257) as nat, 5);
    let b2 = bits::bits_of((h.dist.len() - 1) as nat, 5);
    let b3 = bits::bits_of((h.written - 4) as nat, 4);
    let b4 = header::order_bits(cl, h.written);
    let b5 = header::items_bits(h.items, cl);
    bits::lemma_has_concat(data, p, b1 + b2 + b3 + b4, b5);
    bits::lemma_has_concat(data, p, b1 + b2 + b3, b4);
    bits::lemma_has_concat(data, p, b1 + b2, b3);
    bits::lemma_has_concat(data, p, b1, b2);
    lemma2_to64();
    lemma_distance_row(v, 0, 0);
    tokens::lemma_field_read(data, p, (h.lit.len() - 257) as nat, 5);
    tokens::lemma_field_read(data, p + 5, (h.dist.len() - 1) as nat, 5);
    tokens::lemma_field_read(data, p + 10, (h.written - 4) as nat, 4);
    header::lemma_order_lengths(data, p + 14, cl, h.written);
    assert(inflate::order_lengths(data, p + 14, h.written) =~= cl) by {
        assert forall|i: int| 0 <= i < 19 implies inflate::order_lengths(
            data,
            p + 14,
            h.written,
        )[i] == cl[i] by {
            header::lemma_order(i);
        }
    }
    let q = p + 14 + 3 * h.written;
    let all = h.lit + h.dist;
    assert(h.items.take(h.items.len() as int) =~= h.items);
    header::lemma_items_read(data, q, h.items, cl, all.len(), h.items.len() as int);
    assert(all.take(h.lit.len() as int) =~= h.lit);
    assert(all.skip(h.lit.len() as int) =~= h.dist);
    assert(all[256] == h.lit[256]);
}

/// The two bits of a kind.
proof fn lemma_kind(data: Seq<u8>, p: int, last: bool, a: bool, b: bool)
    requires
        bits::has(data, p, seq![last] + seq![a, b]),
    ensures
        bits::peek(data, p, 1) == if last {
            1nat
        } else {
            0
        },
        bits::peek(data, p + 1, 2) == (if a {
            1nat
        } else {
            0
        }) + if b {
            2nat
        } else {
            0
        },
        p + 3 <= 8 * data.len(),
{
    let w = seq![last] + seq![a, b];
    assert(bits::bit(data, p + 0) == w[0]);
    assert(bits::bit(data, p + 1) == w[1]);
    assert(bits::bit(data, p + 2) == w[2]);
    lemma2_to64();
    reveal_with_fuel(bits::peek, 3);
}

/// The codes of the format can be written with.
proof fn lemma_fixed()
    ensures
        tokens::usable(fixed_lit()),
        tokens::usable(fixed_dist()),
        fixed_lit() == Seq::new(288, |i: int| huffman::fixed_literal(i)),
{
    lemma2_to64();
    let s = fixed_lit();
    assert(s =~= Seq::new(288, |i: int| huffman::fixed_literal(i)));
    assert(s.take(0) =~= Seq::<u8>::empty());
    huffman::lemma_kraft_run(s, 0, 144, 8);
    huffman::lemma_kraft_run(s, 144, 256, 9);
    huffman::lemma_kraft_run(s, 256, 280, 7);
    huffman::lemma_kraft_run(s, 280, 288, 8);
    assert(s.take(288) =~= s);
    let d = fixed_dist();
    assert(d.take(0) =~= Seq::<u8>::empty());
    huffman::lemma_kraft_run(d, 0, 32, 5);
    assert(d.take(32) =~= d);
}

/// Stored bytes written are the bytes read.
#[verifier::spinoff_prover]
#[verifier::rlimit(60)]
proof fn lemma_stored_read(v: Variant, data: Seq<u8>, p: int, out: Seq<u8>, b: Seq<u8>, last: bool)
    requires
        lump_ok(v, Lump::Stored(b), out),
        bits::has(data, p, lump_bits(v, Lump::Stored(b), p, last)),
    ensures
        inflate::blocks(v, data, p, out, false) == inflate::blocks(
            v,
            data,
            p + lump_bits(v, Lump::Stored(b), p, last).len(),
            lump_added(out, Lump::Stored(b)),
            last,
        ),
{
    let flag = seq![last];
    let b2 = seq![false, false];
    let b3 = Seq::new(((5 - p % 8) % 8) as nat, |i: int| false);
    let n = b.len();
    let b4 = bits::bits_of(n, 16);
    let b5 = bits::bits_of((0xffff - n) as nat, 16);
    let b6 = bits::all_bits(b);
    bits::lemma_has_concat(data, p, flag + b2 + b3 + b4 + b5, b6);
    bits::lemma_has_concat(data, p, flag + b2 + b3 + b4, b5);
    bits::lemma_has_concat(data, p, flag + b2 + b3, b4);
    bits::lemma_has_concat(data, p, flag + b2, b3);
    lemma_kind(data, p, last, false, false);
    assert(pow2(16) == 65536) by {
        lemma2_to64();
    }
    let q = p + 3 + b3.len();
    assert(q == bits::align8(p + 3));
    tokens::lemma_field_read(data, q, n, 16);
    tokens::lemma_field_read(data, q + 16, (0xffff - n) as nat, 16);
    let i = q / 8 + 4;
    assert(q + 32 == 8 * i);
    compress::lemma_bytes_read(data, i, b);
    inflate::lemma_blocks_stored(v, data, p, out);
    inflate::lemma_stored_blocks(v, data, i, out, n, last);
}

/// Parts in the codes of the format.
#[verifier::spinoff_prover]
#[verifier::rlimit(60)]
proof fn lemma_fixed_read(v: Variant, data: Seq<u8>, p: int, out: Seq<u8>, ts: Seq<Part>, last: bool)
    requires
        lump_ok(v, Lump::Fixed(ts), out),
        bits::has(data, p, lump_bits(v, Lump::Fixed(ts), p, last)),
    ensures
        inflate::blocks(v, data, p, out, false) == inflate::blocks(
            v,
            data,
            p + lump_bits(v, Lump::Fixed(ts), p, last).len(),
            lump_added(out, Lump::Fixed(ts)),
            last,
        ),
{
    let flag = seq![last];
    let b2 = seq![true, false];
    let b3 = parts_bits(v, ts, fixed_lit(), fixed_dist());
    bits::lemma_has_concat(data, p, flag + b2, b3);
    lemma_kind(data, p, last, true, false);
    lemma_fixed();
    lemma_parts_read(v, data, p + 3, out, ts, fixed_lit(), fixed_dist(), last);
    assert(fixed_dist() == Seq::new(32, |i: int| 5u8));
}

/// Parts in codes of their own.
#[verifier::spinoff_prover]
#[verifier::rlimit(60)]
proof fn lemma_own_read(v: Variant, data: Seq<u8>, p: int, out: Seq<u8>, h: Head, ts: Seq<Part>, last: bool)
    requires
        lump_ok(v, Lump::Own(h, ts), out),
        bits::has(data, p, lump_bits(v, Lump::Own(h, ts), p, last)),
    ensures
        inflate::blocks(v, data, p, out, false) == inflate::blocks(
            v,
            data,
            p + lump_bits(v, Lump::Own(h, ts), p, last).len(),
            lump_added(out, Lump::Own(h, ts)),
            last,
        ),
{
    let flag = seq![last];
    let b2 = seq![false, true];
    let b3 = head_bits(h);
    let b4 = parts_bits(v, ts, h.lit, h.dist);
    bits::lemma_has_concat(data, p, flag + b2 + b3, b4);
    bits::lemma_has_concat(data, p, flag + b2, b3);
    lemma_kind(data, p, last, false, true);
    lemma_head_read(v, h, data, p + 3);
    lemma_parts_read(v, data, p + 3 + b3.len(), out, ts, h.lit, h.dist, last);
}

/// A block written is the block read.
#[verifier::spinoff_prover]
#[verifier::rlimit(60)]
proof fn lemma_lump_read(v: Variant, data: Seq<u8>, p: int, out: Seq<u8>, l: Lump, last: bool)
    requires
        lump_ok(v, l, out),
        bits::has(data, p, lump_bits(v, l, p, last)),
    ensures
        inflate::blocks(v, data, p, out, false) == inflate::blocks(
            v,
            data,
            p + lump_bits(v, l, p, last).len(),
            lump_added(out, l),
            last,
        ),
{
    match l {
        Lump::Stored(b) => {
            lemma_stored_read(v, data, p, out, b, last);
        },
        Lump::Fixed(ts) => {
            lemma_fixed_read(v, data, p, out, ts, last);
        },
        Lump::Own(h, ts) => {
            lemma_own_read(v, data, p, out, h, ts, last);
        },
    }
}

proof fn lemma_lumps_read(v: Variant, data: Seq<u8>, p: int, out: Seq<u8>, ls: Seq<Lump>)
    requires
        ls.len() > 0,
        lumps_ok(v, ls, out),
        bits::has(data, p, lumps_bits(v, ls, p)),
    ensures
        inflate::blocks(v, data, p, out, false) == Some(
            (lumps_added(out, ls), p + lumps_bits(v, ls, p).len()),
        ),
    decreases ls.len(),
{
    let last = ls.len() == 1;
    let w = lump_bits(v, ls[0], p, last);
    let more = lumps_bits(v, ls.skip(1), p + w.len());
    bits::lemma_has_concat(data, p, w, more);
    lemma_lump_read(v, data, p, out, ls[0], last);
    if !last {
        lemma_lumps_read(v, data, p + w.len(), lump_added(out, ls[0]), ls.skip(1));
    }
}

/// A stream written by the rules of either format, whatever its blocks and
/// codes, inflates to what its parts stand for, and ends where it was ended.
/// In Deflate64 a copy can be 65,538 bytes long and start 65,536 bytes back.
pub proof fn lemma_stream_read(v: Variant, data: Seq<u8>, ls: Seq<Lump>)
    requires
        ls.len() > 0,
        lumps_ok(v, ls, Seq::empty()),
        bits::has(data, 0, lumps_bits(v, ls, 0)),
    ensures
        inflate::inflated(v, data) == Some(
            (lumps_added(Seq::empty(), ls), lumps_bits(v, ls, 0).len() as int),
        ),
{
    lemma_lumps_read(v, data, 0, Seq::empty(), ls);
}

} // verus!
