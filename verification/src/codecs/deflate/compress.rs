//! Writing Deflate.
use crate::codecs::deflate::bitwriter;
use crate::codecs::deflate::bitwriter::BitWriter;
use crate::codecs::deflate::header::{DynamicHeader, Item};
use crate::codecs::deflate::header;
use crate::codecs::deflate::huffman;
use crate::codecs::deflate::huffman::{fixed_distance_lengths, fixed_literal_lengths, MAX_BITS};
use crate::codecs::deflate::inflate;
use crate::codecs::deflate::inflate::{
    Variant, CODE_LENGTH_ORDER, DIST_BASE, DIST_EXTRA, LENGTH_BASE, LENGTH_EXTRA,
};
use crate::codecs::deflate::lz77;
use crate::codecs::deflate::lz77::{Look, MatchFinder, Token};
use crate::codecs::deflate::stored;
use crate::codecs::deflate::stored::MAX_STORED;
use crate::codecs::deflate::tokens;
use crate::codecs::deflate::tokens::{canonical_codes, dist_code, length_code};
use crate::codecs::Level;
use crate::utils::bits;
use vstd::arithmetic::power2::*;
use vstd::prelude::*;

verus! {

/// How much data goes into one block.
pub const BLOCK_SIZE: usize = 262_144;

/// How much of a long block is probed.
pub const PROBE_SIZE: usize = 32_768;

/// How many bytes in a hundred must lie in repeats.
pub const INCOMPRESSIBLE_PERCENT: usize = 2;

/// Whether the bits `w`, standing at a position that is `offset` modulo
/// eight, are blocks that add `chunk` to whatever came before. `last` says
/// that the final block is marked as such.
#[verifier::opaque]
pub open spec fn encodes(w: Seq<bool>, offset: int, chunk: Seq<u8>, last: bool) -> bool {
    forall|data: Seq<u8>, p: int, out: Seq<u8>|
        #![trigger inflate::blocks(Variant::Deflate, data, p, out, false), bits::has(data, p, w)]
        bits::has(data, p, w) && (p - offset) % 8 == 0 ==> inflate::blocks(
            Variant::Deflate,
            data,
            p,
            out,
            false,
        ) == inflate::blocks(Variant::Deflate, data, p + w.len(), out + chunk, last)
}

/// Nothing at all adds nothing.
pub proof fn lemma_encodes_nothing(offset: int)
    ensures
        encodes(Seq::empty(), offset, Seq::empty(), false),
{
    reveal(encodes);
    assert forall|data: Seq<u8>, p: int, out: Seq<u8>|
        #![trigger inflate::blocks(Variant::Deflate, data, p, out, false), bits::has(
            data,
            p,
            Seq::empty(),
        )]
        bits::has(data, p, Seq::empty()) && (p - offset) % 8 == 0 implies inflate::blocks(
        Variant::Deflate,
        data,
        p,
        out,
        false,
    ) == inflate::blocks(Variant::Deflate, data, p + 0, out + Seq::empty(), false) by {
        assert(out + Seq::empty() =~= out);
    }
}

/// Blocks after blocks add one chunk after the other.
pub proof fn lemma_encodes_concat(
    a: Seq<bool>,
    b: Seq<bool>,
    offset: int,
    x: Seq<u8>,
    y: Seq<u8>,
    last: bool,
)
    requires
        encodes(a, offset, x, false),
        encodes(b, offset + a.len(), y, last),
    ensures
        encodes(a + b, offset, x + y, last),
{
    reveal(encodes);
    assert forall|data: Seq<u8>, p: int, out: Seq<u8>|
        #![trigger inflate::blocks(Variant::Deflate, data, p, out, false), bits::has(
            data,
            p,
            a + b,
        )]
        bits::has(data, p, a + b) && (p - offset) % 8 == 0 implies inflate::blocks(
        Variant::Deflate,
        data,
        p,
        out,
        false,
    ) == inflate::blocks(Variant::Deflate, data, p + (a + b).len(), out + (x + y), last) by {
        bits::lemma_has_concat(data, p, a, b);
        assert((out + x) + y =~= out + (x + y));
        let q = p + a.len();
        assert(bits::has(data, p, a));
        assert(bits::has(data, q, b));
        assert(inflate::blocks(Variant::Deflate, data, p, out, false) == inflate::blocks(
            Variant::Deflate,
            data,
            q,
            out + x,
            false,
        ));
        assert((q - (offset + a.len())) % 8 == 0);
    }
}

/// Whether `b` is one stream, filled up to a whole byte, of the data `d`.
pub open spec fn is_stream(b: Seq<u8>, d: Seq<u8>) -> bool {
    exists|w: Seq<bool>|
        encodes(w, 0, d, true) && bits::all_bits(b) == #[trigger] bitwriter::padded(w)
}

/// A stream decodes to its data whatever follows it, and ends where it ends.
pub proof fn lemma_stream_then(b: Seq<u8>, tail: Seq<u8>, d: Seq<u8>)
    requires
        is_stream(b, d),
    ensures
        inflate::inflated(Variant::Deflate, b + tail) matches Some((all, end)) && all == d
            && bits::align8(end) == 8 * b.len() && end <= 8 * b.len(),
{
    reveal(encodes);
    let w = choose|w: Seq<bool>|
        encodes(w, 0, d, true) && bits::all_bits(b) == #[trigger] bitwriter::padded(w);
    let data = b + tail;
    bits::lemma_has_all_bits(data);
    bits::lemma_all_bits_concat(b, tail);
    bits::lemma_has_concat(data, 0, bits::all_bits(b), bits::all_bits(tail));
    let pad = Seq::new((bits::align8(w.len() as int) - w.len()) as nat, |k: int| false);
    bits::lemma_has_concat(data, 0, w, pad);
    assert(inflate::blocks(Variant::Deflate, data, 0, Seq::empty(), false) == inflate::blocks(
        Variant::Deflate,
        data,
        0 + w.len() as int,
        Seq::<u8>::empty() + d,
        true,
    ));
    assert(Seq::<u8>::empty() + d =~= d);
    assert(bits::all_bits(b).len() == 8 * b.len());
}

/// The symbol of a token among literals and lengths.
pub open spec fn literal_symbol(t: Token) -> int {
    match t {
        Token::Literal(b) => b as int,
        Token::Match { len, dist } => 257 + tokens::length_code_of(len as int),
    }
}

/// How many tokens have the symbol `s` among literals and lengths.
pub open spec fn literal_count(ts: Seq<Token>, s: int) -> nat
    decreases ts.len(),
{
    if ts.len() == 0 {
        0
    } else {
        literal_count(ts.drop_last(), s) + if literal_symbol(ts.last()) == s {
            1nat
        } else {
            0
        }
    }
}

/// How many tokens have the symbol `s` among distances.
pub open spec fn distance_count(ts: Seq<Token>, s: int) -> nat
    decreases ts.len(),
{
    if ts.len() == 0 {
        0
    } else {
        distance_count(ts.drop_last(), s) + match ts.last() {
            Token::Literal(b) => 0,
            Token::Match { len, dist } => if tokens::dist_code_of(dist as int) == s {
                1nat
            } else {
                0
            },
        }
    }
}

/// How often each literal and length occurs, and once the end of the block.
pub open spec fn literal_counts(ts: Seq<Token>) -> Seq<u32> {
    Seq::new(
        288,
        |s: int|
            (literal_count(ts, s) + if s == 256 {
                1int
            } else {
                0
            }) as u32,
    )
}

/// How often each distance occurs.
pub open spec fn distance_counts(ts: Seq<Token>) -> Seq<u32> {
    Seq::new(30, |s: int| distance_count(ts, s) as u32)
}

/// How often each symbol occurs.
struct Freqs {
    literal: [u32; 288],
    distance: [u32; 30],
}

/// Every symbol of a token is counted.
spec fn token_counted(f: Freqs, t: Token) -> bool {
    match t {
        Token::Literal(b) => f.literal@[b as int] > 0,
        Token::Match { len, dist } => f.literal@[257 + tokens::length_code_of(len as int)] > 0
            && f.distance@[tokens::dist_code_of(dist as int)] > 0,
    }
}

impl Freqs {
    #[verifier::spinoff_prover]
    #[verifier::rlimit(60)]
    fn count(ts: &Vec<Token>) -> (f: Self)
        requires
            lz77::tokens_ok(ts@),
            ts@.len() < 0xffff_fff0,
        ensures
            forall|i: int| 0 <= i < ts@.len() ==> token_counted(f, #[trigger] ts@[i]),
            f.literal@[256] > 0,
            f.literal@[286] == 0,
            f.literal@[287] == 0,
            f.literal@ == literal_counts(ts@),
            f.distance@ == distance_counts(ts@),
    {
        let mut literal: [u32; 288] = [0u32; 288];
        let mut a: usize = 0;
        while a < 288
            invariant
                a <= 288,
                forall|k: int| 0 <= k < a ==> #[trigger] literal@[k] == 0,
            decreases 288 - a,
        {
            literal[a] = 0;
            a = a + 1;
        }
        let mut distance: [u32; 30] = [0u32; 30];
        let mut b: usize = 0;
        while b < 30
            invariant
                b <= 30,
                forall|k: int| 0 <= k < b ==> #[trigger] distance@[k] == 0,
            decreases 30 - b,
        {
            distance[b] = 0;
            b = b + 1;
        }
        let mut f: Freqs = Freqs { literal, distance };
        let mut i: usize = 0;
        assert(ts@.take(0).len() == 0);
        while i < ts.len()
            invariant
                forall|k: int|
                    0 <= k < 288 ==> #[trigger] f.literal@[k] == literal_count(
                        ts@.take(i as int),
                        k,
                    ),
                forall|k: int|
                    0 <= k < 30 ==> #[trigger] f.distance@[k] == distance_count(
                        ts@.take(i as int),
                        k,
                    ),
                i <= ts@.len() < 0xffff_fff0,
                lz77::tokens_ok(ts@),
                forall|k: int| 0 <= k < i ==> token_counted(f, #[trigger] ts@[k]),
                forall|k: int| 0 <= k < 288 ==> #[trigger] f.literal@[k] <= i,
                forall|k: int| 0 <= k < 30 ==> #[trigger] f.distance@[k] <= i,
                f.literal@[286] == 0,
                f.literal@[287] == 0,
            decreases ts@.len() - i,
        {
            let ghost before = f;
            assert(lz77::token_ok(ts@[i as int], lz77::spelled(ts@.take(i as int)).len()));
            match ts[i] {
                Token::Literal(b) => {
                    f.literal[b as usize] = f.literal[b as usize] + 1;
                },
                Token::Match { len, dist } => {
                    let c: usize = 257 + length_code(len);
                    f.literal[c] = f.literal[c] + 1;
                    let d: usize = dist_code(dist);
                    f.distance[d] = f.distance[d] + 1;
                },
            }
            proof {
                assert(ts@.take(i + 1).drop_last() =~= ts@.take(i as int));
                assert forall|k: int| 0 <= k < 288 implies #[trigger] f.literal@[k]
                    == literal_count(ts@.take(i + 1), k) by {
                    assert(before.literal@[k] == literal_count(ts@.take(i as int), k));
                }
                assert forall|k: int| 0 <= k < 30 implies #[trigger] f.distance@[k]
                    == distance_count(ts@.take(i + 1), k) by {
                    assert(before.distance@[k] == distance_count(ts@.take(i as int), k));
                }
                assert forall|k: int| 0 <= k < i + 1 implies token_counted(
                    f,
                    #[trigger] ts@[k],
                ) by {
                    if k < i {
                        assert(token_counted(before, ts@[k]));
                        assert(lz77::token_ok(ts@[k], lz77::spelled(ts@.take(k)).len()));
                        match ts@[k] {
                            Token::Literal(b) => {},
                            Token::Match { len, dist } => {
                                tokens::lemma_length_code(len as int);
                                tokens::lemma_dist_code(dist as int);
                            },
                        }
                    }
                }
            }
            i = i + 1;
        }
        let ghost before = f;
        f.literal[256] = f.literal[256] + 1;
        proof {
            assert(ts@.take(i as int) =~= ts@);
            assert forall|k: int| 0 <= k < 288 implies f.literal@[k] == literal_counts(ts@)[k] by {
                assert(before.literal@[k] == literal_count(ts@, k));
            }
            assert forall|k: int| 0 <= k < 30 implies f.distance@[k] == distance_counts(
                ts@,
            )[k] by {
                assert(before.distance@[k] == distance_count(ts@, k));
            }
            assert(f.literal@ =~= literal_counts(ts@));
            assert(f.distance@ =~= distance_counts(ts@));
            assert forall|k: int| 0 <= k < ts@.len() implies token_counted(
                f,
                #[trigger] ts@[k],
            ) by {
                assert(token_counted(before, ts@[k]));
                assert(lz77::token_ok(ts@[k], lz77::spelled(ts@.take(k)).len()));
                match ts@[k] {
                    Token::Literal(b) => {},
                    Token::Match { len, dist } => {
                        tokens::lemma_length_code(len as int);
                        tokens::lemma_dist_code(dist as int);
                    },
                }
            }
        }
        f
    }
}

/// How many bits a token takes.
fn token_size(t: Token, lit_len: &Vec<u8>, dist_len: &Vec<u8>) -> (r: u64)
    requires
        tokens::usable(lit_len@),
        tokens::usable(dist_len@),
        tokens::token_covered(t, lit_len@, dist_len@),
        t matches Token::Match { len, dist } ==> 3 <= len <= 258 && 1 <= dist <= 32768,
    ensures
        r == tokens::token_bits(t, lit_len@, dist_len@).len(),
        r <= 50,
{
    match t {
        Token::Literal(b) => {
            assert(lit_len@[b as int] <= MAX_BITS);
            lit_len[b as usize] as u64
        },
        Token::Match { len, dist } => {
            let lc: usize = length_code(len);
            assert(lit_len@[257 + lc as int] <= MAX_BITS);
            let extra: u64 = LENGTH_EXTRA[lc] as u64;
            assert(extra <= 5);
            let dc: usize = dist_code(dist);
            assert(dist_len@[dc as int] <= MAX_BITS);
            let more: u64 = DIST_EXTRA[dc] as u64;
            assert(more <= 13);
            lit_len[257 + lc] as u64 + extra + dist_len[dc] as u64 + more
        },
    }
}

/// How many bits the tokens and the end of the block take.
fn payload_bits(ts: &Vec<Token>, lit_len: &Vec<u8>, dist_len: &Vec<u8>) -> (total: u64)
    requires
        tokens::covered(ts@, lit_len@, dist_len@),
        lz77::tokens_ok(ts@),
        ts@.len() < 0xffff_fff0,
    ensures
        total == tokens::tokens_bits(ts@, lit_len@, dist_len@).len() + lit_len@[256],
        total <= 50 * ts@.len() + 15,
{
    let mut total: u64 = 0;
    let mut i: usize = 0;
    assert(ts@.take(0) =~= Seq::<Token>::empty());
    while i < ts.len()
        invariant
            i <= ts@.len() < 0xffff_fff0,
            tokens::covered(ts@, lit_len@, dist_len@),
            lz77::tokens_ok(ts@),
            total == tokens::tokens_bits(ts@.take(i as int), lit_len@, dist_len@).len(),
            total <= 50 * i,
        decreases ts@.len() - i,
    {
        proof {
            assert(lz77::token_ok(ts@[i as int], lz77::spelled(ts@.take(i as int)).len()));
            assert(tokens::token_covered(ts@[i as int], lit_len@, dist_len@));
            assert(ts@.take(i + 1).drop_last() =~= ts@.take(i as int));
        }
        total = total + token_size(ts[i], lit_len, dist_len);
        i = i + 1;
    }
    assert(ts@.take(i as int) =~= ts@);
    assert(lit_len@[256] <= MAX_BITS);
    total + lit_len[256] as u64
}

/// The code words match the lengths.
spec fn codes_match(codes: Seq<u16>, lens: Seq<u8>) -> bool {
    &&& codes.len() == lens.len()
    &&& forall|s: int|
        0 <= s < lens.len() && lens[s] > 0 ==> #[trigger] codes[s] == huffman::word(
            huffman::code_of(lens, s),
            lens[s] as nat,
        )
}

fn write_symbol(out: &mut BitWriter, codes: &Vec<u16>, lens: &Vec<u8>, s: usize)
    requires
        old(out).wf(),
        codes_match(codes@, lens@),
        s < lens@.len(),
        0 < lens@[s as int] <= 15,
    ensures
        final(out).wf(),
        final(out)@ == old(out)@ + tokens::symbol_bits(lens@, s as int),
{
    out.write_bits(codes[s] as u32, lens[s] as u32);
}

fn emit_tokens(
    out: &mut BitWriter,
    ts: &Vec<Token>,
    lit_codes: &Vec<u16>,
    lit_lengths: &Vec<u8>,
    dist_codes: &Vec<u16>,
    dist_lengths: &Vec<u8>,
)
    requires
        old(out).wf(),
        tokens::covered(ts@, lit_lengths@, dist_lengths@),
        lz77::tokens_ok(ts@),
        codes_match(lit_codes@, lit_lengths@),
        codes_match(dist_codes@, dist_lengths@),
    ensures
        final(out).wf(),
        final(out)@ == old(out)@ + (tokens::tokens_bits(ts@, lit_lengths@, dist_lengths@)
            + tokens::symbol_bits(lit_lengths@, 256)),
{
    let ghost lit = lit_lengths@;
    let ghost dist = dist_lengths@;
    let mut i: usize = 0;
    assert(ts@.take(0) =~= Seq::<Token>::empty());
    assert(out@ =~= old(out)@ + tokens::tokens_bits(ts@.take(0), lit, dist));
    while i < ts.len()
        invariant
            i <= ts@.len(),
            out.wf(),
            lit == lit_lengths@,
            dist == dist_lengths@,
            tokens::covered(ts@, lit, dist),
            lz77::tokens_ok(ts@),
            codes_match(lit_codes@, lit),
            codes_match(dist_codes@, dist),
            out@ == old(out)@ + tokens::tokens_bits(ts@.take(i as int), lit, dist),
        decreases ts@.len() - i,
    {
        let ghost before = out@;
        proof {
            assert(lz77::token_ok(ts@[i as int], lz77::spelled(ts@.take(i as int)).len()));
            assert(tokens::token_covered(ts@[i as int], lit, dist));
            assert(ts@.take(i + 1).drop_last() =~= ts@.take(i as int));
        }
        match ts[i] {
            Token::Literal(b) => {
                assert(lit[b as int] <= MAX_BITS);
                write_symbol(out, lit_codes, lit_lengths, b as usize);
            },
            Token::Match { len, dist: d } => {
                let lc: usize = length_code(len);
                proof {
                    tokens::lemma_length_code(len as int);
                    tokens::lemma_dist_code(d as int);
                }
                assert(lit[257 + lc as int] <= MAX_BITS);
                assert(LENGTH_EXTRA@[lc as int] <= 5);
                write_symbol(out, lit_codes, lit_lengths, 257 + lc);
                out.write_bits((len - LENGTH_BASE[lc]) as u32, LENGTH_EXTRA[lc] as u32);
                let dc: usize = dist_code(d);
                assert(dist[dc as int] <= MAX_BITS);
                assert(DIST_EXTRA@[dc as int] <= 13);
                write_symbol(out, dist_codes, dist_lengths, dc);
                out.write_bits((d - DIST_BASE[dc]) as u32, DIST_EXTRA[dc] as u32);
            },
        }
        proof {
            assert(out@ =~= before + tokens::token_bits(ts@[i as int], lit, dist));
            assert(out@ =~= old(out)@ + tokens::tokens_bits(ts@.take(i + 1), lit, dist));
        }
        i = i + 1;
    }
    proof {
        assert(ts@.take(i as int) =~= ts@);
        assert(lit[256] <= MAX_BITS);
    }
    write_symbol(out, lit_codes, lit_lengths, 256);
    assert(out@ =~= old(out)@ + (tokens::tokens_bits(ts@, lit, dist) + tokens::symbol_bits(
        lit,
        256,
    )));
}

/// Writes blocks, each in whichever form takes the fewest bits.
struct BlockWriter {
    out: BitWriter,
    finder: MatchFinder,
    tokens: Vec<Token>,
    fixed_lit_lengths: Vec<u8>,
    fixed_dist_lengths: Vec<u8>,
    fixed_lit_codes: Vec<u16>,
    fixed_dist_codes: Vec<u16>,
}

/// `w` followed by blocks that add `chunk`.
spec fn extended(w: Seq<bool>, r: Seq<bool>, chunk: Seq<u8>, last: bool) -> bool {
    &&& w.len() <= r.len()
    &&& r.take(w.len() as int) == w
    &&& encodes(r.skip(w.len() as int), w.len() as int, chunk, last)
}

proof fn lemma_extended(w: Seq<bool>, v: Seq<bool>, chunk: Seq<u8>, last: bool)
    requires
        encodes(v, w.len() as int, chunk, last),
    ensures
        extended(w, w + v, chunk, last),
{
    assert((w + v).take(w.len() as int) =~= w);
    assert((w + v).skip(w.len() as int) =~= v);
}

/// One stored block.
#[verifier::opaque]
spec fn stored_bits(start: int, chunk: Seq<u8>, last: bool) -> Seq<bool> {
    bits::bits_of(
        if last {
            1
        } else {
            0
        },
        1,
    ) + bits::bits_of(0, 2) + Seq::new((bits::align8(start + 3) - (start + 3)) as nat, |k: int| false)
        + bits::bits_of(chunk.len(), 16) + bits::bits_of((0xffff - chunk.len()) as nat, 16)
        + bits::all_bits(chunk)
}

/// Bytes written at a whole byte are the bytes read.
pub proof fn lemma_bytes_read(data: Seq<u8>, i: int, b: Seq<u8>)
    requires
        0 <= i,
        bits::has(data, 8 * i, bits::all_bits(b)),
    ensures
        i + b.len() <= data.len(),
        data.subrange(i, i + b.len()) == b,
    decreases b.len(),
{
    let n = b.len() as int;
    if n > 0 {
        let front = b.drop_last();
        let x = b.last();
        assert(front.push(x) =~= b);
        bits::lemma_all_bits_push(front, x);
        bits::lemma_has_concat(data, 8 * i, bits::all_bits(front), bits::bits_of(x as nat, 8));
        lemma_bytes_read(data, i, front);
        bits::lemma_has_value(data, 8 * (i + n - 1), x as nat, 8);
        lemma2_to64();
        bits::lemma_peek_byte(data, i + n - 1);
        assert(data.subrange(i, i + n) =~= data.subrange(i, i + n - 1).push(data[i + n - 1]));
    } else {
        assert(data.subrange(i, i) =~= b);
    }
}

proof fn lemma_stored_fields(data: Seq<u8>, p: int, start: int, chunk: Seq<u8>, last: bool)
    requires
        0 <= start,
        chunk.len() <= 0xffff,
        bits::has(data, p, stored_bits(start, chunk, last)),
        (p - start) % 8 == 0,
    ensures
        ({
            let q = bits::align8(p + 3);
            let n = chunk.len();
            &&& bits::peek(data, p, 1) == if last {
                1nat
            } else {
                0
            }
            &&& bits::peek(data, p + 1, 2) == 0
            &&& bits::peek(data, q, 16) == n
            &&& bits::peek(data, q + 16, 16) == 0xffff - n
            &&& bits::has(data, q + 32, bits::all_bits(chunk))
            &&& stored_bits(start, chunk, last).len() == q + 32 + 8 * n - p
        }),
{
    reveal(stored_bits);
    let l: nat = if last {
        1
    } else {
        0
    };
    let n = chunk.len();
    let b1 = bits::bits_of(l, 1);
    let b2 = bits::bits_of(0, 2);
    let b3 = Seq::new((bits::align8(start + 3) - (start + 3)) as nat, |k: int| false);
    let b4 = bits::bits_of(n, 16);
    let b5 = bits::bits_of((0xffff - n) as nat, 16);
    let b6 = bits::all_bits(chunk);
    bits::lemma_has_concat(data, p, b1 + b2 + b3 + b4 + b5, b6);
    bits::lemma_has_concat(data, p, b1 + b2 + b3 + b4, b5);
    bits::lemma_has_concat(data, p, b1 + b2 + b3, b4);
    bits::lemma_has_concat(data, p, b1 + b2, b3);
    bits::lemma_has_concat(data, p, b1, b2);
    assert(pow2(1) == 2 && pow2(2) == 4 && pow2(16) == 65536) by {
        lemma2_to64();
    }
    tokens::lemma_field_read(data, p, l, 1);
    tokens::lemma_field_read(data, p + 1, 0, 2);
    let q = p + 3 + b3.len();
    assert(q == bits::align8(p + 3));
    tokens::lemma_field_read(data, q, n, 16);
    tokens::lemma_field_read(data, q + 16, (0xffff - n) as nat, 16);
}

proof fn lemma_stored_read(
    data: Seq<u8>,
    p: int,
    out: Seq<u8>,
    start: int,
    chunk: Seq<u8>,
    last: bool,
)
    requires
        0 <= start,
        chunk.len() <= 0xffff,
        bits::has(data, p, stored_bits(start, chunk, last)),
        (p - start) % 8 == 0,
    ensures
        inflate::blocks(Variant::Deflate, data, p, out, false) == inflate::blocks(
            Variant::Deflate,
            data,
            p + stored_bits(start, chunk, last).len(),
            out + chunk,
            last,
        ),
{
    lemma_stored_fields(data, p, start, chunk, last);
    let n = chunk.len();
    let q = bits::align8(p + 3);
    let i = q / 8 + 4;
    assert(q + 32 == 8 * i);
    lemma_bytes_read(data, i, chunk);
    inflate::lemma_blocks_stored(Variant::Deflate, data, p, out);
    inflate::lemma_stored_blocks(Variant::Deflate, data, i, out, n, last);
}

proof fn lemma_stored_bits(start: int, chunk: Seq<u8>, last: bool)
    requires
        0 <= start,
        chunk.len() <= 0xffff,
    ensures
        encodes(stored_bits(start, chunk, last), start, chunk, last),
{
    reveal(encodes);
    let w = stored_bits(start, chunk, last);
    assert forall|data: Seq<u8>, p: int, out: Seq<u8>|
        #![trigger inflate::blocks(Variant::Deflate, data, p, out, false), bits::has(data, p, w)]
        bits::has(data, p, w) && (p - start) % 8 == 0 implies inflate::blocks(
        Variant::Deflate,
        data,
        p,
        out,
        false,
    ) == inflate::blocks(Variant::Deflate, data, p + w.len(), out + chunk, last) by {
        lemma_stored_read(data, p, out, start, chunk, last);
    }
}

/// At a whole byte a stored block is whole bytes.
proof fn lemma_stored_bytes(start: int, chunk: Seq<u8>, last: bool)
    requires
        0 <= start,
        start % 8 == 0,
        chunk.len() <= MAX_STORED,
    ensures
        stored_bits(start, chunk, last) == bits::all_bits(stored::block(chunk, last)),
{
    reveal(stored_bits);
    stored::lemma_block_bits(chunk, last);
    assert(bits::align8(start + 3) - (start + 3) == 5);
}

/// One more stored block.
proof fn lemma_stored_step(
    base: Seq<bool>,
    before: Seq<bool>,
    after: Seq<bool>,
    data: Seq<u8>,
    from: int,
    n: int,
    last: bool,
)
    requires
        0 <= from <= from + n <= data.len(),
        n <= 0xffff,
        extended(base, before, data.take(from), false),
        after == before + stored_bits(before.len() as int, data.subrange(from, from + n), last),
    ensures
        extended(base, after, data.take(from + n), last),
{
    let chunk = data.subrange(from, from + n);
    let w = stored_bits(before.len() as int, chunk, last);
    lemma_stored_bits(before.len() as int, chunk, last);
    let a = before.skip(base.len() as int);
    lemma_encodes_concat(a, w, base.len() as int, data.take(from), chunk, last);
    assert(data.take(from) + chunk =~= data.take(from + n));
    lemma_extended(base, a + w, data.take(from + n), last);
    assert(before =~= base + a);
    assert(base + (a + w) =~= after);
}

/// A block with the fixed codes.
spec fn fixed_bits(ts: Seq<Token>, last: bool) -> Seq<bool> {
    let lit = Seq::new(288, |i: int| huffman::fixed_literal(i));
    let dist = Seq::new(32, |i: int| 5u8);
    bits::bits_of(
        if last {
            1
        } else {
            0
        },
        1,
    ) + bits::bits_of(1, 2) + (tokens::tokens_bits(ts, lit, dist) + tokens::symbol_bits(lit, 256))
}

proof fn lemma_fixed_bits(ts: Seq<Token>, last: bool, offset: int)
    requires
        lz77::tokens_ok(ts),
        tokens::covered(
            ts,
            Seq::new(288, |i: int| huffman::fixed_literal(i)),
            Seq::new(32, |i: int| 5u8),
        ),
    ensures
        encodes(fixed_bits(ts, last), offset, lz77::spelled(ts), last),
{
    reveal(encodes);
    let w = fixed_bits(ts, last);
    let chunk = lz77::spelled(ts);
    let lit = Seq::new(288, |i: int| huffman::fixed_literal(i));
    let dist = Seq::new(32, |i: int| 5u8);
    assert forall|data: Seq<u8>, p: int, out: Seq<u8>|
        #![trigger inflate::blocks(Variant::Deflate, data, p, out, false), bits::has(data, p, w)]
        bits::has(data, p, w) && (p - offset) % 8 == 0 implies inflate::blocks(
        Variant::Deflate,
        data,
        p,
        out,
        false,
    ) == inflate::blocks(Variant::Deflate, data, p + w.len(), out + chunk, last) by {
        lemma2_to64();
        let l: nat = if last {
            1
        } else {
            0
        };
        let b1 = bits::bits_of(l, 1);
        let b2 = bits::bits_of(1, 2);
        let b3 = tokens::tokens_bits(ts, lit, dist) + tokens::symbol_bits(lit, 256);
        bits::lemma_has_concat(data, p, b1 + b2, b3);
        bits::lemma_has_concat(data, p, b1, b2);
        tokens::lemma_field_read(data, p, l, 1);
        tokens::lemma_field_read(data, p + 1, 1, 2);
        tokens::lemma_tokens_read(data, p + 3, out, ts, lit, dist, last);
    }
}

/// A block with codes of its own.
spec fn dynamic_bits(ts: Seq<Token>, h: DynamicHeader, last: bool) -> Seq<bool> {
    let lit = h.lit_lengths@;
    let dist = h.dist_lengths@;
    bits::bits_of(
        if last {
            1
        } else {
            0
        },
        1,
    ) + bits::bits_of(2, 2) + h.bits() + (tokens::tokens_bits(ts, lit, dist) + tokens::symbol_bits(
        lit,
        256,
    ))
}

proof fn lemma_dynamic_bits(ts: Seq<Token>, h: DynamicHeader, last: bool, offset: int)
    requires
        h.wf(),
        lz77::tokens_ok(ts),
        tokens::covered(ts, h.lit_lengths@, h.dist_lengths@),
    ensures
        encodes(dynamic_bits(ts, h, last), offset, lz77::spelled(ts), last),
{
    reveal(encodes);
    let w = dynamic_bits(ts, h, last);
    let chunk = lz77::spelled(ts);
    let lit = h.lit_lengths@;
    let dist = h.dist_lengths@;
    assert forall|data: Seq<u8>, p: int, out: Seq<u8>|
        #![trigger inflate::blocks(Variant::Deflate, data, p, out, false), bits::has(data, p, w)]
        bits::has(data, p, w) && (p - offset) % 8 == 0 implies inflate::blocks(
        Variant::Deflate,
        data,
        p,
        out,
        false,
    ) == inflate::blocks(Variant::Deflate, data, p + w.len(), out + chunk, last) by {
        lemma2_to64();
        let l: nat = if last {
            1
        } else {
            0
        };
        let b1 = bits::bits_of(l, 1);
        let b2 = bits::bits_of(2, 2);
        let b3 = h.bits();
        let b4 = tokens::tokens_bits(ts, lit, dist) + tokens::symbol_bits(lit, 256);
        bits::lemma_has_concat(data, p, b1 + b2 + b3, b4);
        bits::lemma_has_concat(data, p, b1 + b2, b3);
        bits::lemma_has_concat(data, p, b1, b2);
        tokens::lemma_field_read(data, p, l, 1);
        tokens::lemma_field_read(data, p + 1, 2, 2);
        h.lemma_read(data, p + 3);
        tokens::lemma_tokens_read(data, p + 3 + b3.len(), out, ts, lit, dist, last);
    }
}

/// Data in stored blocks, each as long as can be, the first of them at bit
/// `start`.
pub closed spec fn stored_run(start: int, data: Seq<u8>, last: bool) -> Seq<bool>
    decreases data.len(),
{
    if data.len() <= MAX_STORED {
        stored_bits(start, data, last)
    } else {
        let head = stored_bits(start, data.take(MAX_STORED as int), false);
        head + stored_run(start + head.len(), data.skip(MAX_STORED as int), last)
    }
}

/// How many bits the tokens and the end of the block take with these codes.
pub open spec fn payload_size(ts: Seq<Token>, lit: Seq<u8>, dist: Seq<u8>) -> int {
    tokens::tokens_bits(ts, lit, dist).len() + lit[256]
}

/// A block with the codes that its own tokens ask for.
pub open spec fn own_bits(ts: Seq<Token>, last: bool) -> Seq<bool> {
    let lit = header::literal_code(literal_counts(ts));
    let dist = header::distance_code(distance_counts(ts));
    bits::bits_of(
        if last {
            1
        } else {
            0
        },
        1,
    ) + bits::bits_of(2, 2) + header::head_bits(lit, dist) + (tokens::tokens_bits(ts, lit, dist)
        + tokens::symbol_bits(lit, 256))
}

/// What a block of the data is made of that splits into these tokens: stored
/// blocks, the fixed codes or its own, whichever takes the fewest bits.
pub closed spec fn smallest_bits(start: int, data: Seq<u8>, ts: Seq<Token>, last: bool) -> Seq<
    bool,
> {
    let n = data.len() as int;
    let lit = header::literal_code(literal_counts(ts));
    let dist = header::distance_code(distance_counts(ts));
    let stored = 42 * ((n + 65_534) / 65_535) + 8 * n;
    let fixed = 3 + payload_size(
        ts,
        Seq::new(288, |i: int| huffman::fixed_literal(i)),
        Seq::new(32, |i: int| 5u8),
    );
    let own = 3 + header::head_bits(lit, dist).len() + payload_size(ts, lit, dist);
    if stored <= fixed && stored <= own {
        stored_run(start, data, last)
    } else if fixed <= own {
        fixed_bits(ts, last)
    } else {
        own_bits(ts, last)
    }
}

/// Whether data is probed before it is compressed.
pub open spec fn is_probed(data: Seq<u8>) -> bool {
    data.len() >= 2 * PROBE_SIZE
}

/// Whether less than two in a hundred of the first bytes lie in repeats.
pub open spec fn looks_barren(level: Level, k: Look, data: Seq<u8>) -> bool {
    is_probed(data) && matched(lz77::split_at(level, k, data.take(PROBE_SIZE as int))) * 100
        < PROBE_SIZE * INCOMPRESSIBLE_PERCENT
}

/// What the finder knows after the probe.
pub open spec fn probed(level: Level, k: Look, data: Seq<u8>) -> Look {
    if is_probed(data) {
        lz77::look_after(level, k, data.take(PROBE_SIZE as int))
    } else {
        k
    }
}

/// The bits of one block at bit `start`. Without data there is none, but for
/// an empty one at the end. The level that stores takes data as it is, and so
/// does every other where the first bytes hold next to no repeats; else the
/// smallest form of what the finder makes of it is taken.
pub closed spec fn block_bits(
    level: Level,
    k: Look,
    start: int,
    data: Seq<u8>,
    last: bool,
) -> Seq<bool> {
    if data.len() == 0 {
        if last {
            fixed_bits(Seq::empty(), true)
        } else {
            Seq::empty()
        }
    } else if level == Level::Stored || looks_barren(level, k, data) {
        stored_run(start, data, last)
    } else {
        smallest_bits(start, data, lz77::split_at(level, probed(level, k, data), data), last)
    }
}

/// What the finder knows after a block.
pub closed spec fn block_look(level: Level, k: Look, data: Seq<u8>) -> Look {
    if data.len() == 0 || level == Level::Stored {
        k
    } else if looks_barren(level, k, data) {
        probed(level, k, data)
    } else {
        lz77::look_after(level, probed(level, k, data), data)
    }
}

proof fn lemma_stored_run_shift(a: int, b: int, data: Seq<u8>, last: bool)
    requires
        0 <= a,
        0 <= b,
        (a - b) % 8 == 0,
    ensures
        stored_run(a, data, last) == stored_run(b, data, last),
    decreases data.len(),
{
    let head = if data.len() <= MAX_STORED {
        data
    } else {
        data.take(MAX_STORED as int)
    };
    let l = last && data.len() <= MAX_STORED;
    assert(stored_bits(a, head, l) == stored_bits(b, head, l)) by {
        reveal(stored_bits);
        assert(bits::align8(a + 3) - (a + 3) == bits::align8(b + 3) - (b + 3));
    }
    if data.len() > MAX_STORED {
        let n = stored_bits(a, head, false).len() as int;
        lemma_stored_run_shift(a + n, b + n, data.skip(MAX_STORED as int), last);
    }
}

/// A block is the same wherever in a byte it starts alike.
proof fn lemma_block_shift(level: Level, k: Look, a: int, b: int, data: Seq<u8>, last: bool)
    requires
        0 <= a,
        0 <= b,
        (a - b) % 8 == 0,
    ensures
        block_bits(level, k, a, data, last) == block_bits(level, k, b, data, last),
{
    lemma_stored_run_shift(a, b, data, last);
}

impl BlockWriter {
    spec fn wf(&self) -> bool {
        &&& self.out.wf()
        &&& self.finder.wf()
        &&& self.fixed_lit_lengths@ == Seq::new(288, |i: int| huffman::fixed_literal(i))
        &&& self.fixed_dist_lengths@ == Seq::new(32, |i: int| 5u8)
        &&& tokens::usable(self.fixed_lit_lengths@)
        &&& tokens::usable(self.fixed_dist_lengths@)
        &&& codes_match(self.fixed_lit_codes@, self.fixed_lit_lengths@)
        &&& codes_match(self.fixed_dist_codes@, self.fixed_dist_lengths@)
    }

    fn new(level: Level) -> (r: Self)
        ensures
            r.wf(),
            r.out@ == Seq::<bool>::empty(),
            r.finder.looks_like(level),
            r.finder.look() == lz77::first_look(),
    {
        let lit: [u8; 288] = fixed_literal_lengths();
        let dist: [u8; 32] = fixed_distance_lengths();
        let mut fixed_lit_lengths: Vec<u8> = Vec::with_capacity(288);
        fixed_lit_lengths.extend_from_slice(lit.as_slice());
        let mut fixed_dist_lengths: Vec<u8> = Vec::with_capacity(32);
        fixed_dist_lengths.extend_from_slice(dist.as_slice());
        assert(fixed_lit_lengths@ =~= lit@);
        assert(fixed_dist_lengths@ =~= dist@);
        let fixed_lit_codes: Vec<u16> = canonical_codes(fixed_lit_lengths.as_slice());
        let fixed_dist_codes: Vec<u16> = canonical_codes(fixed_dist_lengths.as_slice());
        BlockWriter {
            out: BitWriter::with_capacity(BLOCK_SIZE / 2),
            finder: MatchFinder::new(level),
            tokens: Vec::new(),
            fixed_lit_lengths,
            fixed_dist_lengths,
            fixed_lit_codes,
            fixed_dist_codes,
        }
    }

    #[verifier::spinoff_prover]
    #[verifier::rlimit(60)]
    fn write_block(&mut self, data: &[u8], is_final: bool, level: Level)
        requires
            old(self).wf(),
            old(self).finder.looks_like(level),
            data@.len() <= BLOCK_SIZE,
        ensures
            final(self).wf(),
            final(self).finder.looks_like(level),
            final(self).finder.look() == block_look(level, old(self).finder.look(), data@),
            final(self).out@ == old(self).out@ + block_bits(
                level,
                old(self).finder.look(),
                old(self).out@.len() as int,
                data@,
                is_final,
            ),
            data@.len() > 0 || is_final ==> extended(
                old(self).out@,
                final(self).out@,
                data@,
                is_final,
            ),
            data@.len() == 0 && !is_final ==> final(self).out@ == old(self).out@,
            data@.len() == 0 && is_final ==> final(self).out@ == old(self).out@ + fixed_bits(
                Seq::empty(),
                true,
            ),
            level == Level::Stored && data@.len() > 0 && old(self).out@.len() % 8 == 0
                ==> final(self).out@ == old(self).out@ + bits::all_bits(
                stored::run(data@, is_final),
            ),
    {
        if data.len() == 0 {
            if is_final {
                self.tokens.clear();
                assert(lz77::spelled(self.tokens@) =~= data@);
                assert(self.tokens@ =~= Seq::<Token>::empty());
                self.write_fixed(is_final);
            }
            return;
        }
        if level == Level::Stored {
            self.write_stored(data, is_final);
            return;
        }
        let ghost k = self.finder.look();
        if data.len() >= PROBE_SIZE * 2 {
            assert(data@.subrange(0, PROBE_SIZE as int) =~= data@.take(PROBE_SIZE as int));
            self.finder.tokenize(&data[0..PROBE_SIZE], &mut self.tokens);
            assert(self.finder.looks_like(level));
            let matched: u64 = matched_bytes(&self.tokens);
            if matched * 100 < (PROBE_SIZE * INCOMPRESSIBLE_PERCENT) as u64 {
                self.write_stored(data, is_final);
                return;
            }
        }
        assert(self.finder.looks_like(level));
        self.finder.tokenize(data, &mut self.tokens);
        assert(self.finder.looks_like(level));
        proof {
            lz77::lemma_token_count(self.tokens@);
            lemma_fixed_covers(self.tokens@, self.fixed_lit_lengths@, self.fixed_dist_lengths@);
        }
        assert(self.tokens@ == lz77::split_at(level, probed(level, k, data@), data@));
        let freqs: Freqs = Freqs::count(&self.tokens);
        let fixed_size: u64 = 3 + payload_bits(
            &self.tokens,
            &self.fixed_lit_lengths,
            &self.fixed_dist_lengths,
        );
        let dynamic: DynamicHeader = DynamicHeader::build(&freqs.literal, &freqs.distance);
        proof {
            dynamic.lemma_usable();
            assert forall|i: int| 0 <= i < self.tokens@.len() implies tokens::token_covered(
                #[trigger] self.tokens@[i],
                dynamic.lit_lengths@,
                dynamic.dist_lengths@,
            ) by {
                let t = self.tokens@[i];
                assert(token_counted(freqs, t));
                assert(lz77::token_ok(t, lz77::spelled(self.tokens@.take(i)).len()));
                if let Token::Match { len, dist } = t {
                    tokens::lemma_length_code(len as int);
                    tokens::lemma_dist_code(dist as int);
                }
            }
        }
        let dynamic_size: u64 = 3 + dynamic.header_bits() + payload_bits(
            &self.tokens,
            &dynamic.lit_lengths,
            &dynamic.dist_lengths,
        );
        let chunks: u64 = (data.len() as u64 + 65_534) / 65_535;
        assert(chunks <= 5);
        let stored_size: u64 = 42 * chunks + 8 * (data.len() as u64);
        if stored_size <= fixed_size && stored_size <= dynamic_size {
            self.write_stored(data, is_final);
        } else if fixed_size <= dynamic_size {
            self.write_fixed(is_final);
        } else {
            self.write_dynamic(&dynamic, is_final);
        }
    }

    #[verifier::spinoff_prover]
    #[verifier::rlimit(60)]
    fn write_stored(&mut self, data: &[u8], is_final: bool)
        requires
            old(self).wf(),
        ensures
            final(self).wf(),
            final(self).finder == old(self).finder,
            extended(old(self).out@, final(self).out@, data@, is_final),
            final(self).out@.len() % 8 == 0,
            final(self).out@ == old(self).out@ + stored_run(
                old(self).out@.len() as int,
                data@,
                is_final,
            ),
            old(self).out@.len() % 8 == 0 ==> final(self).out@ == old(self).out@ + bits::all_bits(
                stored::run(data@, is_final),
            ),
    {
        let ghost base = self.out@;
        let ghost plain = base + stored_run(base.len() as int, data@, is_final);
        let ghost whole = base + bits::all_bits(stored::run(data@, is_final));
        let mut from: usize = 0;
        let mut more: bool = true;
        proof {
            lemma_encodes_nothing(base.len() as int);
            assert(base.take(base.len() as int) =~= base);
            assert(base.skip(base.len() as int) =~= Seq::<bool>::empty());
            assert(data@.take(0) =~= Seq::<u8>::empty());
            assert(data@.skip(0) =~= data@);
        }
        while more
            invariant
                self.wf(),
                self.finder == old(self).finder,
                base == old(self).out@,
                more ==> plain == self.out@ + stored_run(
                    self.out@.len() as int,
                    data@.skip(from as int),
                    is_final,
                ),
                !more ==> plain == self.out@,
                whole == base + bits::all_bits(stored::run(data@, is_final)),
                base.len() % 8 == 0 && more ==> self.out@.len() % 8 == 0 && whole == self.out@
                    + bits::all_bits(stored::run(data@.skip(from as int), is_final)),
                base.len() % 8 == 0 && !more ==> self.out@ == whole,
                from <= data@.len(),
                from == 0 || from < data@.len() || !more,
                more ==> extended(base, self.out@, data@.take(from as int), false),
                !more ==> from == data@.len() && extended(base, self.out@, data@, is_final)
                    && self.out@.len() % 8 == 0,
            decreases
                    data@.len() - from,
                    if more {
                        1int
                    } else {
                        0
                    },
        {
            let left: usize = data.len() - from;
            let n: usize = if left < MAX_STORED {
                left
            } else {
                MAX_STORED
            };
            let last: bool = is_final && n == left;
            let ghost before = self.out@;
            self.write_stored_block(&data[from..from + n], last);
            proof {
                lemma_stored_step(base, before, self.out@, data@, from as int, n as int, last);
                if n == left {
                    assert(data@.take(from + n) =~= data@);
                }
                let rest = data@.skip(from as int);
                let chunk = data@.subrange(from as int, from + n);
                if n == left {
                    assert(chunk =~= rest);
                    assert(plain =~= self.out@);
                } else {
                    assert(chunk =~= rest.take(MAX_STORED as int));
                    assert(rest.skip(MAX_STORED as int) =~= data@.skip(from + n));
                    assert(plain =~= self.out@ + stored_run(
                        self.out@.len() as int,
                        data@.skip(from + n),
                        is_final,
                    ));
                }
                if base.len() % 8 == 0 {
                    lemma_stored_bytes(before.len() as int, chunk, last);
                    if n == left {
                        assert(chunk =~= rest);
                    } else {
                        assert(chunk =~= rest.take(MAX_STORED as int));
                        assert(rest.skip(MAX_STORED as int) =~= data@.skip(from + n));
                        bits::lemma_all_bits_concat(
                            stored::block(chunk, last),
                            stored::run(data@.skip(from + n), is_final),
                        );
                    }
                    assert(whole =~= if n == left {
                        self.out@
                    } else {
                        self.out@ + bits::all_bits(stored::run(data@.skip(from + n), is_final))
                    });
                }
            }
            from = from + n;
            more = from < data.len();
        }
    }

    fn write_stored_block(&mut self, chunk: &[u8], last: bool)
        requires
            old(self).wf(),
            chunk@.len() <= MAX_STORED,
        ensures
            final(self).wf(),
            final(self).finder == old(self).finder,
            final(self).out@ == old(self).out@ + stored_bits(
                old(self).out@.len() as int,
                chunk@,
                last,
            ),
            final(self).out@.len() % 8 == 0,
    {
        let flag: u32 = if last {
            1
        } else {
            0
        };
        let n: u32 = chunk.len() as u32;
        self.out.write_bits(flag, 1);
        self.out.write_bits(0, 2);
        self.out.align_to_byte();
        self.out.write_bits(n, 16);
        self.out.write_bits(0xffff - n, 16);
        self.out.write_bytes(chunk);
        proof {
            reveal(stored_bits);
            assert(self.out@ =~= old(self).out@ + stored_bits(
                old(self).out@.len() as int,
                chunk@,
                last,
            ));
        }
    }

    fn write_fixed(&mut self, is_final: bool)
        requires
            old(self).wf(),
            lz77::tokens_ok(old(self).tokens@),
        ensures
            final(self).wf(),
            final(self).finder == old(self).finder,
            extended(
                old(self).out@,
                final(self).out@,
                lz77::spelled(old(self).tokens@),
                is_final,
            ),
            final(self).out@ == old(self).out@ + fixed_bits(old(self).tokens@, is_final),
    {
        proof {
            lemma_fixed_covers(self.tokens@, self.fixed_lit_lengths@, self.fixed_dist_lengths@);
            lemma_fixed_bits(self.tokens@, is_final, self.out@.len() as int);
            lemma_extended(
                self.out@,
                fixed_bits(self.tokens@, is_final),
                lz77::spelled(self.tokens@),
                is_final,
            );
        }
        let flag: u32 = if is_final {
            1
        } else {
            0
        };
        self.out.write_bits(flag, 1);
        self.out.write_bits(1, 2);
        emit_tokens(
            &mut self.out,
            &self.tokens,
            &self.fixed_lit_codes,
            &self.fixed_lit_lengths,
            &self.fixed_dist_codes,
            &self.fixed_dist_lengths,
        );
        assert(self.out@ =~= old(self).out@ + fixed_bits(old(self).tokens@, is_final));
    }

    fn write_dynamic(&mut self, header: &DynamicHeader, is_final: bool)
        requires
            old(self).wf(),
            header.wf(),
            lz77::tokens_ok(old(self).tokens@),
            tokens::covered(old(self).tokens@, header.lit_lengths@, header.dist_lengths@),
        ensures
            final(self).wf(),
            final(self).finder == old(self).finder,
            extended(
                old(self).out@,
                final(self).out@,
                lz77::spelled(old(self).tokens@),
                is_final,
            ),
            final(self).out@ == old(self).out@ + dynamic_bits(
                old(self).tokens@,
                *header,
                is_final,
            ),
    {
        proof {
            header.lemma_usable();
            lemma_dynamic_bits(self.tokens@, *header, is_final, self.out@.len() as int);
            lemma_extended(
                self.out@,
                dynamic_bits(self.tokens@, *header, is_final),
                lz77::spelled(self.tokens@),
                is_final,
            );
        }
        let flag: u32 = if is_final {
            1
        } else {
            0
        };
        self.out.write_bits(flag, 1);
        self.out.write_bits(2, 2);
        write_header(&mut self.out, header);
        let lit_codes: Vec<u16> = canonical_codes(header.lit_lengths.as_slice());
        let dist_codes: Vec<u16> = canonical_codes(header.dist_lengths.as_slice());
        emit_tokens(
            &mut self.out,
            &self.tokens,
            &lit_codes,
            &header.lit_lengths,
            &dist_codes,
            &header.dist_lengths,
        );
        assert(self.out@ =~= old(self).out@ + dynamic_bits(old(self).tokens@, *header, is_final));
    }
}

fn write_header(out: &mut BitWriter, header: &DynamicHeader)
    requires
        old(out).wf(),
        header.wf(),
    ensures
        final(out).wf(),
        final(out)@ == old(out)@ + header.bits(),
{
    let ghost cl = header.cl_lengths@;
    let ghost items = header.stream.items@;
    proof {
        header.lemma_usable();
    }
    out.write_bits((header.hlit - 257) as u32, 5);
    out.write_bits((header.hdist - 1) as u32, 5);
    out.write_bits((header.hclen - 4) as u32, 4);
    let ghost start = out@;
    let mut k: usize = 0;
    assert(out@ =~= start + header::order_bits(cl, 0));
    while k < header.hclen
        invariant
            k <= header.hclen <= 19,
            out.wf(),
            cl == header.cl_lengths@,
            cl.len() == 19,
            out@ == start + header::order_bits(cl, k as nat),
        decreases header.hclen - k,
    {
        let slot: usize = CODE_LENGTH_ORDER[k];
        out.write_bits(header.cl_lengths[slot] as u32, 3);
        k = k + 1;
        assert(out@ =~= start + header::order_bits(cl, k as nat));
    }
    let cl_codes: Vec<u16> = canonical_codes(header.cl_lengths.as_slice());
    let ghost middle = out@;
    let mut i: usize = 0;
    assert(items.take(0) =~= Seq::<Item>::empty());
    assert(out@ =~= middle + header::items_bits(items.take(0), cl));
    while i < header.stream.items.len()
        invariant
            i <= items.len(),
            items == header.stream.items@,
            cl == header.cl_lengths@,
            header.wf(),
            out.wf(),
            codes_match(cl_codes@, cl),
            out@ == middle + header::items_bits(items.take(i as int), cl),
        decreases items.len() - i,
    {
        let it: Item = header.stream.items[i];
        proof {
            header.lemma_usable();
            assert(cl[items[i as int].0 as int] > 0);
            assert(cl[it.0 as int] <= MAX_BITS);
            assert(items.take(i + 1).drop_last() =~= items.take(i as int));
        }
        write_symbol(out, &cl_codes, &header.cl_lengths, it.0 as usize);
        out.write_bits(it.1 as u32, it.2 as u32);
        assert(out@ =~= middle + header::items_bits(items.take(i + 1), cl));
        i = i + 1;
    }
    assert(items.take(i as int) =~= items);
    assert(out@ =~= old(out)@ + header.bits());
}

proof fn lemma_fixed_covers(ts: Seq<Token>, lit: Seq<u8>, dist: Seq<u8>)
    requires
        lz77::tokens_ok(ts),
        lit == Seq::new(288, |i: int| huffman::fixed_literal(i)),
        dist == Seq::new(32, |i: int| 5u8),
        tokens::usable(lit),
        tokens::usable(dist),
    ensures
        tokens::covered(ts, lit, dist),
{
    assert forall|i: int| 0 <= i < ts.len() implies tokens::token_covered(
        #[trigger] ts[i],
        lit,
        dist,
    ) by {
        assert(lz77::token_ok(ts[i], lz77::spelled(ts.take(i)).len()));
        if let Token::Match { len, dist: d } = ts[i] {
            tokens::lemma_length_code(len as int);
            tokens::lemma_dist_code(d as int);
        }
    }
}

/// How many bytes lie in repeats.
pub open spec fn matched(ts: Seq<Token>) -> nat
    decreases ts.len(),
{
    if ts.len() == 0 {
        0
    } else {
        matched(ts.drop_last()) + match ts.last() {
            Token::Literal(b) => 0,
            Token::Match { len, dist } => len as nat,
        }
    }
}

/// How many bytes lie in repeats.
fn matched_bytes(ts: &Vec<Token>) -> (r: u64)
    requires
        lz77::tokens_ok(ts@),
        lz77::spelled(ts@).len() <= BLOCK_SIZE,
    ensures
        r <= BLOCK_SIZE,
        r == matched(ts@),
{
    let mut r: u64 = 0;
    let mut i: usize = 0;
    assert(ts@.take(0) =~= Seq::<Token>::empty());
    while i < ts.len()
        invariant
            i <= ts@.len(),
            lz77::tokens_ok(ts@),
            lz77::spelled(ts@).len() <= BLOCK_SIZE,
            r <= lz77::spelled(ts@.take(i as int)).len() <= BLOCK_SIZE,
            r == matched(ts@.take(i as int)),
        decreases ts@.len() - i,
    {
        proof {
            assert(ts@.take(i + 1).drop_last() =~= ts@.take(i as int));
            lz77::lemma_spelled_take(ts@, i as int);
            lz77::lemma_spelled_grows(ts@, i + 1);
            lz77::lemma_apply_len(lz77::spelled(ts@.take(i as int)), ts@[i as int]);
        }
        match ts[i] {
            Token::Match { len, dist } => {
                r = r + len as u64;
            },
            Token::Literal(b) => {},
        }
        i = i + 1;
    }
    assert(ts@.take(i as int) =~= ts@);
    r
}

/// Blocks that were written, and what the finder knows.
pub struct Made {
    pub bits: Seq<bool>,
    pub look: Look,
}

/// One more block.
pub open spec fn block_made(level: Level, m: Made, data: Seq<u8>, last: bool) -> Made {
    Made {
        bits: m.bits + block_bits(level, m.look, m.bits.len() as int, data, last),
        look: block_look(level, m.look, data),
    }
}

/// The first `k` whole blocks of the data.
pub open spec fn whole_blocks(level: Level, data: Seq<u8>, k: nat) -> Made
    decreases k,
{
    if k == 0 {
        Made { bits: Seq::empty(), look: lz77::first_look() }
    } else {
        block_made(
            level,
            whole_blocks(level, data, (k - 1) as nat),
            data.subrange((k - 1) * BLOCK_SIZE, k * BLOCK_SIZE),
            false,
        )
    }
}

/// All data in blocks, `last` marking the last one.
pub open spec fn all_blocks(level: Level, data: Seq<u8>, last: bool) -> Made {
    let k = if data.len() == 0 {
        0
    } else {
        ((data.len() - 1) / BLOCK_SIZE as int) as nat
    };
    block_made(level, whole_blocks(level, data, k), data.skip((k * BLOCK_SIZE) as int), last)
}

/// The bits of a piece of a stream. One that is not the last ends with an
/// empty stored block.
pub open spec fn piece_bits(level: Level, data: Seq<u8>, is_final: bool) -> Seq<bool> {
    let all = all_blocks(level, data, is_final).bits;
    if is_final {
        all
    } else {
        all + stored_run(all.len() as int, Seq::empty(), false)
    }
}

/// The bits of a stream that was written block by block: what is left after
/// whole blocks is the last one, even if that is nothing.
pub open spec fn stream_bits(level: Level, data: Seq<u8>) -> Seq<bool> {
    let k = data.len() / BLOCK_SIZE as nat;
    block_made(
        level,
        whole_blocks(level, data, k),
        data.skip((k * BLOCK_SIZE) as int),
        true,
    ).bits
}

/// Whole blocks stay the same with more data behind them.
proof fn lemma_whole_more(level: Level, data: Seq<u8>, more: Seq<u8>, k: nat)
    requires
        k * BLOCK_SIZE <= data.len(),
    ensures
        whole_blocks(level, data + more, k) == whole_blocks(level, data, k),
    decreases k,
{
    if k > 0 {
        lemma_whole_more(level, data, more, (k - 1) as nat);
        assert((data + more).subrange((k - 1) * BLOCK_SIZE, k * BLOCK_SIZE) =~= data.subrange(
            (k - 1) * BLOCK_SIZE,
            k * BLOCK_SIZE,
        ));
    }
}

/// Write all of `data` in blocks, moving full bytes to `out`.
#[verifier::spinoff_prover]
#[verifier::rlimit(60)]
fn write_blocks(
    blocks: &mut BlockWriter,
    out: &mut Vec<u8>,
    data: &[u8],
    level: Level,
    is_final: bool,
)
    requires
        old(blocks).wf(),
        old(blocks).out@.len() == 0,
        old(out)@.len() == 0,
        old(blocks).finder.looks_like(level),
        old(blocks).finder.look() == lz77::first_look(),
    ensures
        final(blocks).wf(),
        final(blocks).finder.looks_like(level),
        ({
            let now = Made {
                bits: bits::all_bits(final(out)@) + final(blocks).out@,
                look: final(blocks).finder.look(),
            };
            now == if data@.len() == 0 {
                whole_blocks(level, data@, 0)
            } else {
                all_blocks(level, data@, is_final)
            }
        }),
        encodes(
            bits::all_bits(final(out)@) + final(blocks).out@,
            0,
            data@,
            is_final && data@.len() > 0,
        ),
        level == Level::Stored || data@.len() == 0 ==> final(out)@ == stored::runs(data@, is_final)
            && final(blocks).out@.len() == 0,
{
    let ghost mut written: Seq<bool> = Seq::empty();
    let mut offset: usize = 0;
    let mut closed: bool = false;
    let ghost mut k: nat = 0;
    proof {
        lemma_encodes_nothing(0);
        assert(data@.take(0) =~= Seq::<u8>::empty());
        assert(written =~= bits::all_bits(out@) + blocks.out@);
        assert(data@.skip(0) =~= data@);
        assert(out@ + stored::runs(data@, is_final) =~= stored::runs(data@, is_final));
    }
    while offset < data.len()
        invariant
            blocks.finder.looks_like(level),
            offset < data@.len() || data@.len() == 0 ==> offset == k * BLOCK_SIZE && (Made {
                bits: written,
                look: blocks.finder.look(),
            }) == whole_blocks(level, data@, k),
            offset == data@.len() && data@.len() > 0 ==> (Made {
                bits: written,
                look: blocks.finder.look(),
            }) == all_blocks(level, data@, is_final),
            level == Level::Stored || data@.len() == 0 ==> blocks.out@.len() == 0
                && stored::runs(data@, is_final) == out@ + stored::runs(
                data@.skip(offset as int),
                is_final,
            ),
            blocks.wf(),
            offset <= data@.len(),
            closed <==> is_final && offset == data@.len() && offset > 0,
            written == bits::all_bits(out@) + blocks.out@,
            encodes(written, 0, data@.take(offset as int), closed),
        decreases data@.len() - offset,
    {
        let end: usize = if data.len() - offset < BLOCK_SIZE {
            data.len()
        } else {
            offset + BLOCK_SIZE
        };
        let last: bool = is_final && end == data.len();
        let ghost held = blocks.out@;
        let ghost chunk = data@.subrange(offset as int, end as int);
        let ghost made = Made { bits: written, look: blocks.finder.look() };
        blocks.write_block(&data[offset..end], last, level);
        proof {
            lemma_block_shift(
                level,
                made.look,
                held.len() as int,
                written.len() as int,
                chunk,
                last,
            );
            if end == data@.len() {
                assert((data@.len() - 1) / BLOCK_SIZE as int == k) by {
                    vstd::arithmetic::div_mod::lemma_fundamental_div_mod_converse(
                        data@.len() - 1,
                        BLOCK_SIZE as int,
                        k as int,
                        data@.len() - 1 - k * BLOCK_SIZE,
                    );
                }
                assert(chunk =~= data@.skip((k * BLOCK_SIZE) as int));
            } else {
                assert(chunk =~= data@.subrange(k * BLOCK_SIZE, (k + 1) * BLOCK_SIZE));
            }
            let v = blocks.out@.skip(held.len() as int);
            lemma_encodes_shift(v, held.len() as int, written.len() as int, chunk, last);
            lemma_encodes_concat(written, v, 0, data@.take(offset as int), chunk, last);
            assert(data@.take(offset as int) + chunk =~= data@.take(end as int));
            assert(blocks.out@ =~= held + v);
            assert(written + v =~= bits::all_bits(out@) + blocks.out@);
            assert(v =~= block_bits(level, made.look, written.len() as int, chunk, last));
            written = written + v;
            k = k + 1;
        }
        let ghost before = blocks.out@;
        let full: Vec<u8> = blocks.out.drain_complete_bytes();
        proof {
            bits::lemma_all_bits_concat(out@, full@);
            let n = bitwriter::whole(before);
            assert(before =~= before.take(n) + before.skip(n));
            assert(written =~= bits::all_bits(out@ + full@) + blocks.out@);
            if level == Level::Stored {
                let rest = data@.skip(offset as int);
                lemma_drained(held, before, stored::run(chunk, last), full@);
                if rest.len() <= BLOCK_SIZE {
                    assert(chunk =~= rest);
                    assert(data@.skip(end as int) =~= Seq::<u8>::empty());
                } else {
                    assert(chunk =~= rest.take(BLOCK_SIZE as int));
                    assert(rest.skip(BLOCK_SIZE as int) =~= data@.skip(end as int));
                }
                assert(stored::runs(data@, is_final) =~= (out@ + full@) + stored::runs(
                    data@.skip(end as int),
                    is_final,
                ));
            }
        }
        out.extend_from_slice(full.as_slice());
        offset = end;
        closed = last;
    }
    assert(data@.take(offset as int) =~= data@);
    assert(data@.skip(offset as int) =~= Seq::<u8>::empty());
}

/// Whole bytes written into an empty writer come out as they are.
proof fn lemma_drained(held: Seq<bool>, before: Seq<bool>, b: Seq<u8>, full: Seq<u8>)
    requires
        held.len() == 0,
        before == held + bits::all_bits(b),
        bits::all_bits(full) == before.take(bitwriter::whole(before)),
    ensures
        full == b,
        before.skip(bitwriter::whole(before)).len() == 0,
{
    assert(before =~= bits::all_bits(b));
    assert(before.len() == 8 * b.len());
    assert(before.take(bitwriter::whole(before)) =~= before);
    stored::lemma_same_bits(full, b);
}

/// Blocks added to the ones in the writer.
proof fn lemma_more_blocks(
    front: Seq<bool>,
    held: Seq<bool>,
    now: Seq<bool>,
    x: Seq<u8>,
    y: Seq<u8>,
    last: bool,
)
    requires
        front.len() % 8 == 0,
        encodes(front + held, 0, x, false),
        extended(held, now, y, last),
    ensures
        encodes(front + now, 0, x + y, last),
{
    let v = now.skip(held.len() as int);
    lemma_encodes_shift(v, held.len() as int, (front + held).len() as int, y, last);
    lemma_encodes_concat(front + held, v, 0, x, y, last);
    assert(now =~= held + v);
    assert((front + held) + v =~= front + now);
}

/// The bits that remain, filled up to a whole byte, after whole bytes.
proof fn lemma_padded_tail(front: Seq<u8>, tail: Seq<bool>, rest: Seq<u8>)
    requires
        bits::all_bits(rest) == bitwriter::padded(tail),
    ensures
        bits::all_bits(front + rest) == bitwriter::padded(bits::all_bits(front) + tail),
{
    bits::lemma_all_bits_concat(front, rest);
    assert(bits::all_bits(front + rest) =~= bitwriter::padded(bits::all_bits(front) + tail));
}

/// The bytes of a piece in which nothing is compressed.
proof fn lemma_piece(front: Seq<u8>, tail: Seq<bool>, rest: Seq<u8>, data: Seq<u8>, is_final: bool)
    requires
        front == stored::runs(data, is_final),
        bits::all_bits(rest) == bitwriter::padded(tail),
        tail == if !is_final {
            bits::all_bits(stored::run(Seq::empty(), false))
        } else if data.len() == 0 {
            fixed_bits(Seq::empty(), true)
        } else {
            Seq::empty()
        },
    ensures
        front + rest == stored::piece(data, is_final),
{
    if !is_final {
        assert(bitwriter::padded(tail) =~= tail);
        stored::lemma_same_bits(rest, stored::block(Seq::empty(), false));
    } else if data.len() == 0 {
        stored::lemma_empty_end();
        let lit = Seq::new(288, |i: int| huffman::fixed_literal(i));
        let w = bits::bits_of(1, 1) + bits::bits_of(1, 2) + tokens::symbol_bits(lit, 256);
        assert(tail =~= w);
        stored::lemma_same_bits(rest, seq![3u8, 0u8]);
        assert(front + rest =~= rest);
    } else {
        assert(bitwriter::padded(tail) =~= bits::all_bits(Seq::<u8>::empty()));
        stored::lemma_same_bits(rest, Seq::empty());
        assert(front + rest =~= front);
    }
}

/// Compress a piece of a longer stream. Pieces end at whole bytes, and
/// those after one another, the last one final, make one stream.
#[verifier::spinoff_prover]
#[verifier::rlimit(60)]
pub fn compress_chunk(data: &[u8], level: Level, is_final: bool) -> (r: Vec<u8>)
    ensures
        !is_final ==> encodes(bits::all_bits(r@), 0, data@, false),
        is_final ==> is_stream(r@, data@),
        r@ == bitwriter::bytes_of(piece_bits(level, data@, is_final)),
        level == Level::Stored || data@.len() == 0 ==> r@ == stored::piece(data@, is_final),
{
    let mut blocks: BlockWriter = BlockWriter::new(level);
    let mut out: Vec<u8> = Vec::new();
    write_blocks(&mut blocks, &mut out, data, level, is_final);
    let ghost front = bits::all_bits(out@);
    let ghost held = blocks.out@;
    if is_final {
        if data.len() == 0 {
            blocks.write_block(data, true, level);
            proof {
                lemma_more_blocks(front, held, blocks.out@, data@, data@, true);
                assert(data@ + data@ =~= data@);
            }
        }
    } else {
        let none: [u8; 0] = [];
        blocks.write_stored(none.as_slice(), false);
        proof {
            lemma_more_blocks(front, held, blocks.out@, data@, none@, false);
            assert(data@ + none@ =~= data@);
            assert(none@ =~= Seq::<u8>::empty());
        }
    }
    let ghost tail = blocks.out@;
    let rest: Vec<u8> = blocks.out.take();
    proof {
        lemma_padded_tail(out@, tail, rest@);
        let now = front + held;
        if data@.len() == 0 {
            assert(data@.skip(0) =~= data@);
            lemma_block_shift(
                level,
                lz77::first_look(),
                held.len() as int,
                now.len() as int,
                data@,
                is_final,
            );
            assert(all_blocks(level, data@, is_final).bits =~= now + block_bits(
                level,
                lz77::first_look(),
                now.len() as int,
                data@,
                is_final,
            ));
        }
        if !is_final {
            lemma_stored_run_shift(
                held.len() as int,
                now.len() as int,
                Seq::empty(),
                false,
            );
        }
        assert(front + tail =~= piece_bits(level, data@, is_final));
        bitwriter::lemma_bytes_of(out@ + rest@, front + tail);
        if !is_final {
            assert(bitwriter::padded(front + tail) =~= front + tail);
        }
        assert(encodes(front + tail, 0, data@, is_final));
        if level == Level::Stored || data@.len() == 0 {
            assert(tail =~= if !is_final {
                bits::all_bits(stored::run(Seq::empty(), false))
            } else if data@.len() == 0 {
                fixed_bits(Seq::empty(), true)
            } else {
                Seq::empty()
            });
            lemma_piece(out@, tail, rest@, data@, is_final);
        }
    }
    let ghost bytes = out@ + rest@;
    out.extend_from_slice(rest.as_slice());
    assert(out@ =~= bytes);
    out
}

proof fn lemma_encodes_shift(w: Seq<bool>, a: int, b: int, chunk: Seq<u8>, last: bool)
    requires
        encodes(w, a, chunk, last),
        (a - b) % 8 == 0,
    ensures
        encodes(w, b, chunk, last),
{
    reveal(encodes);
    assert forall|data: Seq<u8>, p: int, out: Seq<u8>|
        #![trigger inflate::blocks(Variant::Deflate, data, p, out, false), bits::has(data, p, w)]
        bits::has(data, p, w) && (p - b) % 8 == 0 implies inflate::blocks(
        Variant::Deflate,
        data,
        p,
        out,
        false,
    ) == inflate::blocks(Variant::Deflate, data, p + w.len(), out + chunk, last) by {
        assert((p - a) % 8 == 0);
    }
}

/// Compress `data` into one stream, which decodes to it.
pub fn compress(data: &[u8], level: Level) -> (r: Vec<u8>)
    ensures
        is_stream(r@, data@),
        inflate::inflated(Variant::Deflate, r@) matches Some((all, end)) && all == data@,
        r@ == bitwriter::bytes_of(piece_bits(level, data@, true)),
        level == Level::Stored || data@.len() == 0 ==> r@ == stored::piece(data@, true),
{
    let r: Vec<u8> = compress_chunk(data, level, true);
    proof {
        lemma_stream_then(r@, Seq::empty(), data@);
        assert(r@ + Seq::<u8>::empty() =~= r@);
    }
    r
}

/// A piece that is not the last one, followed by a stream, is a stream that
/// decodes to one after the other.
pub proof fn lemma_chunks_join(a: Seq<u8>, b: Seq<u8>, x: Seq<u8>, y: Seq<u8>)
    requires
        encodes(bits::all_bits(a), 0, x, false),
        is_stream(b, y),
    ensures
        is_stream(a + b, x + y),
{
    let w = choose|w: Seq<bool>|
        encodes(w, 0, y, true) && bits::all_bits(b) == #[trigger] bitwriter::padded(w);
    let v = bits::all_bits(a);
    lemma_encodes_shift(w, 0, v.len() as int, y, true);
    lemma_encodes_concat(v, w, 0, x, y, true);
    bits::lemma_all_bits_concat(a, b);
    assert(bits::all_bits(a + b) =~= bitwriter::padded(v + w));
}

/// The end of a stream in which nothing is compressed.
proof fn lemma_stored_end(done: Seq<u8>, pending: Seq<u8>, tail: Seq<bool>, rest: Seq<u8>)
    requires
        done.len() % BLOCK_SIZE as nat == 0,
        pending.len() < BLOCK_SIZE,
        bits::all_bits(rest) == bitwriter::padded(tail),
        tail == if pending.len() == 0 {
            fixed_bits(Seq::empty(), true)
        } else {
            bits::all_bits(stored::run(pending, true))
        },
    ensures
        stored::runs(done, false) + rest == stored::stream(done + pending),
{
    if pending.len() == 0 {
        stored::lemma_empty_end();
        let lit = Seq::new(288, |i: int| huffman::fixed_literal(i));
        let w = bits::bits_of(1, 1) + bits::bits_of(1, 2) + tokens::symbol_bits(lit, 256);
        assert(tail =~= w);
        stored::lemma_same_bits(rest, seq![3u8, 0u8]);
        assert(done + pending =~= done);
    } else {
        assert(bitwriter::padded(tail) =~= tail);
        stored::lemma_same_bits(rest, stored::run(pending, true));
        stored::lemma_runs_more(done, pending, true);
    }
}

/// A Deflate encoder that takes its data piece by piece and adds the stream
/// to the end of a byte string.
pub struct DeflateEncoder {
    inner: Vec<u8>,
    level: Level,
    blocks: BlockWriter,
    pending: Vec<u8>,
    written: u64,
    start: Ghost<Seq<u8>>,
    done: Ghost<Seq<u8>>,
}

impl DeflateEncoder {
    /// What was there before the stream.
    pub closed spec fn before(&self) -> Seq<u8> {
        self.start@
    }

    /// All data taken so far.
    pub closed spec fn taken(&self) -> Seq<u8> {
        self.done@ + self.pending@
    }

    /// How hard it tries.
    pub closed spec fn level(&self) -> Level {
        self.level
    }

    /// At the level that stores, only whole stored blocks were written.
    spec fn stores(&self) -> bool {
        self.level == Level::Stored ==> {
            &&& self.blocks.out@.len() == 0
            &&& self.done@.len() % BLOCK_SIZE as nat == 0
            &&& self.inner@.skip(self.start@.len() as int) == stored::runs(self.done@, false)
        }
    }

    /// What is written so far are blocks of the data that went into them.
    pub closed spec fn wf(&self) -> bool {
        self.stores() && self.sound()
    }

    /// What was written and what the finder knows.
    spec fn made(&self) -> Made {
        Made {
            bits: bits::all_bits(self.inner@.skip(self.start@.len() as int)) + self.blocks.out@,
            look: self.blocks.finder.look(),
        }
    }

    spec fn sound(&self) -> bool {
        &&& self.blocks.finder.looks_like(self.level)
        &&& self.done@.len() % BLOCK_SIZE as nat == 0
        &&& self.made() == whole_blocks(
            self.level,
            self.done@,
            self.done@.len() / BLOCK_SIZE as nat,
        )
        &&& self.blocks.wf()
        &&& self.pending@.len() < BLOCK_SIZE
        &&& self.start@.len() <= self.inner@.len()
        &&& self.start@ == self.inner@.take(self.start@.len() as int)
        &&& self.written == self.inner@.len() - self.start@.len()
        &&& encodes(
            bits::all_bits(self.inner@.skip(self.start@.len() as int)) + self.blocks.out@,
            0,
            self.done@,
            false,
        )
    }

    /// An encoder that adds to the end of `inner`.
    pub fn new(inner: Vec<u8>, level: Level) -> (r: Self)
        ensures
            r.wf(),
            r.before() == inner@,
            r.taken() == Seq::<u8>::empty(),
            r.level() == level,
    {
        let ghost start = inner@;
        let r: DeflateEncoder = DeflateEncoder {
            inner,
            level,
            blocks: BlockWriter::new(level),
            pending: Vec::with_capacity(BLOCK_SIZE),
            written: 0,
            start: Ghost(start),
            done: Ghost(Seq::empty()),
        };
        proof {
            lemma_encodes_nothing(0);
            assert(start.take(start.len() as int) =~= start);
            assert(bits::all_bits(start.skip(start.len() as int)) + r.blocks.out@ =~= Seq::<
                bool,
            >::empty());
            assert(r.taken() =~= Seq::<u8>::empty());
            assert(start.skip(start.len() as int) =~= Seq::<u8>::empty());
        }
        r
    }

    /// Take more data. All of it is taken.
    pub fn write(&mut self, buf: &[u8]) -> (r: usize)
        requires
            old(self).wf(),
        ensures
            final(self).wf(),
            final(self).before() == old(self).before(),
            final(self).taken() == old(self).taken() + buf@,
            final(self).level() == old(self).level(),
            r == buf@.len(),
    {
        let mut from: usize = 0;
        assert(self.taken() =~= old(self).taken() + buf@.take(0));
        while from < buf.len()
            invariant
                self.wf(),
                from <= buf@.len(),
                self.before() == old(self).before(),
                self.level == old(self).level,
                self.taken() == old(self).taken() + buf@.take(from as int),
            decreases buf@.len() - from,
        {
            let room: usize = BLOCK_SIZE - self.pending.len();
            let n: usize = if buf.len() - from < room {
                buf.len() - from
            } else {
                room
            };
            let ghost before = self.taken();
            self.pending.extend_from_slice(&buf[from..from + n]);
            proof {
                assert(self.taken() =~= before + buf@.subrange(from as int, from + n));
                assert(buf@.take(from + n) =~= buf@.take(from as int) + buf@.subrange(
                    from as int,
                    from + n,
                ));
                assert(self.taken() =~= old(self).taken() + buf@.take(from + n));
            }
            if self.pending.len() == BLOCK_SIZE {
                self.emit_ready();
            }
            from = from + n;
        }
        assert(buf@.take(from as int) =~= buf@);
        buf.len()
    }

    #[verifier::spinoff_prover]
    #[verifier::rlimit(60)]
    fn emit_ready(&mut self)
        requires
            old(self).stores(),
            old(self).blocks.finder.looks_like(old(self).level),
            old(self).done@.len() % BLOCK_SIZE as nat == 0,
            old(self).made() == whole_blocks(
                old(self).level,
                old(self).done@,
                old(self).done@.len() / BLOCK_SIZE as nat,
            ),
            old(self).blocks.wf(),
            old(self).pending@.len() == BLOCK_SIZE,
            old(self).start@.len() <= old(self).inner@.len(),
            old(self).start@ == old(self).inner@.take(old(self).start@.len() as int),
            old(self).written == old(self).inner@.len() - old(self).start@.len(),
            encodes(
                bits::all_bits(old(self).inner@.skip(old(self).start@.len() as int)) + old(
                    self).blocks.out@,
                0,
                old(self).done@,
                false,
            ),
        ensures
            final(self).wf(),
            final(self).before() == old(self).before(),
            final(self).level == old(self).level,
            final(self).taken() == old(self).taken(),
    {
        let ghost front = bits::all_bits(self.inner@.skip(self.start@.len() as int));
        let ghost held = self.blocks.out@;
        let ghost chunk = self.pending@;
        let ghost done = self.done@;
        let ghost made = self.made();
        self.blocks.write_block(self.pending.as_slice(), false, self.level);
        proof {
            lemma_more_blocks(front, held, self.blocks.out@, done, chunk, false);
            let k = done.len() / BLOCK_SIZE as nat;
            lemma_block_shift(
                self.level,
                made.look,
                held.len() as int,
                made.bits.len() as int,
                chunk,
                false,
            );
            lemma_whole_more(self.level, done, chunk, k);
            assert((done + chunk).subrange(k * BLOCK_SIZE, (k + 1) * BLOCK_SIZE) =~= chunk);
            assert((done + chunk).len() / BLOCK_SIZE as nat == k + 1);
            assert(self.made().bits =~= made.bits + block_bits(
                self.level,
                made.look,
                made.bits.len() as int,
                chunk,
                false,
            ));
        }
        let ghost written = self.inner@.skip(self.start@.len() as int);
        let ghost now = self.blocks.out@;
        self.done = Ghost(done + chunk);
        self.pending.clear();
        self.flush_bits();
        proof {
            if self.level == Level::Stored {
                let full = self.inner@.skip(self.start@.len() as int).skip(written.len() as int);
                lemma_drained(held, now, stored::run(chunk, false), full);
                stored::lemma_runs_more(done, chunk, false);
                assert(self.inner@.skip(self.start@.len() as int) =~= written + full);
            }
        }
        assert(self.taken() =~= done + chunk);
    }

    fn flush_bits(&mut self)
        requires
            old(self).sound(),
        ensures
            final(self).sound(),
            final(self).before() == old(self).before(),
            ({
                let k = old(self).start@.len() as int;
                let n = bitwriter::whole(old(self).blocks.out@);
                &&& old(self).inner@.skip(k).is_prefix_of(final(self).inner@.skip(k))
                &&& bits::all_bits(
                    final(self).inner@.skip(k).skip(old(self).inner@.skip(k).len() as int),
                ) == old(self).blocks.out@.take(n)
                &&& final(self).blocks.out@ == old(self).blocks.out@.skip(n)
            }),
            final(self).done == old(self).done,
            final(self).pending == old(self).pending,
            final(self).level == old(self).level,
    {
        let ghost before = self.blocks.out@;
        let ghost k = self.start@.len() as int;
        let ghost inner = self.inner@;
        let bytes: Vec<u8> = self.blocks.out.drain_complete_bytes();
        proof {
            let n = bitwriter::whole(before);
            assert(before =~= before.take(n) + before.skip(n));
            bits::lemma_all_bits_concat(inner.skip(k), bytes@);
            assert((inner + bytes@).skip(k) =~= inner.skip(k) + bytes@);
            assert(bits::all_bits(inner.skip(k)) + before =~= bits::all_bits(
                (inner + bytes@).skip(k),
            ) + self.blocks.out@);
            assert((inner + bytes@).take(k) =~= inner.take(k));
        }
        self.inner.extend_from_slice(bytes.as_slice());
        assert(self.inner@ =~= inner + bytes@);
        assert(self.inner@.skip(k).skip(inner.skip(k).len() as int) =~= bytes@);
        assert(self.inner@.skip(k).take(inner.skip(k).len() as int) =~= inner.skip(k));
        assert(self.inner.len() == inner.len() + bytes.len());
        self.written = self.written + bytes.len() as u64;
    }

    /// Finish the stream and hand back everything written.
    pub fn finish_inner(self) -> (r: Vec<u8>)
        requires
            self.wf(),
        ensures
            self.before().is_prefix_of(r@),
            is_stream(r@.skip(self.before().len() as int), self.taken()),
            r@ == self.before() + bitwriter::bytes_of(stream_bits(self.level(), self.taken())),
            self.level() == Level::Stored ==> r@ == self.before() + stored::stream(self.taken()),
    {
        self.finish().0
    }

    /// Finish the stream. Gives back everything written, and how many bytes
    /// of it the stream takes.
    #[verifier::spinoff_prover]
    #[verifier::rlimit(80)]
    pub fn finish(self) -> (r: (Vec<u8>, u64))
        requires
            self.wf(),
        ensures
            self.before().is_prefix_of(r.0@),
            r.1 == r.0@.len() - self.before().len(),
            is_stream(r.0@.skip(self.before().len() as int), self.taken()),
            r.0@ == self.before() + bitwriter::bytes_of(stream_bits(self.level(), self.taken())),
            self.level() == Level::Stored ==> r.0@ == self.before() + stored::stream(self.taken()),
    {
        let mut this: DeflateEncoder = self;
        let ghost k = this.start@.len() as int;
        let ghost front = this.inner@.skip(k);
        let ghost held = this.blocks.out@;
        this.blocks.write_block(this.pending.as_slice(), true, this.level);
        let ghost tail = this.blocks.out@;
        let bytes: Vec<u8> = this.blocks.out.take();
        let mut out: Vec<u8> = this.inner;
        let ghost inner = out@;
        proof {
            lemma_more_blocks(
                bits::all_bits(front),
                held,
                tail,
                self.done@,
                self.pending@,
                true,
            );
            lemma_padded_tail(front, tail, bytes@);
            let made = self.made();
            let whole = self.done@.len() / BLOCK_SIZE as nat;
            let all = self.done@ + self.pending@;
            lemma_block_shift(
                self.level,
                made.look,
                held.len() as int,
                made.bits.len() as int,
                self.pending@,
                true,
            );
            lemma_whole_more(self.level, self.done@, self.pending@, whole);
            assert(all.len() / BLOCK_SIZE as nat == whole);
            assert(all.skip((whole * BLOCK_SIZE) as int) =~= self.pending@);
            assert(bits::all_bits(front) + tail =~= stream_bits(self.level, all));
            bitwriter::lemma_bytes_of(front + bytes@, stream_bits(self.level, all));
            assert(inner + bytes@ =~= self.start@ + (front + bytes@));
            assert((inner + bytes@).skip(k) =~= front + bytes@);
            assert((inner + bytes@).take(k) =~= self.start@);
            if self.level == Level::Stored {
                lemma_stored_end(self.done@, self.pending@, tail, bytes@);
                assert(inner =~= self.start@ + front);
                assert(inner + bytes@ =~= self.start@ + (front + bytes@));
            }
        }
        out.extend_from_slice(bytes.as_slice());
        assert(out@ =~= inner + bytes@);
        assert(out.len() == inner.len() + bytes.len());
        let written: u64 = this.written + bytes.len() as u64;
        (out, written)
    }
}

} // verus!
