//! Streams after one another.
use crate::codecs::bzip2::bitio;
use crate::codecs::bzip2::pack;
use crate::codecs::bzip2::syntax;
use crate::codecs::bzip2::syntax::STREAM_MAGIC;
use crate::utils::bits as words;
use crate::utils::error;
use crate::utils::error::Error;
use vstd::arithmetic::power2::*;
use vstd::prelude::*;

verus! {

/// The level that blocks are made for.
pub open spec fn held_level(level: u8) -> nat {
    if level < 1 {
        1
    } else if level > 9 {
        9
    } else {
        level as nat
    }
}

/// Whether `data` is a header for `level`, the blocks `w`, which stand for
/// `plain`, and the end of a stream, filled up to a whole byte.
pub open spec fn made_of(
    data: Seq<u8>,
    level: nat,
    plain: Seq<u8>,
    w: Seq<bool>,
    check: u32,
) -> bool {
    let all = pack::header_bits(level) + w + pack::end_bits(check);
    &&& pack::carries(w, plain, level * 100_000, 0, check)
    &&& all.is_prefix_of(bitio::bits_of(data))
    &&& bitio::bits_of(data).len() < all.len() + 8
}

/// Whether `data` is one stream for `plain`, in blocks of `level` times
/// 100,000 bytes.
pub open spec fn is_stream(data: Seq<u8>, level: nat, plain: Seq<u8>) -> bool {
    &&& 1 <= level <= 9
    &&& exists|w: Seq<bool>, check: u32| #[trigger] made_of(data, level, plain, w, check)
}

/// Whether `data`, at the end of any input, decodes to `plain`.
pub open spec fn is_rest(data: Seq<u8>, plain: Seq<u8>) -> bool {
    forall|b: Seq<bool>, p: int| #[trigger]
        bitio::has(b, p, bitio::bits_of(data)) && p % 8 == 0 && p + 8 * data.len() == b.len() ==> (
        syntax::header(b, p) matches Some((limit, q)) && q <= b.len() && syntax::run(b, q, limit, 0)
            == Ok::<Seq<u8>, Error>(plain))
}

/// What a header is read as.
proof fn lemma_header(b: Seq<bool>, p: int, level: nat)
    requires
        1 <= level <= 9,
        bitio::has(b, p, pack::header_bits(level)),
    ensures
        syntax::header(b, p) == Some((level * 100_000, p + 32)),
        p + 32 <= b.len(),
{
    lemma2_to64();
    let h1 = bitio::digits(0x425A68, 24);
    let h2 = bitio::digits(0x30 + level, 8);
    bitio::lemma_value_digits(0x425A68, 24);
    bitio::lemma_value_digits(0x30 + level, 8);
    bitio::lemma_value_concat(h1, h2);
    assert(bitio::value(h1 + h2) == 0x425A68 * 256 + 0x30 + level);
}

/// A header does not start with a zero byte.
proof fn lemma_header_byte(b: Seq<bool>, p: int)
    requires
        syntax::header(b, p) is Some,
    ensures
        syntax::next_start(b, p) == Some(p),
{
    let v = b.subrange(p, p + 32);
    let x = b.subrange(p, p + 8);
    let y = b.subrange(p + 8, p + 32);
    assert(v =~= x + y);
    bitio::lemma_value_concat(x, y);
    bitio::lemma_value_bound(y);
    lemma2_to64();
    if bitio::value(x) == 0 {
        assert(0 * pow2(24) == 0);
    }
}

/// What the end of a stream is read as.
proof fn lemma_end(b: Seq<bool>, at: int, check: u32)
    requires
        bitio::has(b, at, pack::end_bits(check)),
    ensures
        bitio::field(b, at, 48) == Some((STREAM_MAGIC as nat, at + 48)),
        bitio::field(b, at + 48, 32) == Some((check as nat, at + 80)),
        pack::end_bits(check).len() == 80,
{
    lemma2_to64();
    lemma2_to64_rest();
    let e1 = bitio::digits(0x177245, 24);
    let e2 = bitio::digits(0x385090, 24);
    let e3 = bitio::digits(check as nat, 32);
    bitio::lemma_value_digits(0x177245, 24);
    bitio::lemma_value_digits(0x385090, 24);
    bitio::lemma_value_digits(check as nat, 32);
    bitio::lemma_has_concat(b, at, e1 + e2, e3);
    bitio::lemma_value_concat(e1, e2);
    assert(bitio::value(e1 + e2) == STREAM_MAGIC);
}

/// One stream is read, and then whatever follows it.
#[verifier::spinoff_prover]
#[verifier::rlimit(40)]
proof fn lemma_read_stream(b: Seq<bool>, p: int, data: Seq<u8>, level: nat, plain: Seq<u8>)
    requires
        is_stream(data, level, plain),
        bitio::has(b, p, bitio::bits_of(data)),
        p % 8 == 0,
    ensures
        syntax::header(b, p) == Some((level * 100_000, p + 32)),
        p + 32 <= b.len(),
        ({
            let all = syntax::run(b, p + 32, level * 100_000, 0);
            let z = p + 8 * data.len();
            &&& z == b.len() ==> all == Ok::<Seq<u8>, Error>(plain)
            &&& syntax::header(b, z) matches Some((limit, q)) ==> q <= b.len() ==> all
                == error::joined(plain, syntax::run(b, q, limit, 0))
        }),
{
    let (w, check) = choose|w: Seq<bool>, check: u32| #[trigger]
        made_of(data, level, plain, w, check);
    let h = pack::header_bits(level);
    let e = pack::end_bits(check);
    let all = h + w + e;
    let d = bitio::bits_of(data);
    bitio::lemma_bits_len(data);
    assert(d =~= all + d.skip(all.len() as int));
    bitio::lemma_has_concat(b, p, all, d.skip(all.len() as int));
    bitio::lemma_has_concat(b, p, h + w, e);
    bitio::lemma_has_concat(b, p, h, w);
    lemma_header(b, p, level);
    bitio::lemma_digits_len(0x425A68, 24);
    bitio::lemma_digits_len(0x30 + level, 8);
    let at = p + 32 + w.len();
    lemma_end(b, at, check);
    let z = p + 8 * data.len();
    assert(words::align8(at + 80) == z);
    assert(plain + Seq::<u8>::empty() =~= plain);
    if z == b.len() {
        assert(syntax::next_start(b, z) is None);
        assert(syntax::run(b, at, level * 100_000, check) == Ok::<Seq<u8>, Error>(Seq::empty()));
    }
    if syntax::header(b, z) is Some {
        lemma_header_byte(b, z);
    }
}

/// The fourth byte of a stream tells its level.
pub proof fn lemma_level_byte(data: Seq<u8>, level: nat, plain: Seq<u8>)
    requires
        is_stream(data, level, plain),
    ensures
        data.len() >= 4,
        data[0] == 0x42,
        data[1] == 0x5A,
        data[2] == 0x68,
        data[3] == 0x30 + level,
{
    let b = bitio::bits_of(data);
    bitio::lemma_bits_len(data);
    assert(b.subrange(0, b.len() as int) =~= b);
    lemma_read_stream(b, 0, data, level, plain);
    let (w, check) = choose|w: Seq<bool>, check: u32| #[trigger]
        made_of(data, level, plain, w, check);
    let h = pack::header_bits(level);
    let all = h + w + pack::end_bits(check);
    assert(all.take(h.len() as int) =~= h);
    assert(b.take(h.len() as int) =~= h);
    let x = bitio::digits(0x30 + level, 8);
    lemma2_to64();
    bitio::lemma_digits_concat(0x42, 0x5A, 8, 8);
    bitio::lemma_digits_concat(0x425A, 0x68, 16, 8);
    bitio::lemma_digits_len(0x42, 8);
    bitio::lemma_digits_len(0x5A, 8);
    bitio::lemma_digits_len(0x68, 8);
    bitio::lemma_value_digits(0x42, 8);
    bitio::lemma_value_digits(0x5A, 8);
    bitio::lemma_value_digits(0x68, 8);
    bitio::lemma_value_digits(0x30 + level, 8);
    let a0 = bitio::digits(0x42, 8);
    let a1 = bitio::digits(0x5A, 8);
    let a2 = bitio::digits(0x68, 8);
    assert(h =~= a0 + a1 + a2 + x);
    bitio::lemma_byte_at(data, 0);
    bitio::lemma_byte_at(data, 1);
    bitio::lemma_byte_at(data, 2);
    bitio::lemma_byte_at(data, 3);
    assert(b.subrange(0, 8) =~= a0);
    assert(b.subrange(8, 16) =~= a1);
    assert(b.subrange(16, 24) =~= a2);
    assert(b.subrange(24, 32) =~= x);
}

/// One stream decodes to its content.
pub proof fn lemma_one_stream(data: Seq<u8>, level: nat, plain: Seq<u8>)
    requires
        is_stream(data, level, plain),
    ensures
        is_rest(data, plain),
        syntax::decoded(data) == Ok::<Seq<u8>, Error>(plain),
{
    assert forall|b: Seq<bool>, p: int| #[trigger]
        bitio::has(b, p, bitio::bits_of(data)) && p % 8 == 0 && p + 8 * data.len()
            == b.len() implies (syntax::header(b, p) matches Some((limit, q)) && q <= b.len()
        && syntax::run(b, q, limit, 0) == Ok::<Seq<u8>, Error>(plain)) by {
        lemma_read_stream(b, p, data, level, plain);
    }
    lemma_rest_decodes(data, plain);
}

proof fn lemma_rest_decodes(data: Seq<u8>, plain: Seq<u8>)
    requires
        is_rest(data, plain),
    ensures
        syntax::decoded(data) == Ok::<Seq<u8>, Error>(plain),
{
    let b = bitio::bits_of(data);
    bitio::lemma_bits_len(data);
    assert(b.subrange(0, b.len() as int) =~= b);
    assert(bitio::has(b, 0, b));
}

proof fn lemma_bits_concat(x: Seq<u8>, y: Seq<u8>)
    ensures
        bitio::bits_of(x + y) == bitio::bits_of(x) + bitio::bits_of(y),
    decreases y.len(),
{
    if y.len() == 0 {
        assert(x + y =~= x);
        assert(bitio::bits_of(x) + bitio::bits_of(y) =~= bitio::bits_of(x));
    } else {
        let z = y.drop_last();
        lemma_bits_concat(x, z);
        assert((x + y).drop_last() =~= x + z);
        let last = bitio::digits(y.last() as nat, 8);
        assert(bitio::bits_of(x) + bitio::bits_of(z) + last =~= bitio::bits_of(x) + (
        bitio::bits_of(z) + last));
    }
}

#[verifier::spinoff_prover]
#[verifier::rlimit(40)]
proof fn lemma_join_at(
    b: Seq<bool>,
    p: int,
    first: Seq<u8>,
    level: nat,
    x: Seq<u8>,
    others: Seq<u8>,
    y: Seq<u8>,
)
    requires
        is_stream(first, level, x),
        is_rest(others, y),
        bitio::has(b, p, bitio::bits_of(first + others)),
        p % 8 == 0,
        p + 8 * (first + others).len() == b.len(),
    ensures
        syntax::header(b, p) == Some((level * 100_000, p + 32)),
        p + 32 <= b.len(),
        syntax::run(b, p + 32, level * 100_000, 0) == Ok::<Seq<u8>, Error>(x + y),
{
    lemma_bits_concat(first, others);
    bitio::lemma_bits_len(first);
    bitio::lemma_has_concat(b, p, bitio::bits_of(first), bitio::bits_of(others));
    let z = p + 8 * first.len();
    assert(bitio::has(b, z, bitio::bits_of(others)));
    lemma_read_stream(b, p, first, level, x);
}

/// A stream before others decodes to its content and then theirs: any number
/// of streams after one another decode to all their contents.
pub proof fn lemma_streams_join(
    first: Seq<u8>,
    level: nat,
    x: Seq<u8>,
    others: Seq<u8>,
    y: Seq<u8>,
)
    requires
        is_stream(first, level, x),
        is_rest(others, y),
    ensures
        is_rest(first + others, x + y),
        syntax::decoded(first + others) == Ok::<Seq<u8>, Error>(x + y),
{
    let data = first + others;
    assert forall|b: Seq<bool>, p: int| #[trigger]
        bitio::has(b, p, bitio::bits_of(data)) && p % 8 == 0 && p + 8 * data.len()
            == b.len() implies (syntax::header(b, p) matches Some((limit, q)) && q <= b.len()
        && syntax::run(b, q, limit, 0) == Ok::<Seq<u8>, Error>(x + y)) by {
        lemma_join_at(b, p, first, level, x, others, y);
    }
    lemma_rest_decodes(data, x + y);
}

} // verus!
