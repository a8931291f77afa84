//! The two sections of a compressed block, written so that they read back.
use crate::codecs::zstd::bits as stream;
use crate::codecs::zstd::bits::BitWriter;
use crate::codecs::zstd::layout;
use crate::codecs::zstd::fse;
use crate::codecs::zstd::fse::{EncTable, Table};
use crate::codecs::zstd::huffman;
use crate::codecs::zstd::sequences;
use crate::codecs::zstd::sequences::{
    DEFAULT_LITERAL_LENGTH, DEFAULT_LITERAL_LENGTH_LOG, DEFAULT_MATCH_LENGTH,
    DEFAULT_MATCH_LENGTH_LOG, DEFAULT_OFFSET, DEFAULT_OFFSET_LOG, LITERAL_LENGTH_BASE,
    LITERAL_LENGTH_EXTRA, MATCH_LENGTH_BASE, MATCH_LENGTH_EXTRA,
};
use crate::codecs::zstd::tiling;
use crate::utils::bits;
use crate::utils::bits::{floor_log2, power_of_two};
use crate::utils::bytes;
use crate::utils::bytes::put_le;
use crate::utils::error::{Error, Result};
use vstd::arithmetic::power2::*;
use vstd::prelude::*;

verus! {

pub const MAX_PREDEFINED_OFFSET_CODE: u32 = 28;

/// The codes of `lits`, those of the last one first.
pub open spec fn code_bits(c: huffman::Code, lits: Seq<u8>) -> Seq<bool>
    decreases lits.len(),
{
    if lits.len() == 0 {
        Seq::empty()
    } else {
        let (code, n) = huffman::code_of(c, lits[0]);
        code_bits(c, lits.skip(1)) + bits::bits_of(code, n)
    }
}

/// Whether every byte has a code.
pub open spec fn all_coded(c: huffman::Code, lits: Seq<u8>) -> bool {
    forall|i: int| 0 <= i < lits.len() ==> (#[trigger] huffman::code_of(c, lits[i])).1 > 0
}

proof fn lemma_code_bits(c: huffman::Code, lits: Seq<u8>, data: Seq<u8>, b: stream::Back)
    requires
        c.valid(),
        all_coded(c, lits),
        bits::has(data, 0, code_bits(c, lits)),
        b.left == code_bits(c, lits).len(),
    ensures
        layout::symbols(c, data, b, lits.len()) == lits,
    decreases lits.len(),
{
    if lits.len() == 0 {
        assert(lits =~= Seq::<u8>::empty());
    } else {
        let rest = lits.skip(1);
        let w = code_bits(c, rest);
        assert(huffman::code_of(c, lits[0]).1 > 0);
        huffman::lemma_symbol_back(c, lits[0], data, w, b);
        assert forall|i: int| 0 <= i < rest.len() implies (#[trigger] huffman::code_of(
            c,
            rest[i],
        )).1 > 0 by {
            assert(huffman::code_of(c, lits[i + 1]).1 > 0);
        }
        lemma_code_bits(c, rest, data, stream::Back { left: w.len(), over: b.over });
        assert(seq![lits[0]] + rest =~= lits);
    }
}

/// One stream of literals.
pub open spec fn literal_bytes(c: huffman::Code, lits: Seq<u8>) -> Seq<u8> {
    stream::closed(code_bits(c, lits))
}

/// Write one stream of literals, where every one has a code.
fn write_stream(literals: &[u8], codes: &Vec<(u16, u8)>, c: Ghost<huffman::Code>) -> (r: Option<
    Vec<u8>,
>)
    requires
        c@.valid(),
        codes@.len() == 256,
        forall|s: int|
            0 <= s < 256 ==> huffman::code_of(c@, s as u8) == (
                (#[trigger] codes@[s]).0 as nat,
                codes@[s].1 as nat,
            ),
    ensures
        r matches Some(v) ==> layout::literal_stream(v@, c@, literals@.len()) == Ok::<
            Seq<u8>,
            Error,
        >(literals@),
        r is Some <==> all_coded(c@, literals@),
        r matches Some(v) ==> v@ == literal_bytes(c@, literals@),
{
    let mut writer: BitWriter = BitWriter::new();
    let mut i: usize = literals.len();
    assert(literals@.skip(i as int) =~= Seq::<u8>::empty());
    while i > 0
        invariant
            i <= literals.len(),
            c@.valid(),
            codes@.len() == 256,
            forall|s: int|
                0 <= s < 256 ==> huffman::code_of(c@, s as u8) == (
                    (#[trigger] codes@[s]).0 as nat,
                    codes@[s].1 as nat,
                ),
            writer.wf(),
            writer@ == code_bits(c@, literals@.skip(i as int)),
            all_coded(c@, literals@.skip(i as int)),
        decreases i,
    {
        let byte: u8 = literals[i - 1];
        let (code, n) = codes[byte as usize];
        proof {
            huffman::lemma_code_bound(c@, byte);
            assert(codes@[byte as int] == (code, n));
            let now = literals@.skip(i - 1);
            assert(now.skip(1) =~= literals@.skip(i as int));
            assert(now[0] == byte);
            assert(n == 0 ==> !all_coded(c@, literals@)) by {
                assert(huffman::code_of(c@, literals@[i - 1]).1 == n);
            }
        }
        if n == 0 {
            return None;
        }
        writer.add(code as u64, n as u32);
        i = i - 1;
        proof {
            let now = literals@.skip(i as int);
            assert forall|k: int| 0 <= k < now.len() implies (#[trigger] huffman::code_of(
                c@,
                now[k],
            )).1 > 0 by {
                if k > 0 {
                    assert(now[k] == literals@.skip(i + 1)[k - 1]);
                    assert(huffman::code_of(c@, literals@.skip(i + 1)[k - 1]).1 > 0);
                }
            }
        }
    }
    assert(literals@.skip(0) =~= literals@);
    let ghost w = writer@;
    let v: Vec<u8> = writer.finish();
    proof {
        stream::lemma_closed(v@, w);
        lemma_code_bits(
            c@,
            literals@,
            v@,
            stream::Back { left: w.len(), over: false },
        );
    }
    Some(v)
}

/// Whether `section` reads back as the literals `lits`, whatever follows it.
pub open spec fn carries(section: Seq<u8>, lits: Seq<u8>) -> bool {
    forall|rest: Seq<u8>, kept: Option<huffman::Code>|
        match #[trigger] layout::literals(section + rest, kept) {
            Ok((a, n, c)) => a == lits && n == section.len(),
            Err(_) => false,
        }
}

/// Literals as they are, behind their number.
pub open spec fn plain_section(lits: Seq<u8>) -> Seq<u8> {
    let n = lits.len();
    (if n < 32 {
        seq![(n * 8) as u8]
    } else if n < 4096 {
        bytes::le_bytes(4 + n * 16, 2)
    } else {
        bytes::le_bytes(12 + n * 16, 3)
    }) + lits
}

/// A number in two bytes.
proof fn lemma_two(v: nat)
    ensures
        bytes::le_bytes(v, 2) == seq![(v % 256) as u8, (v / 256 % 256) as u8],
{
    reveal_with_fuel(bytes::le_bytes, 3);
    assert(bytes::le_bytes(v, 2) =~= seq![(v % 256) as u8, (v / 256 % 256) as u8]);
}

/// A number in three bytes.
proof fn lemma_three(v: nat)
    ensures
        bytes::le_bytes(v, 3) == seq![
            (v % 256) as u8,
            (v / 256 % 256) as u8,
            (v / 256 / 256 % 256) as u8,
        ],
{
    reveal_with_fuel(bytes::le_bytes, 4);
    assert(bytes::le_bytes(v, 3) =~= seq![
        (v % 256) as u8,
        (v / 256 % 256) as u8,
        (v / 256 / 256 % 256) as u8,
    ]);
}

/// Plain literals read back.
pub proof fn lemma_plain(lits: Seq<u8>)
    requires
        lits.len() < 0x10_0000,
    ensures
        carries(plain_section(lits), lits),
{
    let section = plain_section(lits);
    let n = lits.len();
    reveal(layout::literals);
    lemma_two(4 + n * 16);
    lemma_three(12 + n * 16);
    assert forall|rest: Seq<u8>, kept: Option<huffman::Code>|
        match #[trigger] layout::literals(section + rest, kept) {
            Ok((a, m, c)) => a == lits && m == section.len(),
            Err(_) => false,
        } by {
        let body = section + rest;
        assert(body.len() >= section.len());
        assert(body[0] == section[0]);
        if n >= 32 {
            assert(body[1] == section[1]);
        }
        if n >= 4096 {
            assert(body[2] == section[2]);
        }
        let at: nat = if n < 32 {
            1
        } else if n < 4096 {
            2
        } else {
            3
        };
        assert(section.len() == at + n);
        assert(layout::plain_size(body) == Ok::<(nat, nat), Error>((n, at)));
        assert(body.subrange(at as int, (at + n) as int) =~= lits);
    }
}

fn write_raw_literals(out: &mut Vec<u8>, literals: &[u8])
    requires
        literals.len() < 0x10_0000,
    ensures
        final(out)@ == old(out)@ + plain_section(literals@),
{
    let len: usize = literals.len();
    if len < 32 {
        out.push((len * 8) as u8);
    } else if len < 4096 {
        put_le(out, 4 + len as u64 * 16, 2);
    } else {
        put_le(out, 12 + len as u64 * 16, 3);
    }
    out.extend_from_slice(literals);
    assert(out@ =~= old(out)@ + plain_section(literals@));
}

/// Compressed literals: sizes, the code, the sizes of three streams, and four
/// streams.
pub open spec fn coded_section(
    n: nat,
    d: Seq<u8>,
    s1: Seq<u8>,
    s2: Seq<u8>,
    s3: Seq<u8>,
    s4: Seq<u8>,
) -> Seq<u8> {
    let size = d.len() + 6 + s1.len() + s2.len() + s3.len() + s4.len();
    bytes::le_bytes((14 + n * 16 + size * 0x40_0000) as nat, 5) + (d + jumped(s1, s2, s3, s4))
}

/// The sizes of three streams, and four streams.
pub open spec fn jumped(s1: Seq<u8>, s2: Seq<u8>, s3: Seq<u8>, s4: Seq<u8>) -> Seq<u8> {
    bytes::le_bytes(s1.len(), 2) + bytes::le_bytes(s2.len(), 2) + bytes::le_bytes(s3.len(), 2)
        + (s1 + (s2 + (s3 + s4)))
}

proof fn lemma_jumped(
    s1: Seq<u8>,
    s2: Seq<u8>,
    s3: Seq<u8>,
    s4: Seq<u8>,
    c: huffman::Code,
    lits: Seq<u8>,
)
    requires
        lits.len() >= 64,
        s1.len() <= 0xffff,
        s2.len() <= 0xffff,
        s3.len() <= 0xffff,
        ({
            let per = ((lits.len() + 3) / 4) as int;
            &&& layout::literal_stream(s1, c, per as nat) == Ok::<Seq<u8>, Error>(
                lits.subrange(0, per),
            )
            &&& layout::literal_stream(s2, c, per as nat) == Ok::<Seq<u8>, Error>(
                lits.subrange(per, 2 * per),
            )
            &&& layout::literal_stream(s3, c, per as nat) == Ok::<Seq<u8>, Error>(
                lits.subrange(2 * per, 3 * per),
            )
            &&& layout::literal_stream(s4, c, (lits.len() - 3 * per) as nat) == Ok::<
                Seq<u8>,
                Error,
            >(lits.subrange(3 * per, lits.len() as int))
        }),
    ensures
        layout::four_streams(jumped(s1, s2, s3, s4), c, lits.len()) == Ok::<Seq<u8>, Error>(lits),
        jumped(s1, s2, s3, s4).len() == 6 + s1.len() + s2.len() + s3.len() + s4.len(),
{
    let per = ((lits.len() + 3) / 4) as int;
    lemma_jump_sizes(s1, s2, s3, s4);
    lemma_jump_streams(s1, s2, s3, s4);
    reveal(layout::four_streams);
    assert(lits.subrange(0, per) + lits.subrange(per, 2 * per) + lits.subrange(2 * per, 3 * per)
        + lits.subrange(3 * per, lits.len() as int) =~= lits);
}

proof fn lemma_jump_sizes(s1: Seq<u8>, s2: Seq<u8>, s3: Seq<u8>, s4: Seq<u8>)
    requires
        s1.len() <= 0xffff,
        s2.len() <= 0xffff,
        s3.len() <= 0xffff,
    ensures
        ({
            let j = jumped(s1, s2, s3, s4);
            &&& j.len() == 6 + s1.len() + s2.len() + s3.len() + s4.len()
            &&& j.skip(6) == s1 + (s2 + (s3 + s4))
            &&& bytes::le(j, 0, 2) == s1.len()
            &&& bytes::le(j, 2, 2) == s2.len()
            &&& bytes::le(j, 4, 2) == s3.len()
        }),
{
    let j = jumped(s1, s2, s3, s4);
    lemma_two(s1.len());
    lemma_two(s2.len());
    lemma_two(s3.len());
    assert(j.skip(6) =~= s1 + (s2 + (s3 + s4)));
    reveal_with_fuel(bytes::le, 3);
}

proof fn lemma_jump_streams(s1: Seq<u8>, s2: Seq<u8>, s3: Seq<u8>, s4: Seq<u8>)
    ensures
        ({
            let b = s1 + (s2 + (s3 + s4));
            let x = s1.len() as int;
            let y = x + s2.len();
            let z = y + s3.len();
            &&& b.subrange(0, x) == s1
            &&& b.subrange(x, y) == s2
            &&& b.subrange(y, z) == s3
            &&& b.subrange(z, b.len() as int) == s4
        }),
{
    let b = s1 + (s2 + (s3 + s4));
    let x = s1.len() as int;
    let y = x + s2.len();
    let z = y + s3.len();
    assert(b.subrange(0, x) =~= s1);
    assert(b.subrange(x, y) =~= s2);
    assert(b.subrange(y, z) =~= s3);
    assert(b.subrange(z, b.len() as int) =~= s4);
}

/// Compressed literals read back.
#[verifier::rlimit(30)]
#[verifier::spinoff_prover]
proof fn lemma_coded(
    ws: Seq<u8>,
    s1: Seq<u8>,
    s2: Seq<u8>,
    s3: Seq<u8>,
    s4: Seq<u8>,
    c: huffman::Code,
    lits: Seq<u8>,
)
    requires
        64 <= lits.len() < 0x4_0000,
        huffman::completed(ws) == Ok::<huffman::Code, Error>(c),
        2 <= ws.len() <= huffman::MAX_DIRECT_SYMBOLS,
        ws.last() > 0,
        huffman::total(ws) > huffman::unit(ws.last()),
        layout::four_streams(jumped(s1, s2, s3, s4), c, lits.len()) == Ok::<Seq<u8>, Error>(lits),
        huffman::description(ws).len() + jumped(s1, s2, s3, s4).len() < 0x4_0000,
        jumped(s1, s2, s3, s4).len() == 6 + s1.len() + s2.len() + s3.len() + s4.len(),
    ensures
        carries(coded_section(lits.len(), huffman::description(ws), s1, s2, s3, s4), lits),
        coded_section(lits.len(), huffman::description(ws), s1, s2, s3, s4).len() == 5
            + huffman::description(ws).len() + jumped(s1, s2, s3, s4).len(),
{
    reveal(layout::literals);
    let d = huffman::description(ws);
    let j = jumped(s1, s2, s3, s4);
    let section = coded_section(lits.len(), d, s1, s2, s3, s4);
    let n = lits.len();
    let size = d.len() + j.len();
    let v = (14 + n * 16 + size * 0x40_0000) as nat;
    bytes::lemma_le_bytes_len(v, 5);
    assert(section.len() == 5 + size);
    huffman::lemma_description(ws, j);
    assert forall|rest: Seq<u8>, kept: Option<huffman::Code>|
        match #[trigger] layout::literals(section + rest, kept) {
            Ok((a, m, k)) => a == lits && m == section.len(),
            Err(_) => false,
        } by {
        let body = section + rest;
        let head = bytes::le_bytes(v, 5);
        assert(body.subrange(0, 5) =~= head);
        assert(v < bytes::span(5)) by {
            reveal_with_fuel(bytes::span, 6);
        }
        bytes::lemma_le_round_trip(body, 0, v, 5);
        assert(body[0] == v % 256) by {
            assert(body[0] == head[0]);
        }
        lemma2_to64();
        assert(v / 16 == n + size * 0x4_0000);
        assert(v / 16 % pow2(18) == n);
        assert(16 * pow2(18) == 0x40_0000);
        assert(v / 0x40_0000 == size);
        assert(v / (16 * pow2(18)) == size);
        assert(size % pow2(18) == size);
        assert(layout::coded_sizes(body) == Ok::<(nat, nat), Error>((n, size)));
        assert(body.subrange(5, (5 + size) as int) =~= d + j);
        assert((d + j).skip(d.len() as int) =~= j);
    }
}

proof fn lemma_append(j: Seq<u8>, a: Seq<u8>, b: Seq<u8>, c: Seq<u8>, d: Seq<u8>)
    ensures
        j + a + b + c + d == j + (a + (b + (c + d))),
{
    assert(j + a + b + c + d =~= j + (a + (b + (c + d))));
}

fn write_coded(
    n: usize,
    description: &Vec<u8>,
    s1: &Vec<u8>,
    s2: &Vec<u8>,
    s3: &Vec<u8>,
    s4: &Vec<u8>,
) -> (r: Vec<u8>)
    requires
        n <= 0x2_0000,
        description.len() + 6 + s1.len() + s2.len() + s3.len() + s4.len() <= 0x2_0000,
    ensures
        r@ == coded_section(n as nat, description@, s1@, s2@, s3@, s4@),
{
    let size: usize = description.len() + 6 + s1.len() + s2.len() + s3.len() + s4.len();
    let mut jump: Vec<u8> = Vec::new();
    put_le(&mut jump, s1.len() as u64, 2);
    put_le(&mut jump, s2.len() as u64, 2);
    put_le(&mut jump, s3.len() as u64, 2);
    proof {
        let e = Seq::<u8>::empty();
        let a = bytes::le_bytes(s1@.len(), 2);
        assert(e + a =~= a);
        lemma_append(jump@, s1@, s2@, s3@, s4@);
    }
    jump.extend_from_slice(s1);
    jump.extend_from_slice(s2);
    jump.extend_from_slice(s3);
    jump.extend_from_slice(s4);
    assert(jump@ == jumped(s1@, s2@, s3@, s4@));
    let mut out: Vec<u8> = Vec::new();
    put_le(&mut out, 14 + n as u64 * 16 + size as u64 * 0x40_0000, 5);
    out.extend_from_slice(description);
    out.extend_from_slice(&jump);
    assert(out@ =~= coded_section(n as nat, description@, s1@, s2@, s3@, s4@));
    out
}

/// How often a byte occurs.
pub open spec fn count_of(lits: Seq<u8>, byte: int) -> nat
    decreases lits.len(),
{
    if lits.len() == 0 {
        0
    } else {
        count_of(lits.drop_last(), byte) + if lits.last() == byte {
            1nat
        } else {
            0
        }
    }
}

/// How often each byte occurs.
pub open spec fn byte_counts(lits: Seq<u8>) -> Seq<u32> {
    Seq::new(256, |s: int| count_of(lits, s) as u32)
}

/// One of the four parts that the literals are cut into, the last of which
/// takes what is left.
pub open spec fn quarter(lits: Seq<u8>, i: int) -> Seq<u8> {
    let per = (lits.len() as int + 3) / 4;
    lits.subrange(
        i * per,
        if i == 3 {
            lits.len() as int
        } else {
            (i + 1) * per
        },
    )
}

/// Compressed literals, where there are enough of them, a code can be
/// described, and that is shorter.
pub open spec fn huffman_section(lits: Seq<u8>) -> Option<Seq<u8>> {
    let ws = huffman::weights_for(byte_counts(lits));
    if lits.len() < 64 || !huffman::describable(byte_counts(lits)) {
        None
    } else {
        match huffman::completed(ws) {
            Err(_) => None,
            Ok(c) => {
                let d = huffman::description(ws);
                let s1 = literal_bytes(c, quarter(lits, 0));
                let s2 = literal_bytes(c, quarter(lits, 1));
                let s3 = literal_bytes(c, quarter(lits, 2));
                let s4 = literal_bytes(c, quarter(lits, 3));
                let size = d.len() + 6 + s1.len() + s2.len() + s3.len() + s4.len();
                if !(all_coded(c, quarter(lits, 0)) && all_coded(c, quarter(lits, 1)) && all_coded(
                    c,
                    quarter(lits, 2),
                ) && all_coded(c, quarter(lits, 3))) {
                    None
                } else if s1.len() > 0xffff || s2.len() > 0xffff || s3.len() > 0xffff || s4.len()
                    > 0xffff || size + 5 >= lits.len() {
                    None
                } else {
                    Some(coded_section(lits.len(), d, s1, s2, s3, s4))
                }
            },
        }
    }
}

/// Compressed literals, where that is shorter.
#[verifier::rlimit(60)]
#[verifier::spinoff_prover]
fn huffman_literals(literals: &[u8]) -> (r: Option<Vec<u8>>)
    requires
        literals.len() <= 0x2_0000,
    ensures
        r matches Some(v) ==> carries(v@, literals@) && v@.len() < literals@.len(),
        match huffman_section(literals@) {
            Some(v) => r matches Some(w) && w@ == v,
            None => r is None,
        },
{
    if literals.len() < 64 {
        return None;
    }
    let mut freqs: [u32; 256] = [0;256];
    let mut i: usize = 0;
    assert(literals@.take(0) =~= Seq::<u8>::empty());
    while i < literals.len()
        invariant
            i <= literals.len() <= 0x2_0000,
            forall|k: int|
                0 <= k < 256 ==> #[trigger] freqs@[k] <= i && freqs@[k] == count_of(
                    literals@.take(i as int),
                    k,
                ),
        decreases literals.len() - i,
    {
        let byte: usize = literals[i] as usize;
        assert(freqs@[byte as int] <= i);
        assert(literals@.take(i + 1).drop_last() =~= literals@.take(i as int));
        freqs[byte] = freqs[byte] + 1;
        i = i + 1;
    }
    proof {
        assert(literals@.take(i as int) =~= literals@);
        assert(freqs@ =~= byte_counts(literals@));
    }
    let weights: Vec<u8> = match huffman::Table::build(&freqs) {
        None => {
            return None;
        },
        Some(w) => w,
    };
    let codes: Vec<(u16, u8)> = match huffman::Table::codes(&weights) {
        Err(_) => {
            return None;
        },
        Ok(c) => c,
    };
    let ghost c = huffman::completed(weights@)->Ok_0;
    proof {
        huffman::lemma_weights_bound(weights@);
    }
    let description: Vec<u8> = huffman::Table::describe(&weights);
    let n: usize = literals.len();
    let per: usize = (n + 3) / 4;
    proof {
        assert(literals@.subrange(0, per as int) =~= quarter(literals@, 0));
        assert(literals@.subrange(per as int, 2 * per as int) =~= quarter(literals@, 1));
        assert(literals@.subrange(2 * per as int, 3 * per as int) =~= quarter(literals@, 2));
        assert(literals@.subrange(3 * per as int, n as int) =~= quarter(literals@, 3));
    }
    let s1: Vec<u8> = match write_stream(&literals[0..per], &codes, Ghost(c)) {
        None => {
            return None;
        },
        Some(v) => v,
    };
    let s2: Vec<u8> = match write_stream(&literals[per..2 * per], &codes, Ghost(c)) {
        None => {
            return None;
        },
        Some(v) => v,
    };
    let s3: Vec<u8> = match write_stream(&literals[2 * per..3 * per], &codes, Ghost(c)) {
        None => {
            return None;
        },
        Some(v) => v,
    };
    let s4: Vec<u8> = match write_stream(&literals[3 * per..n], &codes, Ghost(c)) {
        None => {
            return None;
        },
        Some(v) => v,
    };
    if s1.len() > 0xffff || s2.len() > 0xffff || s3.len() > 0xffff || s4.len() > 0xffff {
        return None;
    }
    assert(description@.len() <= 65);
    let size: usize = description.len() + 6 + s1.len() + s2.len() + s3.len() + s4.len();
    if size + 5 >= n {
        return None;
    }
    proof {
        lemma_jumped(s1@, s2@, s3@, s4@, c, literals@);
        lemma_coded(weights@, s1@, s2@, s3@, s4@, c, literals@);
    }
    let out: Vec<u8> = write_coded(n, &description, &s1, &s2, &s3, &s4);
    Some(out)
}

/// Some literals and a match behind them.
#[derive(Debug, Clone, Copy)]
pub struct Sequence {
    pub literals: u32,
    pub length: u32,
    pub distance: u32,
}

/// The tables that the format defines.
pub struct Predefined {
    literal: EncTable,
    match_length: EncTable,
    offset: EncTable,
}

/// A table that the format defines, if its distribution makes one.
pub open spec fn is_default(t: fse::States, counts: Seq<i32>, log: nat) -> bool {
    fse::built(counts, log) == Ok::<fse::States, Error>(t)
}

impl Predefined {
    /// The tables are those that the format defines.
    pub closed spec fn wf(&self) -> bool {
        &&& self.literal.wf()
        &&& self.match_length.wf()
        &&& self.offset.wf()
        &&& is_default(
            self.literal.states(),
            DEFAULT_LITERAL_LENGTH@,
            DEFAULT_LITERAL_LENGTH_LOG as nat,
        )
        &&& is_default(
            self.match_length.states(),
            DEFAULT_MATCH_LENGTH@,
            DEFAULT_MATCH_LENGTH_LOG as nat,
        )
        &&& is_default(self.offset.states(), DEFAULT_OFFSET@, DEFAULT_OFFSET_LOG as nat)
        &&& self.literal.states().valid()
        &&& self.match_length.states().valid()
        &&& self.offset.states().valid()
    }

    fn table(counts: &[i32], log: u32) -> (r: Result<EncTable>)
        requires
            counts.len() <= 256,
        ensures
            r matches Ok(t) ==> t.wf() && is_default(t.states(), counts@, log as nat)
                && t.states().valid(),
            fse::built(counts@, log as nat) is Ok ==> r is Ok,
    {
        match Table::from_counts(counts, log) {
            Err(e) => Err(e),
            Ok(t) => {
                proof {
                    let x = t@;
                    lemma2_to64();
                    if x.log < 9 {
                        lemma_pow2_strictly_increases(x.log, 9);
                    }
                    assert forall|i: int| 0 <= i < t.entries@.len() implies (
                    #[trigger] t.entries@[i]).bits < 32 by {
                        assert(fse::stays_inside(x.entries[i], x.entries.len()));
                        let b = t.entries@[i].bits;
                        if b >= 32 {
                            if b > 32 {
                                lemma_pow2_strictly_increases(32, b as nat);
                            }
                        }
                    }
                    assert forall|i: int| 0 <= i < t.entries@.len() implies #[trigger] fse::stays_inside(
                        t.entries@[i],
                        t.entries.len() as nat,
                    ) by {
                        assert(fse::stays_inside(x.entries[i], x.entries.len()));
                    }
                }
                EncTable::new(t)
            },
        }
    }

    /// The tables. Their distributions add up, so they always build.
    pub fn new() -> (r: Result<Self>)
        ensures
            r matches Ok(t) && t.wf(),
    {
        proof {
            tiling::lemma_defaults();
            tiling::lemma_built(DEFAULT_LITERAL_LENGTH@, DEFAULT_LITERAL_LENGTH_LOG as nat);
            tiling::lemma_built(DEFAULT_MATCH_LENGTH@, DEFAULT_MATCH_LENGTH_LOG as nat);
            tiling::lemma_built(DEFAULT_OFFSET@, DEFAULT_OFFSET_LOG as nat);
        }
        let literal: EncTable = match Self::table(
            &DEFAULT_LITERAL_LENGTH,
            DEFAULT_LITERAL_LENGTH_LOG,
        ) {
            Err(e) => {
                return Err(e);
            },
            Ok(t) => t,
        };
        let match_length: EncTable = match Self::table(
            &DEFAULT_MATCH_LENGTH,
            DEFAULT_MATCH_LENGTH_LOG,
        ) {
            Err(e) => {
                return Err(e);
            },
            Ok(t) => t,
        };
        let offset: EncTable = match Self::table(&DEFAULT_OFFSET, DEFAULT_OFFSET_LOG) {
            Err(e) => {
                return Err(e);
            },
            Ok(t) => t,
        };
        Ok(Predefined { literal, match_length, offset })
    }
}

/// A number as a symbol and extra bits.
#[derive(Debug, Clone, Copy)]
pub struct Code {
    pub symbol: u8,
    pub extra: u64,
    pub bits: u32,
}

/// A sequence as symbols and extra bits.
#[derive(Debug, Clone, Copy)]
pub struct Coded {
    pub literal: Code,
    pub match_length: Code,
    pub offset: Code,
}

/// Whether symbols and extra bits say a sequence.
pub open spec fn says(k: Coded, q: Sequence) -> bool {
    &&& k.literal.symbol < 36
    &&& k.literal.bits == LITERAL_LENGTH_EXTRA@[k.literal.symbol as int]
    &&& LITERAL_LENGTH_BASE@[k.literal.symbol as int] + k.literal.extra == q.literals
    &&& k.literal.extra < pow2(k.literal.bits as nat)
    &&& k.match_length.symbol < 53
    &&& k.match_length.bits == MATCH_LENGTH_EXTRA@[k.match_length.symbol as int]
    &&& MATCH_LENGTH_BASE@[k.match_length.symbol as int] + k.match_length.extra == q.length
    &&& k.match_length.extra < pow2(k.match_length.bits as nat)
    &&& k.offset.symbol <= MAX_PREDEFINED_OFFSET_CODE
    &&& k.offset.bits == k.offset.symbol
    &&& pow2(k.offset.bits as nat) + k.offset.extra == q.distance + 3
    &&& k.offset.extra < pow2(k.offset.bits as nat)
    &&& k.literal.bits <= 16
    &&& k.match_length.bits <= 16
    &&& q.distance >= 1
}

proof fn lemma_literal_step(i: int)
    requires
        0 <= i < 36,
    ensures
        LITERAL_LENGTH_EXTRA@[i] <= 16,
        i < 35 ==> LITERAL_LENGTH_BASE@[i + 1] == LITERAL_LENGTH_BASE@[i] + pow2(
            LITERAL_LENGTH_EXTRA@[i] as nat,
        ),
        i == 35 ==> LITERAL_LENGTH_BASE@[i] == 65536 && LITERAL_LENGTH_EXTRA@[i] == 16,
        LITERAL_LENGTH_BASE@[0] == 0,
{
    lemma2_to64();
}

proof fn lemma_match_step(i: int)
    requires
        0 <= i < 53,
    ensures
        MATCH_LENGTH_EXTRA@[i] <= 16,
        i < 52 ==> MATCH_LENGTH_BASE@[i + 1] == MATCH_LENGTH_BASE@[i] + pow2(
            MATCH_LENGTH_EXTRA@[i] as nat,
        ),
        i == 52 ==> MATCH_LENGTH_BASE@[i] == 65539 && MATCH_LENGTH_EXTRA@[i] == 16,
        MATCH_LENGTH_BASE@[0] == 3,
{
    lemma2_to64();
}

/// The last of the first numbers up to `c` that is no more than `value`.
pub open spec fn symbol_for(bases: Seq<u32>, value: int, c: int) -> int
    decreases c,
{
    if c <= 0 || bases[c] <= value {
        c
    } else {
        symbol_for(bases, value, c - 1)
    }
}

/// A number as the symbol with the nearest base below it, and the bits that
/// are missing to it.
pub open spec fn code_for(bases: Seq<u32>, extras: Seq<u8>, value: int) -> Code {
    let c = symbol_for(bases, value, bases.len() - 1);
    Code { symbol: c as u8, extra: (value - bases[c]) as u64, bits: extras[c] as u32 }
}

/// A distance as the power of two below it, past the three that name earlier
/// distances, and the bits that are missing to it.
pub open spec fn offset_for(distance: int) -> Code {
    let base = (distance + 3) as nat;
    let n = bits::log2(base);
    Code { symbol: n as u8, extra: (base - pow2(n)) as u64, bits: n as u32 }
}

/// A sequence as symbols and extra bits.
pub open spec fn coded_for(q: Sequence) -> Coded {
    Coded {
        literal: code_for(LITERAL_LENGTH_BASE@, LITERAL_LENGTH_EXTRA@, q.literals as int),
        match_length: code_for(MATCH_LENGTH_BASE@, MATCH_LENGTH_EXTRA@, q.length as int),
        offset: offset_for(q.distance as int),
    }
}

fn literal_code(value: u32) -> (r: Code)
    requires
        value < 131_072,
    ensures
        r.symbol < 36,
        r.bits == LITERAL_LENGTH_EXTRA@[r.symbol as int],
        LITERAL_LENGTH_BASE@[r.symbol as int] + r.extra == value,
        r.extra < pow2(r.bits as nat),
        r.bits <= 16,
        r == code_for(LITERAL_LENGTH_BASE@, LITERAL_LENGTH_EXTRA@, value as int),
{
    let mut c: usize = 35;
    proof {
        lemma_literal_step(35);
    }
    while LITERAL_LENGTH_BASE[c] > value
        invariant
            c < 36,
            value < 131_072,
            c < 35 ==> value < LITERAL_LENGTH_BASE@[c + 1],
            symbol_for(LITERAL_LENGTH_BASE@, value as int, 35) == symbol_for(
                LITERAL_LENGTH_BASE@,
                value as int,
                c as int,
            ),
        decreases c,
    {
        proof {
            lemma_literal_step(c as int);
        }
        c = c - 1;
    }
    proof {
        lemma2_to64();
        lemma_literal_step(c as int);
    }
    Code {
        symbol: c as u8,
        extra: (value - LITERAL_LENGTH_BASE[c]) as u64,
        bits: LITERAL_LENGTH_EXTRA[c] as u32,
    }
}

fn match_code(value: u32) -> (r: Code)
    requires
        3 <= value < 131_075,
    ensures
        r.symbol < 53,
        r.bits == MATCH_LENGTH_EXTRA@[r.symbol as int],
        MATCH_LENGTH_BASE@[r.symbol as int] + r.extra == value,
        r.extra < pow2(r.bits as nat),
        r.bits <= 16,
        r == code_for(MATCH_LENGTH_BASE@, MATCH_LENGTH_EXTRA@, value as int),
{
    let mut c: usize = 52;
    proof {
        lemma_match_step(52);
    }
    while MATCH_LENGTH_BASE[c] > value
        invariant
            c < 53,
            3 <= value < 131_075,
            c < 52 ==> value < MATCH_LENGTH_BASE@[c + 1],
            symbol_for(MATCH_LENGTH_BASE@, value as int, 52) == symbol_for(
                MATCH_LENGTH_BASE@,
                value as int,
                c as int,
            ),
        decreases c,
    {
        proof {
            lemma_match_step(c as int);
        }
        c = c - 1;
    }
    proof {
        lemma2_to64();
        lemma_match_step(c as int);
    }
    Code {
        symbol: c as u8,
        extra: (value - MATCH_LENGTH_BASE[c]) as u64,
        bits: MATCH_LENGTH_EXTRA[c] as u32,
    }
}

/// Whether a sequence can be written.
pub open spec fn writable(q: Sequence) -> bool {
    q.literals < 131_072 && 3 <= q.length < 131_075 && 1 <= q.distance <= 0x1fff_fffc
}

/// Whether all sequences can be written.
pub open spec fn all_writable(qs: Seq<Sequence>) -> bool {
    forall|i: int| 0 <= i < qs.len() ==> writable(#[trigger] qs[i])
}

/// Every sequence that can be written has symbols that the tables can write
/// last and before every state.
proof fn lemma_spellable(tables: &Predefined, k: Coded, q: Sequence, l: int, o: int, m: int)
    requires
        tables.wf(),
        says(k, q),
        0 <= l < tables.literal.states().entries.len(),
        0 <= o < tables.offset.states().entries.len(),
        0 <= m < tables.match_length.states().entries.len(),
    ensures
        ({
            let x = tables.literal.states().entries;
            let y = tables.offset.states().entries;
            let z = tables.match_length.states().entries;
            &&& fse::first_of(x, k.literal.symbol, 0) is Some
            &&& fse::first_of(y, k.offset.symbol, 0) is Some
            &&& fse::first_of(z, k.match_length.symbol, 0) is Some
            &&& fse::lead_of(x, k.literal.symbol, l, x.len() as int) is Some
            &&& fse::lead_of(y, k.offset.symbol, o, y.len() as int) is Some
            &&& fse::lead_of(z, k.match_length.symbol, m, z.len() as int) is Some
        }),
{
    tiling::lemma_defaults();
    tiling::lemma_default_shares(k.literal.symbol as int);
    tiling::lemma_default_shares(k.offset.symbol as int);
    tiling::lemma_default_shares(k.match_length.symbol as int);
    fse::lemma_built_valid(DEFAULT_LITERAL_LENGTH@, DEFAULT_LITERAL_LENGTH_LOG as nat);
    fse::lemma_built_valid(DEFAULT_OFFSET@, DEFAULT_OFFSET_LOG as nat);
    fse::lemma_built_valid(DEFAULT_MATCH_LENGTH@, DEFAULT_MATCH_LENGTH_LOG as nat);
    tiling::lemma_writable(
        DEFAULT_LITERAL_LENGTH@,
        DEFAULT_LITERAL_LENGTH_LOG as nat,
        k.literal.symbol,
        l,
    );
    tiling::lemma_writable(DEFAULT_OFFSET@, DEFAULT_OFFSET_LOG as nat, k.offset.symbol, o);
    tiling::lemma_writable(
        DEFAULT_MATCH_LENGTH@,
        DEFAULT_MATCH_LENGTH_LOG as nat,
        k.match_length.symbol,
        m,
    );
}

/// The tables have states.
proof fn lemma_tables_full(tables: &Predefined)
    requires
        tables.wf(),
    ensures
        tables.literal.states().entries.len() > 0,
        tables.offset.states().entries.len() > 0,
        tables.match_length.states().entries.len() > 0,
{
    lemma_pow2_pos(tables.literal.states().log);
    lemma_pow2_pos(tables.offset.states().log);
    lemma_pow2_pos(tables.match_length.states().log);
}

fn encode_sequence(sequence: &Sequence) -> (r: Result<Coded>)
    ensures
        r is Ok <==> writable(*sequence),
        r matches Ok(k) ==> says(k, *sequence) && k == coded_for(*sequence),
        r matches Err(e) ==> e == Error::Malformed,
{
    if sequence.literals >= 131_072 || sequence.length < 3 || sequence.length >= 131_075
        || sequence.distance == 0 || sequence.distance > 0x1fff_fffc {
        return Err(Error::Malformed);
    }
    let literal: Code = literal_code(sequence.literals);
    let match_length: Code = match_code(sequence.length);
    let base: u32 = sequence.distance + 3;
    let code: u32 = floor_log2(base);
    proof {
        bits::lemma_log2(base as nat);
        lemma2_to64();
        lemma_pow2_unfold((code + 1) as nat);
        if code > 28 {
            if code > 29 {
                lemma_pow2_strictly_increases(29, code as nat);
            }
        }
    }
    let offset: Code = Code {
        symbol: code as u8,
        extra: base as u64 - power_of_two(code),
        bits: code,
    };
    Ok(Coded { literal, match_length, offset })
}

/// The output and the number of literals used after some sequences.
pub open spec fn after(s: sequences::Setting, qs: Seq<Sequence>, out: Seq<u8>) -> Option<
    (Seq<u8>, nat),
>
    decreases qs.len(),
{
    if qs.len() == 0 {
        Some((out, 0))
    } else {
        match after(s, qs.drop_last(), out) {
            None => None,
            Some((o, used)) => {
                let q = qs.last();
                match sequences::emitted(
                    s,
                    o,
                    used,
                    q.literals as nat,
                    q.distance as nat,
                    q.length as nat,
                ) {
                    None => None,
                    Some(p) => Some((p, used + q.literals as nat)),
                }
            },
        }
    }
}

/// The output after some sequences and the literals behind them.
pub open spec fn whole(s: sequences::Setting, qs: Seq<Sequence>, out: Seq<u8>) -> Option<Seq<u8>> {
    match after(s, qs, out) {
        None => None,
        Some((o, used)) => {
            let all = o + s.literals.skip(used as int);
            if all.len() > s.room {
                None
            } else {
                Some(all)
            }
        },
    }
}

/// The extra bits of a sequence.
pub open spec fn extra_bits(w: Seq<bool>, k: Coded) -> Seq<bool> {
    w + bits::bits_of(k.literal.extra as nat, k.literal.bits as nat) + bits::bits_of(
        k.match_length.extra as nat,
        k.match_length.bits as nat,
    ) + bits::bits_of(k.offset.extra as nat, k.offset.bits as nat)
}

/// A sequence whose extra bits were written last is read first.
#[verifier::spinoff_prover]
proof fn lemma_extra(
    s: sequences::Setting,
    p: sequences::Place,
    q: Sequence,
    k: Coded,
    w: Seq<bool>,
    out: Seq<u8>,
)
    requires
        says(k, q),
        bits::has(s.data, 0, extra_bits(w, k)),
        p.back.left == extra_bits(w, k).len(),
        s.literal_length.entries[p.literal_length as int].symbol == k.literal.symbol,
        s.match_length.entries[p.match_length as int].symbol == k.match_length.symbol,
        s.offset.entries[p.offset as int].symbol == k.offset.symbol,
        sequences::emitted(
            s,
            p.out,
            p.used,
            q.literals as nat,
            q.distance as nat,
            q.length as nat,
        ) == Some(out),
    ensures
        match sequences::one_sequence(s, p) {
            Ok(r) => {
                &&& r.back == (stream::Back { left: w.len(), over: p.back.over })
                &&& r.used == p.used + q.literals
                &&& r.out == out
                &&& r.literal_length == p.literal_length
                &&& r.match_length == p.match_length
                &&& r.offset == p.offset
            },
            Err(_) => false,
        },
        bits::has(s.data, 0, w),
{
    reveal(sequences::coded_sequence);
    let w1 = w + bits::bits_of(k.literal.extra as nat, k.literal.bits as nat);
    let w2 = w1 + bits::bits_of(k.match_length.extra as nat, k.match_length.bits as nat);
    let ob = k.offset.bits as nat;
    let mb = k.match_length.bits as nat;
    let lb = k.literal.bits as nat;
    stream::lemma_back(s.data, w2, k.offset.extra as nat, ob, p.back);
    let b1 = stream::back_after(p.back, ob);
    stream::lemma_back(s.data, w1, k.match_length.extra as nat, mb, b1);
    let b2 = stream::back_after(b1, mb);
    stream::lemma_back(s.data, w, k.literal.extra as nat, lb, b2);
}

/// Whether a decoder stands before sequence `i` with the bits `w` to read.
pub open spec fn stands(
    base: sequences::Setting,
    qs: Seq<Sequence>,
    i: int,
    out: Seq<u8>,
    w: Seq<bool>,
    states: (nat, nat, nat),
    s: sequences::Setting,
    p: sequences::Place,
) -> bool {
    &&& s == (sequences::Setting { data: s.data, ..base })
    &&& bits::has(s.data, 0, w)
    &&& p.back.left == w.len()
    &&& p.literal_length == states.0
    &&& p.offset == states.1
    &&& p.match_length == states.2
    &&& after(base, qs.take(i), out) == Some((p.out, p.used))
}

/// Whether the bits `w` and the given states say the sequences from `i` on.
pub open spec fn spelled(
    base: sequences::Setting,
    qs: Seq<Sequence>,
    i: int,
    out: Seq<u8>,
    w: Seq<bool>,
    states: (nat, nat, nat),
) -> bool {
    forall|s: sequences::Setting, p: sequences::Place|
        #![trigger stands(base, qs, i, out, w, states, s, p)]
        stands(base, qs, i, out, w, states, s, p) ==> match sequences::run(
            s,
            p,
            (qs.len() - i) as nat,
        ) {
            Ok((o, _)) => Some(o) == whole(base, qs, out),
            Err(_) => false,
        }
}

/// The states stand for the symbols.
pub open spec fn carry(base: sequences::Setting, states: (nat, nat, nat), k: Coded) -> bool {
    &&& states.0 < base.literal_length.entries.len()
    &&& states.1 < base.offset.entries.len()
    &&& states.2 < base.match_length.entries.len()
    &&& base.literal_length.entries[states.0 as int].symbol == k.literal.symbol
    &&& base.offset.entries[states.1 as int].symbol == k.offset.symbol
    &&& base.match_length.entries[states.2 as int].symbol == k.match_length.symbol
}

proof fn lemma_after_prefix(base: sequences::Setting, qs: Seq<Sequence>, i: int, out: Seq<u8>)
    requires
        0 <= i <= qs.len(),
        after(base, qs, out) is Some,
    ensures
        after(base, qs.take(i), out) is Some,
    decreases qs.len(),
{
    if i < qs.len() {
        lemma_after_prefix(base, qs.drop_last(), i, out);
        assert(qs.drop_last().take(i) =~= qs.take(i));
    } else {
        assert(qs.take(i) =~= qs);
    }
}

/// What sequence `i` makes of the output.
proof fn lemma_after_step(base: sequences::Setting, qs: Seq<Sequence>, i: int, out: Seq<u8>)
    requires
        0 <= i < qs.len(),
        after(base, qs, out) is Some,
    ensures
        after(base, qs.take(i), out) matches Some((o, used)) && sequences::emitted(
            base,
            o,
            used,
            qs[i].literals as nat,
            qs[i].distance as nat,
            qs[i].length as nat,
        ) matches Some(p) && after(base, qs.take(i + 1), out) == Some(
            (p, used + qs[i].literals as nat),
        ),
{
    lemma_after_prefix(base, qs, i, out);
    lemma_after_prefix(base, qs, i + 1, out);
    assert(qs.take(i + 1).drop_last() =~= qs.take(i));
}

/// The last sequence.
proof fn lemma_spell_last(
    base: sequences::Setting,
    qs: Seq<Sequence>,
    out: Seq<u8>,
    k: Coded,
    states: (nat, nat, nat),
)
    requires
        qs.len() > 0,
        whole(base, qs, out) is Some,
        says(k, qs.last()),
        carry(base, states, k),
    ensures
        spelled(base, qs, qs.len() - 1, out, extra_bits(Seq::empty(), k), states),
{
    let e = Seq::<bool>::empty();
    let w = extra_bits(e, k);
    let i = qs.len() - 1;
    lemma_after_step(base, qs, i, out);
    assert(qs.take(i + 1) =~= qs);
    assert forall|s: sequences::Setting, p: sequences::Place|
        #![trigger stands(base, qs, i, out, w, states, s, p)]
        stands(base, qs, i, out, w, states, s, p) implies match sequences::run(
        s,
        p,
        (qs.len() - i) as nat,
    ) {
        Ok((o, _)) => Some(o) == whole(base, qs, out),
        Err(_) => false,
    } by {
        let q = qs[i];
        let o = after(base, qs, out)->Some_0.0;
        assert(sequences::emitted(
            s,
            p.out,
            p.used,
            q.literals as nat,
            q.distance as nat,
            q.length as nat,
        ) == Some(o));
        lemma_extra(s, p, q, k, e, o);
        let r = sequences::one_sequence(s, p)->Ok_0;
        assert(sequences::run(s, p, 1) == sequences::run(s, r, 0));
    }
}

/// A sequence before those that are written.
#[verifier::rlimit(30)]
#[verifier::spinoff_prover]
proof fn lemma_spell_step(
    base: sequences::Setting,
    qs: Seq<Sequence>,
    i: int,
    out: Seq<u8>,
    w: Seq<bool>,
    k: Coded,
    states: (nat, nat, nat),
    next: (nat, nat, nat),
    wo: Seq<bool>,
    wm: Seq<bool>,
    wl: Seq<bool>,
)
    requires
        0 <= i < qs.len() - 1,
        whole(base, qs, out) is Some,
        says(k, qs[i]),
        carry(base, states, k),
        base.literal_length.valid(),
        base.offset.valid(),
        base.match_length.valid(),
        next.0 < base.literal_length.entries.len(),
        next.1 < base.offset.entries.len(),
        next.2 < base.match_length.entries.len(),
        spelled(base, qs, i + 1, out, w, next),
        fse::lead_of(
            base.offset.entries,
            k.offset.symbol,
            next.1 as int,
            base.offset.entries.len() as int,
        ) == Some(states.1 as int),
        fse::lead_of(
            base.match_length.entries,
            k.match_length.symbol,
            next.2 as int,
            base.match_length.entries.len() as int,
        ) == Some(states.2 as int),
        fse::lead_of(
            base.literal_length.entries,
            k.literal.symbol,
            next.0 as int,
            base.literal_length.entries.len() as int,
        ) == Some(states.0 as int),
        ({
            let eo = base.offset.entries[states.1 as int];
            let em = base.match_length.entries[states.2 as int];
            let el = base.literal_length.entries[states.0 as int];
            &&& wo == w + bits::bits_of((next.1 - eo.base) as nat, eo.bits as nat)
            &&& wm == wo + bits::bits_of((next.2 - em.base) as nat, em.bits as nat)
            &&& wl == wm + bits::bits_of((next.0 - el.base) as nat, el.bits as nat)
        }),
    ensures
        spelled(base, qs, i, out, extra_bits(wl, k), states),
{
    let all = extra_bits(wl, k);
    lemma_after_step(base, qs, i, out);
    lemma_after_prefix(base, qs, i + 1, out);
    assert forall|s: sequences::Setting, p: sequences::Place|
        #![trigger stands(base, qs, i, out, all, states, s, p)]
        stands(base, qs, i, out, all, states, s, p) implies match sequences::run(
        s,
        p,
        (qs.len() - i) as nat,
    ) {
        Ok((o, _)) => Some(o) == whole(base, qs, out),
        Err(_) => false,
    } by {
        let q = qs[i];
        let o = after(base, qs.take(i + 1), out)->Some_0.0;
        assert(sequences::emitted(
            s,
            p.out,
            p.used,
            q.literals as nat,
            q.distance as nat,
            q.length as nat,
        ) == Some(o));
        lemma_extra(s, p, q, k, wl, o);
        let r = sequences::one_sequence(s, p)->Ok_0;
        fse::lemma_step_back(s.literal_length, k.literal.symbol, next.0, s.data, wm, r.back);
        let b1 = stream::Back { left: wm.len(), over: r.back.over };
        fse::lemma_step_back(s.match_length, k.match_length.symbol, next.2, s.data, wo, b1);
        let b2 = stream::Back { left: wo.len(), over: r.back.over };
        fse::lemma_step_back(s.offset, k.offset.symbol, next.1, s.data, w, b2);
        let a = sequences::advanced(s, r);
        assert(stands(base, qs, i + 1, out, w, next, s, a));
        assert(sequences::run(s, p, (qs.len() - i) as nat) == sequences::run(
            s,
            a,
            (qs.len() - (i + 1)) as nat,
        ));
    }
}

/// Whether a stream reads back as sequences.
pub open spec fn reads_back(
    base: sequences::Setting,
    data: Seq<u8>,
    qs: Seq<Sequence>,
    out: Seq<u8>,
    repeats: Seq<u32>,
) -> bool {
    let s = sequences::Setting { data, ..base };
    match sequences::run(
        s,
        sequences::start(s, stream::payload(data)->Some_0, repeats, out),
        qs.len(),
    ) {
        Ok((o, _)) => Some(o) == whole(base, qs, out),
        Err(_) => false,
    }
}

/// Sequences as bits that are read from the end, and the three states that
/// reading starts from.
pub struct Spelling {
    pub bits: Seq<bool>,
    pub literal: int,
    pub offset: int,
    pub match_length: int,
}

/// The bits that a state leaves out of the one that follows it.
pub open spec fn step_bits(e: fse::Entry, next: int) -> Seq<bool> {
    bits::bits_of((next - e.base) as nat, e.bits as nat)
}

/// The sequences from `i` on. The last one is in the first state of each of
/// its symbols, and each one before it in the state of its symbol that leads
/// on.
pub open spec fn spelling(
    literal: fse::States,
    offset: fse::States,
    match_length: fse::States,
    qs: Seq<Sequence>,
    i: int,
) -> Spelling
    decreases qs.len() - i,
{
    let x = literal.entries;
    let y = offset.entries;
    let z = match_length.entries;
    let k = coded_for(qs[i]);
    if i >= qs.len() - 1 {
        Spelling {
            bits: extra_bits(Seq::empty(), k),
            literal: fse::first_of(x, k.literal.symbol, 0)->Some_0,
            offset: fse::first_of(y, k.offset.symbol, 0)->Some_0,
            match_length: fse::first_of(z, k.match_length.symbol, 0)->Some_0,
        }
    } else {
        let next = spelling(literal, offset, match_length, qs, i + 1);
        let l = fse::lead_of(x, k.literal.symbol, next.literal, x.len() as int)->Some_0;
        let o = fse::lead_of(y, k.offset.symbol, next.offset, y.len() as int)->Some_0;
        let m = fse::lead_of(z, k.match_length.symbol, next.match_length, z.len() as int)->Some_0;
        let w = next.bits + step_bits(y[o], next.offset) + step_bits(z[m], next.match_length)
            + step_bits(x[l], next.literal);
        Spelling { bits: extra_bits(w, k), literal: l, offset: o, match_length: m }
    }
}

/// The stream that says some sequences.
pub open spec fn sequence_bytes(
    literal: fse::States,
    offset: fse::States,
    match_length: fse::States,
    qs: Seq<Sequence>,
) -> Seq<u8> {
    let s = spelling(literal, offset, match_length, qs, 0);
    stream::closed(
        s.bits + bits::bits_of(s.match_length as nat, match_length.log) + bits::bits_of(
            s.offset as nat,
            offset.log,
        ) + bits::bits_of(s.literal as nat, literal.log),
    )
}

/// Write the stream of states and extra bits.
#[verifier::rlimit(60)]
#[verifier::spinoff_prover]
fn spell(
    qs: &Vec<Sequence>,
    tables: &Predefined,
    base: Ghost<sequences::Setting>,
    out: Ghost<Seq<u8>>,
) -> (r: Result<Vec<u8>>)
    requires
        qs.len() > 0,
        tables.wf(),
        base@.literal_length == tables.literal.states(),
        base@.offset == tables.offset.states(),
        base@.match_length == tables.match_length.states(),
        whole(base@, qs@, out@) is Some,
    ensures
        r is Ok <==> all_writable(qs@),
        r matches Err(e) ==> e == Error::Malformed,
        r matches Ok(v) ==> stream::payload(v@) is Some && v@.len() > 0 && forall|
            repeats: Seq<u32>,
        | #[trigger] reads_back(base@, v@, qs@, out@, repeats),
        r matches Ok(v) ==> v@ == sequence_bytes(
            tables.literal.states(),
            tables.offset.states(),
            tables.match_length.states(),
            qs@,
        ),
{
    let n: usize = qs.len();
    let last: Coded = match encode_sequence(&qs[n - 1]) {
        Err(e) => {
            return Err(e);
        },
        Ok(k) => k,
    };
    proof {
        lemma_tables_full(tables);
        lemma_spellable(tables, last, qs@[n - 1], 0, 0, 0);
    }
    let mut writer: BitWriter = BitWriter::new();
    let mut literal_state: usize = match tables.literal.start(last.literal.symbol) {
        Err(e) => {
            return Err(e);
        },
        Ok(s) => s,
    };
    let mut offset_state: usize = match tables.offset.start(last.offset.symbol) {
        Err(e) => {
            return Err(e);
        },
        Ok(s) => s,
    };
    let mut match_state: usize = match tables.match_length.start(last.match_length.symbol) {
        Err(e) => {
            return Err(e);
        },
        Ok(s) => s,
    };
    writer.add(last.literal.extra, last.literal.bits);
    writer.add(last.match_length.extra, last.match_length.bits);
    writer.add(last.offset.extra, last.offset.bits);
    proof {
        lemma_spell_last(
            base@,
            qs@,
            out@,
            last,
            (literal_state as nat, offset_state as nat, match_state as nat),
        );
    }
    let mut i: usize = n - 1;
    let ghost xs = tables.literal.states();
    let ghost ys = tables.offset.states();
    let ghost zs = tables.match_length.states();
    assert(writer@ =~= extra_bits(Seq::empty(), last));
    while i > 0
        invariant
            i < n == qs@.len(),
            tables.wf(),
            xs == tables.literal.states(),
            ys == tables.offset.states(),
            zs == tables.match_length.states(),
            spelling(xs, ys, zs, qs@, i as int) == (Spelling {
                bits: writer@,
                literal: literal_state as int,
                offset: offset_state as int,
                match_length: match_state as int,
            }),
            base@.literal_length == tables.literal.states(),
            base@.offset == tables.offset.states(),
            base@.match_length == tables.match_length.states(),
            whole(base@, qs@, out@) is Some,
            writer.wf(),
            forall|j: int| i <= j < n ==> writable(#[trigger] qs@[j]),
            literal_state < base@.literal_length.entries.len(),
            offset_state < base@.offset.entries.len(),
            match_state < base@.match_length.entries.len(),
            spelled(
                base@,
                qs@,
                i as int,
                out@,
                writer@,
                (literal_state as nat, offset_state as nat, match_state as nat),
            ),
        decreases i,
    {
        let k: Coded = match encode_sequence(&qs[i - 1]) {
            Err(e) => {
                return Err(e);
            },
            Ok(k) => k,
        };
        let ghost w = writer@;
        let ghost next = (literal_state as nat, offset_state as nat, match_state as nat);
        proof {
            lemma_spellable(
                tables,
                k,
                qs@[i - 1],
                literal_state as int,
                offset_state as int,
                match_state as int,
            );
        }
        if let Err(e) = tables.offset.encode(&mut offset_state, k.offset.symbol, &mut writer) {
            return Err(e);
        }
        let ghost wo = writer@;
        if let Err(e) = tables.match_length.encode(
            &mut match_state,
            k.match_length.symbol,
            &mut writer,
        ) {
            return Err(e);
        }
        let ghost wm = writer@;
        if let Err(e) = tables.literal.encode(
            &mut literal_state,
            k.literal.symbol,
            &mut writer,
        ) {
            return Err(e);
        }
        let ghost wl = writer@;
        writer.add(k.literal.extra, k.literal.bits);
        writer.add(k.match_length.extra, k.match_length.bits);
        writer.add(k.offset.extra, k.offset.bits);
        i = i - 1;
        proof {
            lemma_spell_step(
                base@,
                qs@,
                i as int,
                out@,
                w,
                k,
                (literal_state as nat, offset_state as nat, match_state as nat),
                next,
                wo,
                wm,
                wl,
            );
        }
    }
    let ghost w = writer@;
    let ghost states = (literal_state as nat, offset_state as nat, match_state as nat);
    tables.match_length.flush(match_state, &mut writer);
    tables.offset.flush(offset_state, &mut writer);
    tables.literal.flush(literal_state, &mut writer);
    let ghost closed = writer@;
    let v: Vec<u8> = writer.finish();
    proof {
        stream::lemma_closed(v@, closed);
        let s = sequences::Setting { data: v@, ..base@ };
        let m = s.match_length.log;
        let o = s.offset.log;
        let l = s.literal_length.log;
        let w1 = w + bits::bits_of(states.2, m);
        let w2 = w1 + bits::bits_of(states.1, o);
        assert(closed == w2 + bits::bits_of(states.0, l));
        assert forall|repeats: Seq<u32>| #[trigger]
            reads_back(base@, v@, qs@, out@, repeats) by {
            let b = stream::Back { left: closed.len(), over: false };
            stream::lemma_back(v@, w2, states.0, l, b);
            let b1 = stream::back_after(b, l);
            stream::lemma_back(v@, w1, states.1, o, b1);
            let b2 = stream::back_after(b1, o);
            stream::lemma_back(v@, w, states.2, m, b2);
            let p = sequences::start(s, stream::payload(v@)->Some_0, repeats, out@);
            assert(qs@.take(0) =~= Seq::<Sequence>::empty());
            assert(stands(base@, qs@, 0, out@, w, states, s, p));
        }
    }
    Ok(v)
}

/// A number of sequences.
pub open spec fn count_bytes(n: nat) -> Seq<u8> {
    if n < 128 {
        seq![n as u8]
    } else if n < 0x7F00 {
        seq![(128 + n / 256) as u8, (n % 256) as u8]
    } else {
        seq![255u8, ((n - 0x7F00) % 256) as u8, ((n - 0x7F00) / 256) as u8]
    }
}

proof fn lemma_count(n: nat, rest: Seq<u8>)
    requires
        n < 0x1_7F00,
    ensures
        sequences::counted(count_bytes(n) + rest) == Ok::<(nat, nat), Error>(
            (n, count_bytes(n).len()),
        ),
{
    let d = count_bytes(n) + rest;
    assert(d[0] == count_bytes(n)[0]);
    if n >= 128 {
        assert(d[1] == count_bytes(n)[1]);
    }
    if n >= 0x7F00 {
        assert(d[2] == count_bytes(n)[2]);
    }
}

fn write_sequence_count(out: &mut Vec<u8>, count: usize)
    requires
        count < 0x1_7F00,
    ensures
        final(out)@ == old(out)@ + count_bytes(count as nat),
{
    if count < 128 {
        out.push(count as u8);
    } else if count < 0x7F00 {
        out.push((128 + count / 256) as u8);
        out.push((count % 256) as u8);
    } else {
        let value: usize = count - 0x7F00;
        out.push(255);
        out.push((value % 256) as u8);
        out.push((value / 256) as u8);
    }
    assert(out@ =~= old(out)@ + count_bytes(count as nat));
}

/// The literals of a block.
pub open spec fn literal_section(lits: Seq<u8>) -> Seq<u8> {
    match huffman_section(lits) {
        Some(v) => v,
        None => plain_section(lits),
    }
}

/// The body of a block: its literals, and its sequences in the tables that
/// the format defines.
pub open spec fn body_of(lits: Seq<u8>, qs: Seq<Sequence>) -> Seq<u8> {
    let l = literal_section(lits);
    let c = count_bytes(qs.len());
    if qs.len() == 0 {
        l + c
    } else {
        l + (c + (seq![0u8] + sequence_bytes(
            fse::built(DEFAULT_LITERAL_LENGTH@, DEFAULT_LITERAL_LENGTH_LOG as nat)->Ok_0,
            fse::built(DEFAULT_OFFSET@, DEFAULT_OFFSET_LOG as nat)->Ok_0,
            fse::built(DEFAULT_MATCH_LENGTH@, DEFAULT_MATCH_LENGTH_LOG as nat)->Ok_0,
            qs,
        )))
    }
}

/// Whether a block's body takes a frame's output from `out` to `want`.
pub open spec fn expands(
    body: Seq<u8>,
    window: nat,
    room: nat,
    out: Seq<u8>,
    want: Seq<u8>,
) -> bool {
    forall|f: layout::Frame|
        f.done.out == out && f.header.window == window ==> match #[trigger] layout::compressed(
            body,
            f,
            room,
        ) {
            Ok(g) => g.done.out == want && g.header == f.header,
            Err(_) => false,
        }
}

/// A section that holds no sequences.
proof fn lemma_no_sequences(base: sequences::Setting, l: Seq<u8>, out: Seq<u8>)
    requires
        carries(l, base.literals),
        whole(base, Seq::empty(), out) is Some,
    ensures
        expands(
            l + count_bytes(0),
            base.window,
            base.room,
            out,
            whole(base, Seq::empty(), out)->Some_0,
        ),
{
    let s = count_bytes(0);
    let body = l + s;
    assert(base.literals.skip(0) =~= base.literals);
    assert forall|f: layout::Frame|
        f.done.out == out && f.header.window == base.window implies match #[trigger] layout::compressed(
        body,
        f,
        base.room,
    ) {
        Ok(g) => g.done.out == out + base.literals && g.header == f.header,
        Err(_) => false,
    } by {
        assert(layout::literals(l + s, f.literals) is Ok);
        assert(body.skip(l.len() as int) =~= s);
        lemma_count(0, Seq::empty());
        assert(s + Seq::<u8>::empty() =~= s);
    }
}

/// A section with sequences in the tables that the format defines.
#[verifier::rlimit(30)]
#[verifier::spinoff_prover]
proof fn lemma_sequences(
    base: sequences::Setting,
    l: Seq<u8>,
    qs: Seq<Sequence>,
    v: Seq<u8>,
    out: Seq<u8>,
)
    requires
        carries(l, base.literals),
        0 < qs.len() < 0x1_7F00,
        whole(base, qs, out) is Some,
        stream::payload(v) is Some,
        v.len() > 0,
        forall|repeats: Seq<u32>| #[trigger] reads_back(base, v, qs, out, repeats),
        is_default(
            base.literal_length,
            DEFAULT_LITERAL_LENGTH@,
            DEFAULT_LITERAL_LENGTH_LOG as nat,
        ),
        is_default(
            base.match_length,
            DEFAULT_MATCH_LENGTH@,
            DEFAULT_MATCH_LENGTH_LOG as nat,
        ),
        is_default(base.offset, DEFAULT_OFFSET@, DEFAULT_OFFSET_LOG as nat),
    ensures
        expands(
            l + (count_bytes(qs.len()) + (seq![0u8] + v)),
            base.window,
            base.room,
            out,
            whole(base, qs, out)->Some_0,
        ),
{
    let c = count_bytes(qs.len());
    let d = c + (seq![0u8] + v);
    let body = l + d;
    let want = whole(base, qs, out)->Some_0;
    lemma_count(qs.len(), seq![0u8] + v);
    assert(d[c.len() as int] == 0);
    assert(d.skip(c.len() as int + 1) =~= v);
    assert forall|f: layout::Frame|
        f.done.out == out && f.header.window == base.window implies match #[trigger] layout::compressed(
        body,
        f,
        base.room,
    ) {
        Ok(g) => g.done.out == want && g.header == f.header,
        Err(_) => false,
    } by {
        assert(layout::literals(l + d, f.literals) is Ok);
        assert(body.skip(l.len() as int) =~= d);
        let tables = sequences::Sent {
            literal_length: Some(base.literal_length),
            offset: Some(base.offset),
            match_length: Some(base.match_length),
        };
        assert(sequences::tables_at(d, c.len(), f.done.sent) == Ok::<
            (sequences::Sent, nat),
            Error,
        >((tables, c.len() + 1)));
        assert(reads_back(base, v, qs, out, f.done.repeats));
    }
}

/// A block's body.
pub fn compressed_body(
    literals: &Vec<u8>,
    qs: &Vec<Sequence>,
    tables: &Predefined,
    window: Ghost<nat>,
    room: Ghost<nat>,
    out: Ghost<Seq<u8>>,
) -> (r: Result<Vec<u8>>)
    requires
        tables.wf(),
        literals.len() <= 0x2_0000,
        qs.len() < 0x1_7F00,
        whole(tables.setting(literals@, window@, room@), qs@, out@) is Some,
    ensures
        r is Ok <==> all_writable(qs@),
        r matches Err(e) ==> e == Error::Malformed,
        r matches Ok(v) ==> expands(
            v@,
            window@,
            room@,
            out@,
            whole(tables.setting(literals@, window@, room@), qs@, out@)->Some_0,
        ) && v@ == body_of(literals@, qs@),
{
    let ghost base = tables.setting(literals@, window@, room@);
    let mut body: Vec<u8> = Vec::new();
    match huffman_literals(literals) {
        Some(coded) => {
            body.extend_from_slice(&coded);
            assert(body@ =~= coded@);
        },
        None => {
            write_raw_literals(&mut body, literals);
            proof {
                lemma_plain(literals@);
            }
            assert(body@ =~= plain_section(literals@));
        },
    }
    let ghost l = body@;
    write_sequence_count(&mut body, qs.len());
    if qs.len() == 0 {
        proof {
            assert(qs@ =~= Seq::<Sequence>::empty());
            lemma_no_sequences(base, l, out@);
        }
        return Ok(body);
    }
    body.push(0);
    let v: Vec<u8> = match spell(qs, tables, Ghost(base), out) {
        Err(e) => {
            return Err(e);
        },
        Ok(v) => v,
    };
    body.extend_from_slice(&v);
    proof {
        lemma_sequences(base, l, qs@, v@, out@);
        let c = count_bytes(qs@.len());
        assert(body@ =~= l + (c + (seq![0u8] + v@)));
    }
    Ok(body)
}

impl Predefined {
    /// What stays the same over a block that uses these tables.
    pub closed spec fn setting(
        &self,
        literals: Seq<u8>,
        window: nat,
        room: nat,
    ) -> sequences::Setting {
        sequences::Setting {
            data: Seq::empty(),
            literal_length: self.literal.states(),
            offset: self.offset.states(),
            match_length: self.match_length.states(),
            literals,
            window,
            room,
        }
    }

    pub proof fn lemma_setting(&self, literals: Seq<u8>, window: nat, room: nat)
        ensures
            self.setting(literals, window, room).literals == literals,
            self.setting(literals, window, room).window == window,
            self.setting(literals, window, room).room == room,
            forall|more: Seq<u8>|
                #[trigger] self.setting(more, window, room) == (sequences::Setting {
                    literals: more,
                    ..self.setting(literals, window, room)
                }),
    {
    }
}

/// More literals behind those in use change nothing.
pub proof fn lemma_after_more(
    s: sequences::Setting,
    t: sequences::Setting,
    qs: Seq<Sequence>,
    out: Seq<u8>,
)
    requires
        after(s, qs, out) is Some,
        s.window == t.window,
        s.room == t.room,
        s.literals.is_prefix_of(t.literals),
    ensures
        after(t, qs, out) == after(s, qs, out),
        after(s, qs, out)->Some_0.1 <= s.literals.len(),
    decreases qs.len(),
{
    if qs.len() > 0 {
        lemma_after_more(s, t, qs.drop_last(), out);
        let (o, used) = after(s, qs.drop_last(), out)->Some_0;
        let n = used + qs.last().literals as nat;
        assert(t.literals.subrange(used as int, n as int) =~= s.literals.subrange(
            used as int,
            n as int,
        )) by {
            assert(t.literals.take(s.literals.len() as int) == s.literals);
            assert forall|i: int| used <= i < n implies t.literals[i] == s.literals[i] by {
                assert(t.literals.take(s.literals.len() as int)[i] == t.literals[i]);
            }
        }
    }
}

} // verus!
