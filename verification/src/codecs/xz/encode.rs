//! Writing xz.
use crate::codecs::lzma::decode::Properties;
use crate::codecs::lzma::encode;
use crate::codecs::lzma::encode::dictionary_at;
use crate::codecs::lzma::lzma2;
use crate::codecs::lzma::syntax as lzma_syntax;
use crate::codecs::xz::filters;
use crate::codecs::xz::syntax;
use crate::codecs::xz::syntax::{Block, Check, Filter, Part};
use crate::codecs::Level;
use crate::utils::bytes;
use crate::utils::bytes::put_le;
use crate::utils::crc32;
use crate::utils::crc32::checksum;
use crate::utils::crc64;
use crate::utils::crc64::Crc64;
use crate::utils::error;
use crate::utils::error::Error;
use vstd::prelude::*;

verus! {

/// The bytes a stream starts with.
pub const MAGIC: [u8; 6] = [0xFD, 0x37, 0x7A, 0x58, 0x5A, 0x00];

/// The most data that goes into one stream.
pub const MAX_DATA: u64 = 0x1000_0000_0000_0000;

/// The flags of every stream written here: a CRC-64 check.
pub open spec fn stream_flags() -> Seq<u8> {
    seq![0u8, 4]
}

/// The header of a stream.
pub open spec fn stream_head() -> Seq<u8> {
    seq![0xFDu8, 0x37, 0x7A, 0x58, 0x5A, 0x00] + stream_flags() + bytes::le_bytes(
        crc32::crc32(stream_flags()) as nat,
        4,
    )
}

/// The header of a block, up to its checksum.
pub open spec fn block_head_body(code: u8) -> Seq<u8> {
    seq![2u8, 0, 0x21, 1, code, 0, 0, 0]
}

/// The header of a block.
pub open spec fn block_head(code: u8) -> Seq<u8> {
    block_head_body(code) + bytes::le_bytes(crc32::crc32(block_head_body(code)) as nat, 4)
}

/// Zeros up to a multiple of four.
pub open spec fn pad_bytes(n: int) -> Seq<u8> {
    Seq::new(syntax::padding(n) as nat, |i: int| 0u8)
}

/// The index of one block, up to its padding.
pub open spec fn index_body(unpadded: nat, size: nat) -> Seq<u8> {
    seq![0u8, 1] + syntax::vint_bytes(unpadded) + syntax::vint_bytes(size)
}

/// The index of one block, up to its checksum.
pub open spec fn index(unpadded: nat, size: nat) -> Seq<u8> {
    let body = index_body(unpadded, size);
    body + pad_bytes(body.len() as int)
}

/// The part of the footer that its checksum covers.
pub open spec fn footer_body(index_len: nat) -> Seq<u8> {
    bytes::le_bytes((index_len / 4 - 1) as nat, 4) + stream_flags()
}

/// The footer.
pub open spec fn footer(index_len: nat) -> Seq<u8> {
    bytes::le_bytes(crc32::crc32(footer_body(index_len)) as nat, 4) + footer_body(index_len) + seq![
        0x59u8,
        0x5A,
    ]
}

/// Index, checksum and footer.
pub open spec fn index_and_footer(unpadded: nat, size: nat) -> Seq<u8> {
    let ix = index(unpadded, size);
    ix + bytes::le_bytes(crc32::crc32(ix) as nat, 4) + footer(ix.len() + 4)
}

/// What follows the compressed data of `n` bytes that holds `d`.
pub open spec fn closing(n: nat, d: Seq<u8>) -> Seq<u8> {
    pad_bytes(n as int) + bytes::le_bytes(crc64::crc64(d) as nat, 8) + index_and_footer(
        n + 20,
        d.len(),
    )
}

/// A stream of one block.
pub open spec fn stream_bytes(code: u8, body: Seq<u8>, d: Seq<u8>) -> Seq<u8> {
    stream_head() + block_head(code) + body + closing(body.len(), d)
}

/// Whether `r` is a stream of one block that holds `d`.
pub open spec fn is_xz(r: Seq<u8>, d: Seq<u8>) -> bool {
    exists|code: u8, body: Seq<u8>, dict_size: int|
        {
            &&& code <= 40
            &&& dict_size <= lzma2::dictionary_of(code as int)
            &&& 4096 <= lzma2::dictionary_of(code as int) <= 0x4000_0000
            &&& #[trigger] lzma2::is_stream(body, dict_size, d)
            &&& body.len() + 20 < 0x8000_0000_0000_0000
            &&& r == #[trigger] stream_bytes(code, body, d)
        }
}

/// The usual parameters, with this dictionary.
pub open spec fn usual_props(dict: int) -> Properties {
    Properties { lc: 3, lp: 0, pb: 2, dict_size: dict as u32 }
}

/// Whether `r` is the stream that holds `d` in one block with these
/// parameters, a match being looked for at up to `depth` earlier places.
pub open spec fn is_stream_of(r: Seq<u8>, props: Properties, depth: usize, d: Seq<u8>) -> bool {
    exists|code: u8|
        lzma2::is_code_for(code as int, props.dict_size as int) && r == #[trigger] stream_bytes(
            code,
            lzma2::stream_of(props, depth, d.len() as int, d),
            d,
        )
}

proof fn lemma_piece(a: Seq<u8>, b: Seq<u8>, c: Seq<u8>)
    ensures
        (a + b + c).subrange(a.len() as int, (a.len() + b.len()) as int) == b,
        (a + b + c).skip(a.len() as int) == b + c,
{
    assert((a + b + c).subrange(a.len() as int, (a.len() + b.len()) as int) =~= b);
    assert((a + b + c).skip(a.len() as int) =~= b + c);
}

proof fn lemma_head_read(data: Seq<u8>, rest: Seq<u8>)
    requires
        data == stream_head() + rest,
    ensures
        stream_head().len() == 12,
        syntax::stream_header(data, 0) == Ok::<Check, Error>(Check::Crc64),
        data[7] == 4,
        data[0] != 0,
{
    let crc = crc32::crc32(stream_flags()) as nat;
    bytes::lemma_le_bytes_len(crc, 4);
    assert(data.subrange(6, 8) =~= stream_flags());
    assert(data.subrange(8, 12) =~= bytes::le_bytes(crc, 4));
    reveal_with_fuel(bytes::span, 5);
    bytes::lemma_le_round_trip(data, 8, crc, 4);
}

/// The block that every header written here describes.
pub open spec fn plain(code: u8) -> Block {
    Block {
        compressed: None,
        uncompressed: None,
        filters: seq![Filter { id: filters::LZMA2, props: seq![code] }],
    }
}

proof fn lemma_block_read(data: Seq<u8>, at: int, before: Seq<u8>, code: u8, rest: Seq<u8>)
    requires
        data == before + block_head(code) + rest,
        at == before.len(),
    ensures
        block_head(code).len() == 12,
        data[at] == 2,
        syntax::block_header_len(data, at) == 12,
        syntax::block_header(data, at) == Some(plain(code)),
{
    let h = block_head_body(code);
    let crc = crc32::crc32(h) as nat;
    bytes::lemma_le_bytes_len(crc, 4);
    lemma_piece(before, block_head(code), rest);
    let hd = data.subrange(at, at + 12);
    assert(hd == block_head(code));
    assert(data[at] == hd[0]);
    assert(data.subrange(at, at + 8) =~= hd.take(8));
    assert(hd.take(8) =~= h);
    assert(data.subrange(at + 8, at + 12) =~= hd.skip(8));
    assert(hd.skip(8) =~= bytes::le_bytes(crc, 4));
    reveal_with_fuel(bytes::span, 5);
    bytes::lemma_le_round_trip(data, at + 8, crc, 4);
    let b = data.subrange(at + 1, at + 8);
    assert(b =~= seq![0u8, 0x21, 1, code, 0, 0, 0]);
    assert(b[0] == 0 && b[1] == 0x21 && b[2] == 1 && b[3] == code);
    assert(syntax::vint(b, 1, 0, true) == Some((0x21nat, 2int)));
    assert(syntax::vint(b, 2, 0, true) == Some((1nat, 3int)));
    assert(syntax::filters_at(b, 4, 0) == Some((Seq::<Filter>::empty(), 4int)));
    assert(b.subrange(3, 4) =~= seq![code]);
    let fs = seq![Filter { id: 0x21u64, props: b.subrange(3, 4) }] + Seq::<Filter>::empty();
    assert(syntax::filters_at(b, 1, 1) == Some((fs, 4int)));
    assert(fs =~= plain(code).filters);
}

/// The index and the footer, read to the end of the data.
#[verifier::rlimit(60)]
#[verifier::spinoff_prover]
proof fn lemma_tail_read(data: Seq<u8>, before: Seq<u8>, unpadded: nat, size: nat)
    requires
        data == before + index_and_footer(unpadded, size),
        unpadded < 0x8000_0000_0000_0000,
        size < 0x8000_0000_0000_0000,
    ensures
        before.len() < data.len(),
        data[before.len() as int] == 0,
        syntax::tail(data, before.len() as int + 1, 4, false) == Some(data.len() as int),
{
    let at = before.len() as int;
    let v1 = syntax::vint_bytes(unpadded);
    let v2 = syntax::vint_bytes(size);
    let body = index_body(unpadded, size);
    let ix = index(unpadded, size);
    let crc = crc32::crc32(ix) as nat;
    let ft = footer(ix.len() + 4);
    let p = pad_bytes(body.len() as int);
    assert(data =~= before + ix + (bytes::le_bytes(crc, 4) + ft));
    bytes::lemma_le_bytes_len(crc, 4);
    assert(data[at] == 0);
    assert(data[at + 1] == 1);
    assert(syntax::vint(data, at + 1, 0, false) == Some((1nat, at + 2)));
    reveal_with_fuel(syntax::span128, 10);
    assert(syntax::span128(9) == 0x8000_0000_0000_0000);
    let q1 = at + 2 + v1.len();
    let q2 = q1 + v2.len();
    assert(data.subrange(at + 2, q1) =~= v1);
    assert(data.subrange(q1, q2) =~= v2);
    syntax::lemma_vint_back(data, at + 2, 0, false, unpadded);
    syntax::lemma_vint_back(data, q1, 0, false, size);
    assert(syntax::records(data, q2, 0, false) == Some(q2));
    assert(syntax::records(data, at + 2, 1, false) == Some(q2));
    assert(q2 - (at + 1) + 1 == body.len());
    let foot = q2 + p.len() + 4;
    assert(foot == at + ix.len() + 4);
    assert(data =~= (before + ix + bytes::le_bytes(crc, 4)) + ft + Seq::<u8>::empty());
    lemma_piece(before + ix + bytes::le_bytes(crc, 4), ft, Seq::empty());
    lemma_footer_read(data, foot, ix.len() + 4);
}

proof fn lemma_footer_read(data: Seq<u8>, at: int, index_len: nat)
    requires
        0 <= at,
        at + footer(index_len).len() == data.len(),
        data.subrange(at, data.len() as int) == footer(index_len),
    ensures
        footer(index_len).len() == 12,
        syntax::footer_ok(data, at, 4),
{
    let f = footer_body(index_len);
    let crc = crc32::crc32(f) as nat;
    bytes::lemma_le_bytes_len(crc, 4);
    bytes::lemma_le_bytes_len((index_len / 4 - 1) as nat, 4);
    let ft = data.subrange(at, at + 12);
    assert(ft =~= footer(index_len));
    assert(data[at + 10] == ft[10] && data[at + 11] == ft[11] && data[at + 8] == ft[8] && data[at
        + 9] == ft[9]);
    assert(data.subrange(at + 4, at + 10) =~= ft.subrange(4, 10));
    assert(ft.subrange(4, 10) =~= f);
    assert(data.subrange(at, at + 4) =~= ft.take(4));
    assert(ft.take(4) =~= bytes::le_bytes(crc, 4));
    reveal_with_fuel(bytes::span, 5);
    bytes::lemma_le_round_trip(data, at, crc, 4);
}

/// The start of a stream of one block.
proof fn lemma_start_read(r: Seq<u8>, code: u8, body: Seq<u8>, end: Seq<u8>)
    requires
        r == stream_head() + block_head(code) + body + end,
    ensures
        r.len() >= 24,
        r[0] != 0,
        r[7] == 4,
        r[12] == 2,
        syntax::stream_header(r, 0) == Ok::<Check, Error>(Check::Crc64),
        syntax::block_header_len(r, 12) == 12,
        syntax::block_header(r, 12) == Some(plain(code)),
        r.skip(24) == body + end,
        r.subrange(24, r.len() as int) == body + end,
        (stream_head() + block_head(code) + body).len() == 24 + body.len(),
{
    assert(r =~= stream_head() + (block_head(code) + body + end));
    lemma_head_read(r, block_head(code) + body + end);
    assert(r =~= stream_head() + block_head(code) + (body + end));
    lemma_block_read(r, 12, stream_head(), code, body + end);
    assert(r.skip(24) =~= body + end);
    assert(r.subrange(24, r.len() as int) =~= body + end);
}

proof fn lemma_at_once(r: Seq<u8>, code: u8, body: Seq<u8>, d: Seq<u8>)
    requires
        r == stream_bytes(code, body, d),
        code <= 40,
        lzma2::stream(body + closing(body.len(), d), lzma2::dictionary_of(code as int)) == Some(d),
    ensures
        syntax::decoded(r, 0) == Ok::<Seq<u8>, Error>(d),
{
    lemma_start_read(r, code, body, closing(body.len(), d));
    let end = closing(body.len(), d);
    let dict = lzma2::dictionary_of(code as int);
    assert(syntax::dictionary(plain(code)) == Ok::<int, Error>(dict));
    assert(syntax::block_content(plain(code), body + end) == Ok::<Seq<u8>, Error>(d));
    assert(syntax::blocks(r, 12, Check::Crc64, 4) == Part::All(d)) by {
        reveal(syntax::blocks);
    }
}

/// What follows the compressed data.
proof fn lemma_closing_read(
    r: Seq<u8>,
    code: u8,
    body: Seq<u8>,
    d: Seq<u8>,
    t: lzma2::Chunked,
) -> (next: int)
    requires
        r == stream_bytes(code, body, d),
        t.all == d,
        t.pos == body.len(),
        body.len() + 20 < 0x8000_0000_0000_0000,
        d.len() < 0x8000_0000_0000_0000,
    ensures
        12 < next < r.len(),
        r[next] == 0,
        syntax::block_end(r, 12, Check::Crc64, plain(code), t) == Some(next),
        syntax::tail(r, next + 1, 4, false) == Some(r.len() as int),
{
    lemma_start_read(r, code, body, closing(body.len(), d));
    let crc = crc64::crc64(d) as nat;
    let tail = index_and_footer(body.len() + 20, d.len());
    let p = pad_bytes(body.len() as int);
    let e = (24 + body.len()) as int;
    bytes::lemma_le_bytes_len(crc, 8);
    let next = (e + p.len() + 8) as int;
    let lead = stream_head() + block_head(code) + body;
    assert(r =~= lead + p + (bytes::le_bytes(crc, 8) + tail));
    lemma_piece(lead, p, bytes::le_bytes(crc, 8) + tail);
    assert forall|i: int| e <= i < e + p.len() implies #[trigger] r[i] == 0 by {
        assert(r[i] == r.subrange(e, e + p.len())[i - e]);
    }
    assert(r =~= (lead + p) + bytes::le_bytes(crc, 8) + tail);
    lemma_piece(lead + p, bytes::le_bytes(crc, 8), tail);
    let before = lead + p + bytes::le_bytes(crc, 8);
    assert(r =~= before + tail);
    lemma_tail_read(r, before, body.len() + 20, d.len());
    next
}

/// The last block, and nothing after it.
proof fn lemma_last_block(
    r: Seq<u8>,
    at: int,
    next: int,
    block: Block,
    t: lzma2::Chunked,
    d: Seq<u8>,
)
    requires
        0 <= at < next < r.len(),
        r[at] != 0,
        r[next] == 0,
        t.all == d,
        syntax::plain_block(r, at) == Ok::<(Block, lzma2::Chunked), Error>((block, t)),
        syntax::block_end(r, at, Check::Crc64, block, t) == Some(next),
        syntax::tail(r, next + 1, 4, false) == Some(r.len() as int),
    ensures
        syntax::streamed_blocks(r, at, Check::Crc64, 4) == Ok::<Seq<u8>, Error>(d),
{
    assert(syntax::streamed(r, r.len() as int) == Ok::<Seq<u8>, Error>(Seq::empty()));
    assert(syntax::streamed_blocks(r, next, Check::Crc64, 4) == Ok::<Seq<u8>, Error>(
        Seq::empty(),
    ));
    assert(d + Seq::<u8>::empty() =~= d);
}

proof fn lemma_by_blocks(r: Seq<u8>, code: u8, body: Seq<u8>, d: Seq<u8>)
    requires
        r == stream_bytes(code, body, d),
        code <= 40,
        body.len() + 20 < 0x8000_0000_0000_0000,
        d.len() < 0x8000_0000_0000_0000,
        lzma2::decoded(
            body + closing(body.len(), d),
            lzma2::dictionary_of(code as int),
            lzma2::start_state(),
        ) matches Some(t) && t.all == d && t.pos == body.len(),
    ensures
        syntax::streamed(r, 0) == Ok::<Seq<u8>, Error>(d),
{
    let dict = lzma2::dictionary_of(code as int);
    lemma_start_read(r, code, body, closing(body.len(), d));
    let t = lzma2::decoded(body + closing(body.len(), d), dict, lzma2::start_state())->Some_0;
    let next = lemma_closing_read(r, code, body, d, t);
    assert(syntax::dictionary(plain(code)) == Ok::<int, Error>(dict));
    assert(syntax::plain_block(r, 12) == Ok::<(Block, lzma2::Chunked), Error>((plain(code), t)));
    lemma_last_block(r, 12, next, plain(code), t, d);
}

/// Block by block, a stream in which other bytes stand in place of the check
/// of its content is refused.
#[verifier::spinoff_prover]
#[verifier::rlimit(80)]
pub proof fn lemma_check_changed(
    code: u8,
    dict_size: int,
    body: Seq<u8>,
    d: Seq<u8>,
    check: Seq<u8>,
    rest: Seq<u8>,
)
    requires
        code <= 40,
        dict_size <= lzma2::dictionary_of(code as int),
        4096 <= lzma2::dictionary_of(code as int) <= 0x4000_0000,
        lzma2::is_stream(body, dict_size, d),
        check.len() == 8,
        check != bytes::le_bytes(crc64::crc64(d) as nat, 8),
    ensures
        syntax::streamed(
            stream_head() + block_head(code) + body + pad_bytes(body.len() as int) + check + rest,
            0,
        ) == Err::<Seq<u8>, Error>(Error::Malformed),
{
    let dict = lzma2::dictionary_of(code as int);
    let p = pad_bytes(body.len() as int);
    let end = p + check + rest;
    let r = stream_head() + block_head(code) + body + p + check + rest;
    assert(r =~= stream_head() + block_head(code) + body + end);
    lemma_start_read(r, code, body, end);
    assert(lzma2::decoded(body + end, dict, lzma2::start_state()) is Some);
    let t = lzma2::decoded(body + end, dict, lzma2::start_state())->Some_0;
    assert(syntax::dictionary(plain(code)) == Ok::<int, Error>(dict));
    assert(syntax::plain_block(r, 12) == Ok::<(Block, lzma2::Chunked), Error>((plain(code), t)));
    let at = (24 + body.len() + p.len()) as int;
    assert(r.subrange(at, at + 8) =~= check);
    assert(syntax::block_end(r, 12, Check::Crc64, plain(code), t) is None);
    assert(syntax::streamed_blocks(r, 12, Check::Crc64, 4) == Err::<Seq<u8>, Error>(
        Error::Malformed,
    ));
}

/// What is compressed decodes to the data, at once or block by block.
pub proof fn lemma_round_trip(r: Seq<u8>, d: Seq<u8>)
    requires
        is_xz(r, d),
        d.len() < 0x8000_0000_0000_0000,
    ensures
        syntax::decoded(r, 0) == Ok::<Seq<u8>, Error>(d),
        syntax::streamed(r, 0) == Ok::<Seq<u8>, Error>(d),
{
    let (code, body, dict_size) = choose|code: u8, body: Seq<u8>, dict_size: int|
        {
            &&& code <= 40
            &&& dict_size <= lzma2::dictionary_of(code as int)
            &&& 4096 <= lzma2::dictionary_of(code as int) <= 0x4000_0000
            &&& #[trigger] lzma2::is_stream(body, dict_size, d)
            &&& body.len() + 20 < 0x8000_0000_0000_0000
            &&& r == #[trigger] stream_bytes(code, body, d)
        };
    let end = closing(body.len(), d);
    let dict = lzma2::dictionary_of(code as int);
    assert(lzma2::decoded(body + end, dict, lzma2::start_state()) is Some);
    lemma_at_once(r, code, body, d);
    lemma_by_blocks(r, code, body, d);
}

fn put_varint(out: &mut Vec<u8>, value: u64)
    ensures
        final(out)@ == old(out)@ + syntax::vint_bytes(value as nat),
{
    let mut value: u64 = value;
    let ghost whole = out@ + syntax::vint_bytes(value as nat);
    while value >= 128
        invariant
            whole == out@ + syntax::vint_bytes(value as nat),
        decreases value,
    {
        let ghost before = out@;
        let b: u8 = (128 + value % 128) as u8;
        out.push(b);
        assert(before + (seq![b] + syntax::vint_bytes((value / 128) as nat)) =~= out@
            + syntax::vint_bytes((value / 128) as nat));
        value = value / 128;
    }
    let ghost before = out@;
    out.push(value as u8);
    assert(out@ =~= before + seq![value as u8]);
}

fn pad_to_four(out: &mut Vec<u8>, n: usize)
    ensures
        final(out)@ == old(out)@ + pad_bytes(n as int),
{
    let count: usize = (4 - n % 4) % 4;
    let mut i: usize = 0;
    assert(out@ =~= old(out)@ + Seq::new(0, |k: int| 0u8));
    while i < count
        invariant
            i <= count,
            out@ == old(out)@ + Seq::new(i as nat, |k: int| 0u8),
        decreases count - i,
    {
        out.push(0);
        i = i + 1;
        assert(out@ =~= old(out)@ + Seq::new(i as nat, |k: int| 0u8));
    }
    assert(out@ =~= old(out)@ + pad_bytes(n as int));
}

fn write_stream_header(out: &mut Vec<u8>)
    ensures
        final(out)@ == old(out)@ + stream_head(),
{
    let flags: [u8; 2] = [0x00, 0x04];
    out.extend_from_slice(MAGIC.as_slice());
    out.extend_from_slice(flags.as_slice());
    let crc: u32 = checksum(flags.as_slice());
    assert(flags@ =~= stream_flags());
    put_le(out, crc as u64, 4);
    assert(out@ =~= old(out)@ + stream_head());
}

fn write_block_header(out: &mut Vec<u8>, dict_code: u8)
    ensures
        final(out)@ == old(out)@ + block_head(dict_code),
{
    let header: [u8; 8] = [2, 0, 0x21, 1, dict_code, 0, 0, 0];
    out.extend_from_slice(header.as_slice());
    let crc: u32 = checksum(header.as_slice());
    assert(header@ =~= block_head_body(dict_code));
    put_le(out, crc as u64, 4);
    assert(out@ =~= old(out)@ + block_head(dict_code));
}

fn write_index(out: &mut Vec<u8>, unpadded: u64, size: u64)
    ensures
        final(out)@ == old(out)@ + index_and_footer(unpadded as nat, size as nat),
{
    let ghost before = out@;
    let mut ix: Vec<u8> = Vec::with_capacity(24);
    ix.push(0x00);
    put_varint(&mut ix, 1);
    assert(syntax::vint_bytes(1) =~= seq![1u8]);
    put_varint(&mut ix, unpadded);
    put_varint(&mut ix, size);
    assert(ix@ =~= index_body(unpadded as nat, size as nat));
    let len: usize = ix.len();
    pad_to_four(&mut ix, len);
    assert(ix@ =~= index(unpadded as nat, size as nat));
    let crc: u32 = checksum(ix.as_slice());
    proof {
        reveal_with_fuel(syntax::span128, 11);
        lemma_vint_len(unpadded as nat, 10);
        lemma_vint_len(size as nat, 10);
    }
    let backward: u64 = ((ix.len() + 4) / 4 - 1) as u64;
    let mut foot: Vec<u8> = Vec::with_capacity(6);
    put_le(&mut foot, backward, 4);
    foot.push(0x00);
    foot.push(0x04);
    assert(foot@ =~= footer_body(ix@.len() + 4));
    let foot_crc: u32 = checksum(foot.as_slice());
    out.extend_from_slice(ix.as_slice());
    put_le(out, crc as u64, 4);
    put_le(out, foot_crc as u64, 4);
    out.extend_from_slice(foot.as_slice());
    out.push(0x59);
    out.push(0x5A);
    assert(out@ =~= before + index_and_footer(unpadded as nat, size as nat));
}

proof fn lemma_vint_len(v: nat, n: nat)
    requires
        v < syntax::span128(n),
        n >= 1,
    ensures
        1 <= syntax::vint_bytes(v).len() <= n,
    decreases n,
{
    if v >= 128 {
        if n == 1 {
            assert(syntax::span128(0) == 1);
            assert(syntax::span128(1) == 128);
        }
        lemma_vint_len(v / 128, (n - 1) as nat);
    }
}

/// Close a stream whose compressed data has `payload` bytes.
fn close(out: &mut Vec<u8>, payload: u64, check: u64, size: u64, Ghost(d): Ghost<Seq<u8>>)
    requires
        payload <= 0x7fff_ffff_ffff_0000,
        check == crc64::crc64(d),
        size == d.len(),
    ensures
        final(out)@ == old(out)@ + closing(payload as nat, d),
{
    pad_to_four(out, (payload % 4) as usize);
    put_le(out, check, 8);
    write_index(out, payload + 20, size);
    assert(pad_bytes((payload % 4) as int) =~= pad_bytes(payload as int));
    assert(out@ =~= old(out)@ + closing(payload as nat, d));
}

proof fn lemma_is_xz(r: Seq<u8>, code: u8, body: Seq<u8>, dict_size: int, d: Seq<u8>)
    requires
        code <= 40,
        1 <= dict_size <= 0x4000_0000,
        lzma2::dictionary_of(code as int) >= dict_size,
        forall|c: int| 0 <= c < code ==> #[trigger] lzma2::dictionary_of(c) < dict_size,
        lzma2::is_stream(body, dict_size, d),
        body.len() + 20 < 0x8000_0000_0000_0000,
        r == stream_bytes(code, body, d),
        d.len() < 0x8000_0000_0000_0000,
    ensures
        is_xz(r, d),
        syntax::decoded(r, 0) == Ok::<Seq<u8>, Error>(d),
{
    lzma2::lemma_dictionary_code(code as int, dict_size);
    lemma_round_trip(r, d);
}

/// Compress into a single-block xz stream with a CRC-64 check.
pub fn compress(data: &[u8], props: Properties, depth: usize) -> (r: Vec<u8>)
    requires
        lzma_syntax::props_ok(props),
        data@.len() <= MAX_DATA,
    ensures
        is_xz(r@, data@),
        is_stream_of(r@, props, depth, data@),
        syntax::decoded(r@, 0) == Ok::<Seq<u8>, Error>(data@),
{
    let payload: Vec<u8> = lzma2::compress(data, props, depth);
    let dict_code: u8 = lzma2::dictionary_code(props.dict_size);
    let mut out: Vec<u8> = Vec::new();
    write_stream_header(&mut out);
    write_block_header(&mut out, dict_code);
    out.extend_from_slice(payload.as_slice());
    let mut check: Crc64 = Crc64::new();
    check.update(data);
    assert(Seq::<u8>::empty() + data@ =~= data@);
    assert(check.covers(Seq::<u8>::empty() + data@));
    close(&mut out, payload.len() as u64, check.finish(), data.len() as u64, Ghost(data@));
    proof {
        assert(out@ =~= stream_bytes(dict_code, payload@, data@));
        lemma_is_xz(out@, dict_code, payload@, props.dict_size as int, data@);
    }
    out
}

/// A single-block xz stream written as its input arrives.
///
/// The block header leaves out the optional size fields, so nothing has to be
/// known in advance; the index and footer are written from running totals once
/// the input ends. One block keeps matches reaching across the whole stream,
/// which several blocks would not.
pub struct Writer {
    inner: lzma2::Writer,
    check: Crc64,
    uncompressed: u64,
    start: usize,
    code: u8,
    before: Ghost<Seq<u8>>,
}

impl Writer {
    /// What was there before the stream.
    pub closed spec fn before(&self) -> Seq<u8> {
        self.before@
    }

    /// All data taken so far.
    pub closed spec fn taken(&self) -> Seq<u8> {
        self.inner.taken()
    }

    /// The code of the dictionary.
    pub closed spec fn code(&self) -> u8 {
        self.code
    }

    /// The parameters of the block.
    pub closed spec fn properties(&self) -> Properties {
        self.inner.properties()
    }

    /// How many earlier places a match is looked for at.
    pub closed spec fn depth(&self) -> usize {
        self.inner.depth()
    }

    /// The headers are written, and the running totals are those of what was
    /// taken.
    pub closed spec fn wf(&self) -> bool {
        let dict = self.inner.dictionary();
        &&& self.inner.wf()
        &&& self.code <= 40
        &&& 1 <= dict <= 0x4000_0000
        &&& lzma2::is_code_for(self.code as int, dict)
        &&& self.inner.properties().dict_size == dict
        &&& self.inner.expected() == dict
        &&& self.inner.before() == self.before@ + stream_head() + block_head(self.code)
        &&& self.start == self.inner.before().len()
        &&& self.check.wf()
        &&& self.check.covers(self.inner.taken())
        &&& self.uncompressed == self.inner.taken().len()
        &&& self.inner.taken().len() <= MAX_DATA
    }

    /// Start a stream with a dictionary sized for `level`, after what `out`
    /// holds.
    pub fn new(out: Vec<u8>, depth: usize, level: Level) -> (r: Self)
        ensures
            r.wf(),
            r.before() == out@,
            r.taken() == Seq::<u8>::empty(),
            r.properties() == usual_props(encode::dictionary_of(0x7fff_ffff, level)),
            lzma2::is_code_for(r.code() as int, encode::dictionary_of(0x7fff_ffff, level)),
            r.depth() == depth,
    {
        let dict: u32 = dictionary_at(0x7fff_ffff, level);
        let props: Properties = Properties { lc: 3, lp: 0, pb: 2, dict_size: dict };
        let code: u8 = lzma2::dictionary_code(dict);
        let ghost before = out@;
        let mut head: Vec<u8> = out;
        write_stream_header(&mut head);
        write_block_header(&mut head, code);
        let start: usize = head.len();
        Writer {
            inner: lzma2::Writer::new(head, props, depth, dict as usize),
            check: Crc64::new(),
            uncompressed: 0,
            start,
            code,
            before: Ghost(before),
        }
    }

    /// Hand over more input, encoding whatever has become complete.
    pub fn push(&mut self, bytes: &[u8])
        requires
            old(self).wf(),
            old(self).taken().len() + bytes@.len() <= MAX_DATA,
            old(self).taken().len() + bytes@.len() <= usize::MAX,
        ensures
            final(self).wf(),
            final(self).before() == old(self).before(),
            final(self).taken() == old(self).taken() + bytes@,
            final(self).code() == old(self).code(),
            final(self).properties() == old(self).properties(),
            final(self).depth() == old(self).depth(),
    {
        self.check.update(bytes);
        self.uncompressed = self.uncompressed + bytes.len() as u64;
        self.inner.push(bytes);
    }

    /// Close the block, write the index and footer, and give back everything
    /// written. The stream is the same however its content was cut into
    /// pushes.
    pub fn finish(self) -> (r: Vec<u8>)
        requires
            self.wf(),
        ensures
            self.before().is_prefix_of(r@),
            is_xz(r@.skip(self.before().len() as int), self.taken()),
            r@ == self.before() + stream_bytes(
                self.code(),
                lzma2::stream_of(
                    self.properties(),
                    self.depth(),
                    self.properties().dict_size as int,
                    self.taken(),
                ),
                self.taken(),
            ),
    {
        let ghost d = self.taken();
        let ghost b = self.before();
        let ghost lead = self.inner.before();
        let ghost dict = self.inner.dictionary();
        let check: u64 = self.check.finish();
        let size: u64 = self.uncompressed;
        let start: usize = self.start;
        let code: u8 = self.code;
        let mut out: Vec<u8> = self.inner.finish();
        let ghost got = out@;
        assert(got.len() >= lead.len());
        let payload: u64 = (out.len() - start) as u64;
        close(&mut out, payload, check, size, Ghost(d));
        proof {
            let body = got.skip(lead.len() as int);
            assert(got =~= lead + body) by {
                assert(got.take(lead.len() as int) == lead);
                assert(got =~= got.take(lead.len() as int) + body);
            }
            assert(body =~= lzma2::stream_of(
                self.properties(),
                self.depth(),
                self.properties().dict_size as int,
                d,
            ));
            let r = stream_bytes(code, body, d);
            assert(out@ =~= b + r);
            assert(out@.skip(b.len() as int) =~= r);
            assert(out@.take(b.len() as int) =~= b);
            lemma_is_xz(r, code, body, dict, d);
        }
        out
    }
}

/// Compress with the crate's default LZMA properties.
pub fn compress_default(data: &[u8], depth: usize) -> (r: Vec<u8>)
    requires
        data@.len() <= MAX_DATA,
    ensures
        is_xz(r@, data@),
        is_stream_of(
            r@,
            usual_props(encode::dictionary_of(data@.len() as int, Level::Default)),
            depth,
            data@,
        ),
        syntax::decoded(r@, 0) == Ok::<Seq<u8>, Error>(data@),
{
    compress_at(data, depth, Level::Default)
}

/// Compress with a dictionary sized for `level`.
pub fn compress_at(data: &[u8], depth: usize, level: Level) -> (r: Vec<u8>)
    requires
        data@.len() <= MAX_DATA,
    ensures
        is_xz(r@, data@),
        is_stream_of(
            r@,
            usual_props(encode::dictionary_of(data@.len() as int, level)),
            depth,
            data@,
        ),
        syntax::decoded(r@, 0) == Ok::<Seq<u8>, Error>(data@),
{
    let dict: u32 = dictionary_at(data.len(), level);
    let props: Properties = Properties { lc: 3, lp: 0, pb: 2, dict_size: dict };
    compress(data, props, depth)
}

} // verus!
