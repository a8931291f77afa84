//! Files written by the rules of the format.
//!
//! A file is streams. A stream is a header, blocks, an index and a footer. A
//! block says by which filters it was made, may say how long it is packed and
//! unpacked, and ends with a check of its content.
use crate::codecs::lzma::lzma2;
use crate::codecs::xz::syntax;
use crate::codecs::xz::syntax::{Block, Check, Filter, Part};
use crate::crypto::sha256;
use crate::utils::bytes;
use crate::utils::crc32;
use crate::utils::crc64;
use crate::utils::error;
use crate::utils::error::Error;
use vstd::prelude::*;

verus! {

/// Whether bytes stand at a place.
pub open spec fn stands(data: Seq<u8>, at: int, w: Seq<u8>) -> bool {
    &&& 0 <= at
    &&& at + w.len() <= data.len()
    &&& forall|i: int| 0 <= i < w.len() ==> data[at + i] == #[trigger] w[i]
}

proof fn lemma_both(data: Seq<u8>, at: int, v: Seq<u8>, w: Seq<u8>)
    requires
        stands(data, at, v + w),
    ensures
        stands(data, at, v),
        stands(data, at + v.len(), w),
{
    let x = v + w;
    assert forall|i: int| 0 <= i < v.len() implies data[at + i] == #[trigger] v[i] by {
        assert(x[i] == v[i]);
    }
    assert forall|i: int| 0 <= i < w.len() implies data[at + v.len() + i] == #[trigger] w[i] by {
        assert(x[v.len() + i] == w[i]);
    }
}

proof fn lemma_cut(data: Seq<u8>, at: int, w: Seq<u8>)
    requires
        stands(data, at, w),
    ensures
        data.subrange(at, at + w.len()) == w,
{
    assert(data.subrange(at, at + w.len()) =~= w);
}

/// The number of each check.
pub open spec fn check_id(c: Check) -> u8 {
    match c {
        Check::Nothing => 0,
        Check::Crc32 => 1,
        Check::Crc64 => 4,
        Check::Sha256 => 10,
    }
}

/// Each check of some content.
pub open spec fn check_of(c: Check, s: Seq<u8>) -> Seq<u8> {
    match c {
        Check::Nothing => Seq::empty(),
        Check::Crc32 => bytes::le_bytes(crc32::crc32(s) as nat, 4),
        Check::Crc64 => bytes::le_bytes(crc64::crc64(s) as nat, 8),
        Check::Sha256 => sha256::digest_of(s),
    }
}

/// A checksum in four bytes.
pub open spec fn sum(s: Seq<u8>) -> Seq<u8> {
    bytes::le_bytes(crc32::crc32(s) as nat, 4)
}

proof fn lemma_sum(data: Seq<u8>, at: int, s: Seq<u8>)
    requires
        stands(data, at, sum(s)),
    ensures
        sum(s).len() == 4,
        bytes::le(data, at, 4) == crc32::crc32(s),
{
    bytes::lemma_le_bytes_len(crc32::crc32(s) as nat, 4);
    lemma_cut(data, at, sum(s));
    reveal_with_fuel(bytes::span, 5);
    bytes::lemma_le_round_trip(data, at, crc32::crc32(s) as nat, 4);
}

/// A header: six bytes, the number of the check, and their checksum.
pub open spec fn header_bytes(c: Check) -> Seq<u8> {
    seq![0xFDu8, 0x37, 0x7A, 0x58, 0x5A, 0x00] + seq![0u8, check_id(c)] + sum(
        seq![0u8, check_id(c)],
    )
}

proof fn lemma_header(data: Seq<u8>, at: int, c: Check)
    requires
        stands(data, at, header_bytes(c)),
    ensures
        header_bytes(c).len() == 12,
        syntax::stream_header(data, at) == Ok::<Check, Error>(c),
        data[at + 7] == check_id(c),
{
    let m = seq![0xFDu8, 0x37, 0x7A, 0x58, 0x5A, 0x00];
    let f = seq![0u8, check_id(c)];
    lemma_both(data, at, m + f, sum(f));
    lemma_both(data, at, m, f);
    lemma_cut(data, at + 6, f);
    lemma_sum(data, at + 8, f);
    assert(data[at + 0] == m[0] && data[at + 1] == m[1] && data[at + 2] == m[2] && data[at + 3]
        == m[3] && data[at + 4] == m[4] && data[at + 5] == m[5]);
    assert(data[at + 6 + 0] == f[0] && data[at + 6 + 1] == f[1]);
}

/// A number of seven bits in each byte, the least significant first, each but
/// the last with its high bit set.
pub open spec fn number(v: nat) -> Seq<u8>
    decreases v,
{
    if v < 128 {
        seq![v as u8]
    } else {
        seq![(v % 128 + 128) as u8] + number(v / 128)
    }
}

proof fn lemma_same_number(v: nat)
    ensures
        number(v) == syntax::vint_bytes(v),
        number(v).len() > 0,
    decreases v,
{
    if v >= 128 {
        lemma_same_number(v / 128);
    }
}

proof fn lemma_number(data: Seq<u8>, at: int, v: nat, strict: bool)
    requires
        v < 0x8000_0000_0000_0000,
        stands(data, at, number(v)),
    ensures
        syntax::vint(data, at, 0, strict) == Some((v, at + number(v).len())),
{
    lemma_same_number(v);
    lemma_cut(data, at, number(v));
    reveal_with_fuel(syntax::span128, 10);
    syntax::lemma_vint_back(data, at, 0, strict, v);
}

/// A number that is written or not.
pub open spec fn maybe(v: Option<nat>) -> Seq<u8> {
    match v {
        Some(n) => number(n),
        None => Seq::empty(),
    }
}

/// Filters: for each its number, how long its properties are, and these.
pub open spec fn filters_bytes(fs: Seq<Filter>) -> Seq<u8>
    decreases fs.len(),
{
    if fs.len() == 0 {
        Seq::empty()
    } else {
        number(fs[0].id as nat) + number(fs[0].props.len()) + fs[0].props + filters_bytes(
            fs.skip(1),
        )
    }
}

/// Whether filters can be written.
pub open spec fn filters_ok(fs: Seq<Filter>) -> bool {
    forall|i: int|
        0 <= i < fs.len() ==> (#[trigger] fs[i]).id < 0x8000_0000_0000_0000 && fs[i].props.len()
            < 0x1_0000
}

proof fn lemma_filters(body: Seq<u8>, at: int, fs: Seq<Filter>)
    requires
        filters_ok(fs),
        stands(body, at, filters_bytes(fs)),
    ensures
        syntax::filters_at(body, at, fs.len()) == Some((fs, at + filters_bytes(fs).len())),
    decreases fs.len(),
{
    if fs.len() > 0 {
        let f = fs[0];
        let a = number(f.id as nat);
        let b = number(f.props.len());
        let rest = fs.skip(1);
        assert(fs[0].id < 0x8000_0000_0000_0000);
        lemma_both(body, at, a + b + f.props, filters_bytes(rest));
        lemma_both(body, at, a + b, f.props);
        lemma_both(body, at, a, b);
        lemma_number(body, at, f.id as nat, true);
        lemma_number(body, at + a.len(), f.props.len(), true);
        let q = at + a.len() + b.len();
        lemma_cut(body, q, f.props);
        assert forall|i: int| 0 <= i < rest.len() implies (#[trigger] rest[i]).id
            < 0x8000_0000_0000_0000 && rest[i].props.len() < 0x1_0000 by {
            assert(fs[i + 1].id < 0x8000_0000_0000_0000);
        }
        lemma_filters(body, q + f.props.len(), rest);
        assert(seq![f] + rest =~= fs);
        assert(Filter { id: f.id, props: f.props } == f);
    } else {
        assert(fs =~= Seq::<Filter>::empty());
    }
}

/// The inside of a block's header: how many filters less one in two bits, and
/// in the two highest which sizes are written; the sizes, the filters, zeros.
pub open spec fn inside(b: Block, zeros: nat) -> Seq<u8> {
    seq![
        ((b.filters.len() - 1) + (if b.compressed is Some {
            64int
        } else {
            0
        }) + if b.uncompressed is Some {
            128int
        } else {
            0
        }) as u8,
    ] + maybe(b.compressed) + maybe(b.uncompressed) + filters_bytes(b.filters) + Seq::new(
        zeros,
        |i: int| 0u8,
    )
}

/// Whether a header can be written.
pub open spec fn block_ok(b: Block) -> bool {
    &&& 1 <= b.filters.len() <= 4
    &&& filters_ok(b.filters)
    &&& b.compressed matches Some(n) ==> n < 0x8000_0000_0000_0000
    &&& b.uncompressed matches Some(n) ==> n < 0x8000_0000_0000_0000
}

proof fn lemma_maybe(body: Seq<u8>, at: int, v: Option<nat>)
    requires
        v matches Some(n) ==> n < 0x8000_0000_0000_0000,
        stands(body, at, maybe(v)),
    ensures
        syntax::optional(body, at, v is Some) == Some((v, at + maybe(v).len())),
{
    if let Some(n) = v {
        lemma_number(body, at, n, true);
    }
}

#[verifier::spinoff_prover]
#[verifier::rlimit(40)]
proof fn lemma_inside(b: Block, z: nat)
    requires
        block_ok(b),
    ensures
        syntax::block_of(inside(b, z)) == Some(b),
{
    let body = inside(b, z);
    let c: int = if b.compressed is Some {
        64
    } else {
        0
    };
    let u: int = if b.uncompressed is Some {
        128
    } else {
        0
    };
    let f = ((b.filters.len() - 1) + c + u) as u8;
    let fs = filters_bytes(b.filters);
    let tail = Seq::new(z, |i: int| 0u8);
    assert(stands(body, 0, body));
    lemma_both(body, 0, seq![f] + maybe(b.compressed) + maybe(b.uncompressed) + fs, tail);
    lemma_both(body, 0, seq![f] + maybe(b.compressed) + maybe(b.uncompressed), fs);
    lemma_both(body, 0, seq![f] + maybe(b.compressed), maybe(b.uncompressed));
    lemma_both(body, 0, seq![f], maybe(b.compressed));
    assert(body[0int + 0] == seq![f][0]);
    assert(f % 4 + 1 == b.filters.len() && (f / 4) % 16 == 0 && ((f / 64) % 2 == 1)
        == b.compressed is Some && (f / 128 == 1) == b.uncompressed is Some);
    lemma_maybe(body, 1, b.compressed);
    let p = 1 + maybe(b.compressed).len() as int;
    lemma_maybe(body, p, b.uncompressed);
    let q = p + maybe(b.uncompressed).len();
    lemma_filters(body, q, b.filters);
    let end = q + fs.len();
    assert forall|i: int| end <= i < body.len() implies #[trigger] body[i] == 0 by {
        assert(body[end + (i - end)] == tail[i - end]);
    }
}

/// A block's header: its length in fours less one, the inside, a checksum.
pub open spec fn block_header_bytes(b: Block, zeros: nat) -> Seq<u8> {
    let n = inside(b, zeros).len() + 5;
    let front = seq![(n / 4 - 1) as u8] + inside(b, zeros);
    front + sum(front)
}

/// Whether that many zeros make a header of a length that can be written.
pub open spec fn header_fits(b: Block, zeros: nat) -> bool {
    let n = inside(b, zeros).len() + 5;
    n % 4 == 0 && n <= 1024
}

#[verifier::spinoff_prover]
proof fn lemma_block_header(data: Seq<u8>, at: int, b: Block, z: nat)
    requires
        block_ok(b),
        header_fits(b, z),
        stands(data, at, block_header_bytes(b, z)),
    ensures
        data[at] != 0,
        syntax::block_header_len(data, at) == block_header_bytes(b, z).len(),
        syntax::block_header(data, at) == Some(b),
{
    let s = inside(b, z);
    let n = s.len() + 5;
    let first = seq![(n / 4 - 1) as u8];
    let front = first + s;
    lemma_both(data, at, front, sum(front));
    lemma_both(data, at, first, s);
    lemma_cut(data, at, front);
    lemma_cut(data, at + 1, s);
    lemma_sum(data, at + front.len(), front);
    assert(data[at + 0] == first[0]);
    assert(s.len() >= 3) by {
        lemma_same_number(b.filters[0].id as nat);
        lemma_same_number(b.filters[0].props.len());
        assert(filters_bytes(b.filters).len() >= 2);
    }
    lemma_inside(b, z);
}

/// Zeros up to a multiple of four.
pub open spec fn pad(n: int) -> Seq<u8> {
    Seq::new(((4 - n % 4) % 4) as nat, |i: int| 0u8)
}

/// A block: header, packed bytes, zeros, and the check of its content.
pub open spec fn block_bytes(b: Block, zeros: nat, body: Seq<u8>, content: Seq<u8>, c: Check) -> Seq<
    u8,
> {
    block_header_bytes(b, zeros) + body + pad(body.len() as int) + check_of(c, content)
}

/// A block whose header says how long it is packed is read as what its body
/// stands for, through all its filters, and reading goes on behind it.
#[verifier::spinoff_prover]
#[verifier::rlimit(60)]
pub proof fn lemma_block(
    data: Seq<u8>,
    at: int,
    b: Block,
    z: nat,
    body: Seq<u8>,
    content: Seq<u8>,
    c: Check,
    flag: u8,
)
    requires
        block_ok(b),
        header_fits(b, z),
        b.compressed == Some(body.len()),
        b.uncompressed matches Some(n) ==> n == content.len(),
        syntax::block_content(b, body) == Ok::<Seq<u8>, Error>(content),
        stands(data, at, block_bytes(b, z, body, content, c)),
    ensures
        syntax::blocks(data, at, c, flag) == syntax::after(
            content,
            syntax::blocks(data, at + block_bytes(b, z, body, content, c).len(), c, flag),
        ),
{
    reveal(syntax::blocks);
    let h = block_header_bytes(b, z);
    let p = pad(body.len() as int);
    let k = check_of(c, content);
    lemma_both(data, at, h + body + p, k);
    lemma_both(data, at, h + body, p);
    lemma_both(data, at, h, body);
    lemma_block_header(data, at, b, z);
    let from = at + h.len();
    let end = from + body.len();
    lemma_cut(data, from, body);
    lemma_cut(data, end + p.len(), k);
    syntax::lemma_check_len(c, content);
    assert(k == syntax::check_bytes(c, content));
    assert forall|i: int| end <= i < end + p.len() implies #[trigger] data[i] == 0 by {
        assert(data[end + (i - end)] == p[i - end]);
    }
}

/// A block of LZMA2 alone is read so too by a reader that goes on from byte to
/// byte, whether its header says how long it is or not.
#[verifier::spinoff_prover]
#[verifier::rlimit(60)]
pub proof fn lemma_streamed_block(
    data: Seq<u8>,
    at: int,
    b: Block,
    z: nat,
    body: Seq<u8>,
    t: lzma2::Chunked,
    c: Check,
    flag: u8,
)
    requires
        block_ok(b),
        header_fits(b, z),
        b.filters.len() == 1,
        syntax::dictionary(b) is Ok,
        b.uncompressed matches Some(n) ==> n == t.all.len(),
        t.pos == body.len(),
        lzma2::decoded(
            data.skip(at + block_header_bytes(b, z).len()),
            syntax::dictionary(b)->Ok_0,
            lzma2::start_state(),
        ) == Some(t),
        stands(data, at, block_bytes(b, z, body, t.all, c)),
    ensures
        syntax::streamed_blocks(data, at, c, flag) == error::joined(
            t.all,
            syntax::streamed_blocks(
                data,
                at + block_bytes(b, z, body, t.all, c).len(),
                c,
                flag,
            ),
        ),
{
    let h = block_header_bytes(b, z);
    let p = pad(body.len() as int);
    let k = check_of(c, t.all);
    lemma_both(data, at, h + body + p, k);
    lemma_both(data, at, h + body, p);
    lemma_both(data, at, h, body);
    lemma_block_header(data, at, b, z);
    let end = at + h.len() + body.len();
    lemma_cut(data, end + p.len(), k);
    syntax::lemma_check_len(c, t.all);
    assert(k == syntax::check_bytes(c, t.all));
    assert forall|i: int| end <= i < end + p.len() implies #[trigger] data[i] == 0 by {
        assert(data[end + (i - end)] == p[i - end]);
    }
}

/// The records of an index: for each block its length without zeros, and the
/// length of its content.
pub open spec fn records_bytes(rs: Seq<(nat, nat)>) -> Seq<u8>
    decreases rs.len(),
{
    if rs.len() == 0 {
        Seq::empty()
    } else {
        number(rs[0].0) + number(rs[0].1) + records_bytes(rs.skip(1))
    }
}

/// Whether records can be written.
pub open spec fn records_ok(rs: Seq<(nat, nat)>) -> bool {
    &&& rs.len() < 0x8000_0000_0000_0000
    &&& forall|i: int|
        0 <= i < rs.len() ==> (#[trigger] rs[i]).0 < 0x8000_0000_0000_0000 && rs[i].1
            < 0x8000_0000_0000_0000
}

proof fn lemma_records(data: Seq<u8>, at: int, rs: Seq<(nat, nat)>, strict: bool)
    requires
        records_ok(rs),
        stands(data, at, records_bytes(rs)),
    ensures
        syntax::records(data, at, rs.len(), strict) == Some(at + records_bytes(rs).len()),
    decreases rs.len(),
{
    if rs.len() > 0 {
        let a = number(rs[0].0);
        let b = number(rs[0].1);
        let rest = rs.skip(1);
        assert(rs[0].0 < 0x8000_0000_0000_0000);
        lemma_both(data, at, a + b, records_bytes(rest));
        lemma_both(data, at, a, b);
        lemma_number(data, at, rs[0].0, strict);
        lemma_number(data, at + a.len(), rs[0].1, strict);
        assert forall|i: int| 0 <= i < rest.len() implies (#[trigger] rest[i]).0
            < 0x8000_0000_0000_0000 && rest[i].1 < 0x8000_0000_0000_0000 by {
            assert(rs[i + 1].0 < 0x8000_0000_0000_0000);
        }
        lemma_records(data, at + a.len() + b.len(), rest, strict);
    }
}

/// The index up to its checksum.
pub open spec fn index_front(rs: Seq<(nat, nat)>) -> Seq<u8> {
    let s = seq![0u8] + number(rs.len()) + records_bytes(rs);
    s + pad(s.len() as int)
}

/// The footer: a checksum, the length of the index in fours less one, the
/// number of the check, and two bytes.
pub open spec fn footer_bytes(index_len: nat, c: Check) -> Seq<u8> {
    let s = bytes::le_bytes((index_len / 4 - 1) as nat, 4) + seq![0u8, check_id(c)];
    sum(s) + s + seq![0x59u8, 0x5A]
}

/// The end of a stream.
pub open spec fn end_bytes(rs: Seq<(nat, nat)>, c: Check) -> Seq<u8> {
    let ix = index_front(rs);
    ix + sum(ix) + footer_bytes(ix.len() + 4, c)
}

#[verifier::spinoff_prover]
#[verifier::rlimit(40)]
proof fn lemma_end(data: Seq<u8>, at: int, rs: Seq<(nat, nat)>, c: Check, strict: bool)
    requires
        records_ok(rs),
        stands(data, at, end_bytes(rs, c)),
    ensures
        data[at] == 0,
        syntax::tail(data, at + 1, check_id(c), strict) == Some(
            at + end_bytes(rs, c).len(),
        ),
        end_bytes(rs, c).len() > 1,
{
    let ix = index_front(rs);
    let n = ix.len() + 4;
    let f = footer_bytes(n, c);
    lemma_both(data, at, ix + sum(ix), f);
    lemma_both(data, at, ix, sum(ix));
    let a = seq![0u8];
    let b = number(rs.len());
    let r = records_bytes(rs);
    let s = a + b + r;
    let p = pad(s.len() as int);
    lemma_both(data, at, s, p);
    lemma_both(data, at, a + b, r);
    lemma_both(data, at, a, b);
    assert(data[at + 0] == a[0]);
    lemma_number(data, at + 1, rs.len(), strict);
    lemma_records(data, at + 1 + b.len(), rs, strict);
    let q = at + s.len();
    lemma_sum(data, at + ix.len(), ix);
    let foot = q + p.len() + 4;
    let l = bytes::le_bytes((n / 4 - 1) as nat, 4);
    let g = seq![0u8, check_id(c)];
    let m = seq![0x59u8, 0x5A];
    bytes::lemma_le_bytes_len((n / 4 - 1) as nat, 4);
    lemma_both(data, foot, sum(l + g) + (l + g), m);
    lemma_both(data, foot, sum(l + g), l + g);
    lemma_sum(data, foot, l + g);
    lemma_cut(data, foot + 4, l + g);
    lemma_both(data, foot + 4, l, g);
    assert(data[foot + 8 + 0] == g[0] && data[foot + 8 + 1] == g[1]);
    assert(data[foot + 10 + 0] == m[0] && data[foot + 10 + 1] == m[1]);
    assert(syntax::padding(q - (at + 1) + 1) == p.len());
}

/// Where no block is left, the index and the footer end a stream.
pub proof fn lemma_stream_end(data: Seq<u8>, at: int, rs: Seq<(nat, nat)>, c: Check)
    requires
        records_ok(rs),
        stands(data, at, end_bytes(rs, c)),
    ensures
        syntax::blocks(data, at, c, check_id(c)) == Part::More(
            Seq::empty(),
            at + end_bytes(rs, c).len(),
        ),
        syntax::streamed_blocks(data, at, c, check_id(c)) == syntax::streamed(
            data,
            at + end_bytes(rs, c).len(),
        ),
{
    reveal(syntax::blocks);
    lemma_end(data, at, rs, c, true);
    lemma_end(data, at, rs, c, false);
}

/// A stream starts with its header.
pub proof fn lemma_stream_start(data: Seq<u8>, at: int, c: Check)
    requires
        stands(data, at, header_bytes(c)),
    ensures
        syntax::stream(data, at) == syntax::blocks(data, at + 12, c, check_id(c)),
        syntax::streamed(data, at) == syntax::streamed_blocks(data, at + 12, c, check_id(c)),
{
    lemma_header(data, at, c);
    assert(data[at + 0] == header_bytes(c)[0]);
}

/// After a stream there may be zeros in fours, and then the file ends or
/// another stream starts: the content of all follows one another.
pub proof fn lemma_next_stream(data: Seq<u8>, at: int, out: Seq<u8>, end: int, n: nat)
    requires
        0 <= at < end,
        syntax::stream(data, at) == Part::More(out, end),
        stands(data, end, Seq::new(4 * n, |i: int| 0u8)),
        end + 4 * n < data.len() ==> data[end + 4 * n] != 0,
    ensures
        syntax::decoded(data, at) == if end + 4 * n >= data.len() {
            Ok(out)
        } else {
            error::joined(out, syntax::decoded(data, end + 4 * n))
        },
        syntax::streamed(data, end) == if end + 4 * n >= data.len() {
            Ok(Seq::empty())
        } else {
            syntax::streamed(data, end + 4 * n)
        },
{
    let z = Seq::new(4 * n, |i: int| 0u8);
    assert forall|i: int| end <= i < end + 4 * n implies #[trigger] data[i] == 0 by {
        assert(data[end + (i - end)] == z[i - end]);
    }
    lemma_zeros(data, end, end + 4 * n);
    lemma_fours(data, end, n);
}

proof fn lemma_zeros(data: Seq<u8>, at: int, end: int)
    requires
        0 <= at <= end <= data.len(),
        forall|i: int| at <= i < end ==> #[trigger] data[i] == 0,
        end < data.len() ==> data[end] != 0,
    ensures
        syntax::zeros_end(data, at) == end,
    decreases end - at,
{
    if at < end {
        assert(data[at] == 0);
        lemma_zeros(data, at + 1, end);
    }
}

proof fn lemma_fours(data: Seq<u8>, at: int, n: nat)
    requires
        0 <= at,
        at + 4 * n <= data.len(),
        forall|i: int| at <= i < at + 4 * n ==> #[trigger] data[i] == 0,
    ensures
        syntax::streamed(data, at) == if at + 4 * n >= data.len() {
            Ok(Seq::empty())
        } else {
            syntax::streamed(data, at + 4 * n)
        },
    decreases n,
{
    if n > 0 {
        assert(data[at] == 0 && data[at + 1] == 0 && data[at + 2] == 0 && data[at + 3] == 0);
        lemma_fours(data, at + 4, (n - 1) as nat);
    }
}

} // verus!
