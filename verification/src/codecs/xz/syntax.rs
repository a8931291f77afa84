//! What an xz file is.
use crate::codecs::lzma::lzma2;
use crate::codecs::xz::filters;
use crate::crypto::sha256;
use crate::utils::bytes;
use crate::utils::crc32;
use crate::utils::crc64;
use crate::utils::error;
use crate::utils::error::{Error, Unsupported};
use vstd::prelude::*;

verus! {

/// How the content of a block is checked.
#[derive(Debug, Clone, Copy, PartialEq, Eq, Structural)]
pub enum Check {
    /// Not at all.
    Nothing,
    /// By its CRC-32.
    Crc32,
    /// By its CRC-64.
    Crc64,
    /// By its SHA-256.
    Sha256,
}

/// The check that a number stands for.
pub open spec fn check_from(id: int) -> std::result::Result<Check, Error> {
    if id == 0 {
        Ok(Check::Nothing)
    } else if id == 1 {
        Ok(Check::Crc32)
    } else if id == 4 {
        Ok(Check::Crc64)
    } else if id == 10 {
        Ok(Check::Sha256)
    } else {
        Err(Error::Unsupported(Unsupported::Other))
    }
}

/// How long a check is.
pub open spec fn check_len(check: Check) -> int {
    match check {
        Check::Nothing => 0,
        Check::Crc32 => 4,
        Check::Crc64 => 8,
        Check::Sha256 => 32,
    }
}

/// The check of some content.
pub open spec fn check_bytes(check: Check, s: Seq<u8>) -> Seq<u8> {
    match check {
        Check::Nothing => Seq::empty(),
        Check::Crc32 => bytes::le_bytes(crc32::crc32(s) as nat, 4),
        Check::Crc64 => bytes::le_bytes(crc64::crc64(s) as nat, 8),
        Check::Sha256 => sha256::digest_of(s),
    }
}

/// 128 to the `n`.
pub open spec fn span128(n: nat) -> nat
    decreases n,
{
    if n == 0 {
        1
    } else {
        128 * span128((n - 1) as nat)
    }
}

/// The number at `at`, seven bits in each byte, and where it ends. `k` bytes
/// of it came before; nine are the most. A strict reader takes no zero at the
/// end of several bytes.
pub open spec fn vint(data: Seq<u8>, at: int, k: nat, strict: bool) -> Option<(nat, int)>
    decreases 9 - k,
{
    if at < 0 || at >= data.len() || k >= 9 {
        None
    } else if data[at] < 128 {
        if strict && data[at] == 0 && k > 0 {
            None
        } else {
            Some((data[at] as nat, at + 1))
        }
    } else {
        match vint(data, at + 1, k + 1, strict) {
            None => None,
            Some((v, end)) => Some(((data[at] - 128 + 128 * v) as nat, end)),
        }
    }
}

/// A number, seven bits in each byte.
pub open spec fn vint_bytes(v: nat) -> Seq<u8>
    decreases v,
{
    if v < 128 {
        seq![v as u8]
    } else {
        seq![(128 + v % 128) as u8] + vint_bytes(v / 128)
    }
}

/// A number is as long as where it ends says, and not too large.
pub proof fn lemma_vint_bound(data: Seq<u8>, at: int, k: nat, strict: bool)
    requires
        k <= 9,
    ensures
        vint(data, at, k, strict) matches Some((v, end)) ==> at < end <= data.len() && v < span128(
            (9 - k) as nat,
        ),
    decreases 9 - k,
{
    if 0 <= at < data.len() && k < 9 {
        lemma_vint_bound(data, at + 1, k + 1, strict);
        assert(span128((9 - k) as nat) == 128 * span128((9 - (k + 1)) as nat));
        lemma_span128((9 - (k + 1)) as nat);
    }
}

proof fn lemma_span128(n: nat)
    ensures
        span128(n) >= 1,
    decreases n,
{
    if n > 0 {
        lemma_span128((n - 1) as nat);
    }
}

/// A number that fits, written and read back.
pub proof fn lemma_vint_back(data: Seq<u8>, at: int, k: nat, strict: bool, v: nat)
    requires
        k < 9,
        v < span128((9 - k) as nat),
        k > 0 ==> v > 0,
        0 <= at,
        at + vint_bytes(v).len() <= data.len(),
        data.subrange(at, at + vint_bytes(v).len()) == vint_bytes(v),
    ensures
        vint(data, at, k, strict) == Some((v, at + vint_bytes(v).len())),
    decreases v,
{
    let b = vint_bytes(v);
    if v < 128 {
        assert(data[at] == data.subrange(at, at + b.len())[0]);
    } else {
        let rest = vint_bytes(v / 128);
        assert(data[at] == data.subrange(at, at + b.len())[0]);
        assert(b[0] == (128 + v % 128) as u8);
        assert(b.skip(1) =~= rest);
        assert(data.subrange(at + 1, at + 1 + rest.len()) =~= data.subrange(
            at,
            at + b.len(),
        ).skip(1));
        assert(span128((9 - k) as nat) == 128 * span128((8 - k) as nat));
        assert(k + 1 < 9) by {
            if k == 8 {
                assert(span128(1) == 128) by {
                    assert(span128(0) == 1);
                }
            }
        }
        lemma_vint_back(data, at + 1, k + 1, strict, v / 128);
    }
}

/// What the header of a stream at `at` says.
pub open spec fn stream_header(data: Seq<u8>, at: int) -> std::result::Result<Check, Error> {
    if at + 12 > data.len() {
        Err(Error::Malformed)
    } else if !(data[at] == 0xFD && data[at + 1] == 0x37 && data[at + 2] == 0x7A && data[at + 3]
        == 0x58 && data[at + 4] == 0x5A && data[at + 5] == 0) {
        Err(Error::Malformed)
    } else if data[at + 6] != 0 || data[at + 7] >= 16 {
        Err(Error::Malformed)
    } else if crc32::crc32(data.subrange(at + 6, at + 8)) != bytes::le(data, at + 8, 4) {
        Err(Error::Malformed)
    } else {
        check_from(data[at + 7] as int)
    }
}

/// A filter and its properties.
pub struct Filter {
    pub id: u64,
    pub props: Seq<u8>,
}

/// What a block header says.
pub struct Block {
    pub compressed: Option<nat>,
    pub uncompressed: Option<nat>,
    pub filters: Seq<Filter>,
}

/// `n` filters at `at`, and where they end.
pub open spec fn filters_at(body: Seq<u8>, at: int, n: nat) -> Option<(Seq<Filter>, int)>
    decreases n,
{
    if n == 0 {
        Some((Seq::empty(), at))
    } else {
        match vint(body, at, 0, true) {
            None => None,
            Some((id, p)) => match vint(body, p, 0, true) {
                None => None,
                Some((len, q)) => if q + len > body.len() {
                    None
                } else {
                    match filters_at(body, q + len, (n - 1) as nat) {
                        None => None,
                        Some((rest, end)) => Some(
                            (
                                seq![
                                    Filter { id: id as u64, props: body.subrange(q, q + len) },
                                ] + rest,
                                end,
                            ),
                        ),
                    }
                },
            },
        }
    }
}

/// A number that is there or not.
pub open spec fn optional(body: Seq<u8>, at: int, there: bool) -> Option<(Option<nat>, int)> {
    if there {
        match vint(body, at, 0, true) {
            None => None,
            Some((v, end)) => Some((Some(v), end)),
        }
    } else {
        Some((None, at))
    }
}

/// Whether all bytes between two places are zero.
pub open spec fn zeros(data: Seq<u8>, from: int, to: int) -> bool {
    forall|i: int| from <= i < to ==> #[trigger] data[i] == 0
}

/// What the inside of a block header says.
pub open spec fn block_of(body: Seq<u8>) -> Option<Block> {
    if body.len() == 0 || (body[0] / 4) % 16 != 0 {
        None
    } else {
        match optional(body, 1, (body[0] / 64) % 2 == 1) {
            None => None,
            Some((compressed, p)) => match optional(body, p, body[0] / 128 == 1) {
                None => None,
                Some((uncompressed, q)) => match filters_at(body, q, (body[0] % 4 + 1) as nat) {
                    None => None,
                    Some((filters, end)) => if zeros(body, end, body.len() as int) {
                        Some(Block { compressed, uncompressed, filters })
                    } else {
                        None
                    },
                },
            },
        }
    }
}

/// How long the header of the block at `at` is.
pub open spec fn block_header_len(data: Seq<u8>, at: int) -> int {
    4 * (data[at] + 1)
}

/// What the header of the block at `at` says.
pub open spec fn block_header(data: Seq<u8>, at: int) -> Option<Block> {
    let len = block_header_len(data, at);
    if at + len > data.len() || len < 8 || crc32::crc32(data.subrange(at, at + len - 4))
        != bytes::le(data, at + len - 4, 4) {
        None
    } else {
        block_of(data.subrange(at + 1, at + len - 4))
    }
}

/// The first `k` filters undone, the last of them first.
pub open spec fn undone(fs: Seq<Filter>, k: nat, data: Seq<u8>) -> std::result::Result<
    Seq<u8>,
    Error,
>
    decreases k,
{
    if k == 0 {
        Ok(data)
    } else {
        match filters::decoded(fs[k - 1].id, fs[k - 1].props, data) {
            Err(e) => Err(e),
            Ok(out) => undone(fs, (k - 1) as nat, out),
        }
    }
}

/// The dictionary size of the LZMA2 filter at the end of a chain.
pub open spec fn dictionary(block: Block) -> std::result::Result<int, Error> {
    if block.filters.len() == 0 {
        Err(Error::Malformed)
    } else if block.filters.last().id != filters::LZMA2 {
        Err(Error::Unsupported(Unsupported::Other))
    } else if block.filters.last().props.len() == 0 || block.filters.last().props[0] > 40 {
        Err(Error::Malformed)
    } else {
        Ok(lzma2::dictionary_of(block.filters.last().props[0] as int))
    }
}

/// The content of a block whose compressed data is `body`.
pub open spec fn block_content(block: Block, body: Seq<u8>) -> std::result::Result<
    Seq<u8>,
    Error,
> {
    match dictionary(block) {
        Err(e) => Err(e),
        Ok(dict) => match lzma2::stream(body, dict) {
            None => Err(Error::Malformed),
            Some(out) => undone(block.filters, (block.filters.len() - 1) as nat, out),
        },
    }
}

/// How many bytes make a length a multiple of four.
pub open spec fn padding(n: int) -> int {
    (4 - n % 4) % 4
}

/// The end of `n` index records.
pub open spec fn records(data: Seq<u8>, at: int, n: nat, strict: bool) -> Option<int>
    decreases n,
{
    if n == 0 {
        Some(at)
    } else {
        match vint(data, at, 0, strict) {
            None => None,
            Some((_, p)) => match vint(data, p, 0, strict) {
                None => None,
                Some((_, q)) => records(data, q, (n - 1) as nat, strict),
            },
        }
    }
}

/// Whether a footer at `at` closes a stream with this flag.
pub open spec fn footer_ok(data: Seq<u8>, at: int, flag: u8) -> bool {
    &&& at + 12 <= data.len()
    &&& data[at + 10] == 0x59
    &&& data[at + 11] == 0x5A
    &&& crc32::crc32(data.subrange(at + 4, at + 10)) == bytes::le(data, at, 4)
    &&& data[at + 8] == 0
    &&& data[at + 9] == flag
}

/// The end of the index and footer that follow the zero byte before `at`.
pub open spec fn tail(data: Seq<u8>, at: int, flag: u8, strict: bool) -> Option<int> {
    match vint(data, at, 0, strict) {
        None => None,
        Some((n, p)) => match records(data, p, n, strict) {
            None => None,
            Some(q) => {
                let foot = q + padding(q - at + 1) + 4;
                if foot <= data.len() && footer_ok(data, foot, flag) {
                    Some(foot + 12)
                } else {
                    None
                }
            },
        },
    }
}

/// What a stream gives.
pub enum Part {
    /// It cannot be read.
    Bad(Error),
    /// Its last block says not how long it is, and takes everything.
    All(Seq<u8>),
    /// Its content, and where it ends.
    More(Seq<u8>, int),
}

/// A block's content before the rest.
pub open spec fn after(out: Seq<u8>, rest: Part) -> Part {
    match rest {
        Part::Bad(e) => Part::Bad(e),
        Part::All(more) => Part::All(out + more),
        Part::More(more, end) => Part::More(out + more, end),
    }
}

/// The blocks from `at` on.
#[verifier::opaque]
pub open spec fn blocks(data: Seq<u8>, at: int, check: Check, flag: u8) -> Part
    decreases data.len() - at,
{
    if at >= data.len() {
        Part::Bad(Error::Malformed)
    } else if data[at] == 0 {
        match tail(data, at + 1, flag, true) {
            None => Part::Bad(Error::Malformed),
            Some(end) => Part::More(Seq::empty(), end),
        }
    } else {
        match block_header(data, at) {
            None => Part::Bad(Error::Malformed),
            Some(block) => {
                let from = at + block_header_len(data, at);
                let packed = match block.compressed {
                    Some(n) => n as int,
                    None => data.len() - from,
                };
                if packed > data.len() - from {
                    Part::Bad(Error::Malformed)
                } else {
                    match block_content(block, data.subrange(from, from + packed)) {
                        Err(e) => Part::Bad(e),
                        Ok(out) => {
                            let end = from + packed;
                            let next = end + padding(packed) + check_len(check);
                            if block.uncompressed is Some && block.uncompressed != Some(out.len()) {
                                Part::Bad(Error::Malformed)
                            } else if block.compressed is None {
                                Part::All(out)
                            } else if next > data.len() || !zeros(
                                data,
                                end,
                                end + padding(packed),
                            ) || data.subrange(end + padding(packed), next) != check_bytes(
                                check,
                                out,
                            ) {
                                Part::Bad(Error::Malformed)
                            } else if at < next {
                                after(out, blocks(data, next, check, flag))
                            } else {
                                Part::Bad(Error::Malformed)
                            }
                        },
                    }
                }
            },
        }
    }
}

/// The stream at `at`.
pub open spec fn stream(data: Seq<u8>, at: int) -> Part {
    match stream_header(data, at) {
        Err(e) => Part::Bad(e),
        Ok(check) => blocks(data, at + 12, check, data[at + 7]),
    }
}

/// Where the zeros from `at` on end.
pub open spec fn zeros_end(data: Seq<u8>, at: int) -> int
    decreases data.len() - at,
{
    if 0 <= at < data.len() && data[at] == 0 {
        zeros_end(data, at + 1)
    } else {
        at
    }
}

/// The content of all streams from `at` on; zeros in fours may follow each.
pub open spec fn decoded(data: Seq<u8>, at: int) -> std::result::Result<Seq<u8>, Error>
    decreases data.len() - at,
{
    match stream(data, at) {
        Part::Bad(e) => Err(e),
        Part::All(out) => Ok(out),
        Part::More(out, end) => {
            let next = zeros_end(data, end);
            if (next - end) % 4 != 0 {
                Err(Error::Malformed)
            } else if next >= data.len() {
                Ok(out)
            } else if at < next {
                error::joined(out, decoded(data, next))
            } else {
                Err(Error::Malformed)
            }
        },
    }
}

/// The content from the header of a stream at `at` on, read block by block.
pub open spec fn streamed(data: Seq<u8>, at: int) -> std::result::Result<Seq<u8>, Error>
    decreases data.len() - at,
{
    if at >= data.len() {
        Ok(Seq::empty())
    } else if at + 4 > data.len() {
        Err(Error::Malformed)
    } else if data[at] == 0 && data[at + 1] == 0 && data[at + 2] == 0 && data[at + 3] == 0 {
        streamed(data, at + 4)
    } else {
        match stream_header(data, at) {
            Err(e) => Err(e),
            Ok(check) => streamed_blocks(data, at + 12, check, data[at + 7]),
        }
    }
}

/// What a block that is only LZMA2 decodes to.
pub open spec fn plain_block(data: Seq<u8>, at: int) -> std::result::Result<
    (Block, lzma2::Chunked),
    Error,
> {
    match block_header(data, at) {
        None => Err(Error::Malformed),
        Some(block) => match dictionary(block) {
            Err(Error::Malformed) => if block.filters.len() > 1 {
                Err(Error::Unsupported(Unsupported::Other))
            } else {
                Err(Error::Malformed)
            },
            Err(e) => Err(e),
            Ok(dict) => if block.filters.len() > 1 {
                Err(Error::Unsupported(Unsupported::Other))
            } else {
                match lzma2::decoded(
                    data.skip(at + block_header_len(data, at)),
                    dict,
                    lzma2::start_state(),
                ) {
                    None => Err(Error::Malformed),
                    Some(t) => Ok((block, t)),
                }
            },
        },
    }
}

/// Where the block at `at` ends, once its content is known; `None` where what
/// follows the content is wrong.
pub open spec fn block_end(
    data: Seq<u8>,
    at: int,
    check: Check,
    block: Block,
    t: lzma2::Chunked,
) -> Option<int> {
    let end = at + block_header_len(data, at) + t.pos;
    let next = end + padding(t.pos) + check_len(check);
    if block.uncompressed is Some && block.uncompressed != Some(t.all.len()) {
        None
    } else if next > data.len() || !zeros(data, end, end + padding(t.pos)) || data.subrange(
        end + padding(t.pos),
        next,
    ) != check_bytes(check, t.all) {
        None
    } else {
        Some(next)
    }
}

/// The content from the block at `at` on, read block by block.
pub open spec fn streamed_blocks(
    data: Seq<u8>,
    at: int,
    check: Check,
    flag: u8,
) -> std::result::Result<Seq<u8>, Error>
    decreases data.len() - at,
{
    if at >= data.len() {
        Err(Error::Malformed)
    } else if data[at] == 0 {
        match tail(data, at + 1, flag, false) {
            None => Err(Error::Malformed),
            Some(end) => if at < end <= data.len() {
                streamed(data, end)
            } else {
                Err(Error::Malformed)
            },
        }
    } else {
        match plain_block(data, at) {
            Err(e) => Err(e),
            Ok((block, t)) => match block_end(data, at, check, block, t) {
                None => Err(Error::Malformed),
                Some(next) => if at < next <= data.len() {
                    error::joined(t.all, streamed_blocks(data, next, check, flag))
                } else {
                    Err(Error::Malformed)
                },
            },
        }
    }
}

/// What is held from the header of a stream at `at` on, up to the end or up to
/// the first fault.
pub open spec fn held(data: Seq<u8>, at: int) -> Seq<u8>
    decreases data.len() - at,
{
    if at >= data.len() || at + 4 > data.len() {
        Seq::empty()
    } else if data[at] == 0 && data[at + 1] == 0 && data[at + 2] == 0 && data[at + 3] == 0 {
        held(data, at + 4)
    } else {
        match stream_header(data, at) {
            Err(_) => Seq::empty(),
            Ok(check) => held_blocks(data, at + 12, check, data[at + 7]),
        }
    }
}

/// What is held from the block at `at` on: the content of whole blocks, and of
/// the one that a fault is in what its chunks hold before that. A block that
/// is not only LZMA2 holds nothing.
pub open spec fn held_blocks(data: Seq<u8>, at: int, check: Check, flag: u8) -> Seq<u8>
    decreases data.len() - at,
{
    if at >= data.len() {
        Seq::empty()
    } else if data[at] == 0 {
        match tail(data, at + 1, flag, false) {
            None => Seq::empty(),
            Some(end) => if at < end <= data.len() {
                held(data, end)
            } else {
                Seq::empty()
            },
        }
    } else {
        match block_header(data, at) {
            None => Seq::empty(),
            Some(block) => if block.filters.len() != 1 || dictionary(block) is Err {
                Seq::empty()
            } else {
                let body = data.skip(at + block_header_len(data, at));
                let dict = dictionary(block)->Ok_0;
                let content = lzma2::held(body, dict, lzma2::start_state());
                match lzma2::decoded(body, dict, lzma2::start_state()) {
                    None => content,
                    Some(t) => match block_end(data, at, check, block, t) {
                        None => content,
                        Some(next) => if at < next <= data.len() {
                            content + held_blocks(data, next, check, flag)
                        } else {
                            content
                        },
                    },
                }
            },
        }
    }
}

/// Of a block that lists a filter before LZMA2 nothing comes out: reading
/// ends there, and it is unsupported.
pub proof fn lemma_filtered(data: Seq<u8>, at: int, check: Check, flag: u8)
    requires
        0 <= at < data.len(),
        data[at] != 0,
        block_header(data, at) matches Some(block) && block.filters.len() > 1,
    ensures
        streamed_blocks(data, at, check, flag) == Err::<Seq<u8>, Error>(
            Error::Unsupported(Unsupported::Other),
        ),
        held_blocks(data, at, check, flag) == Seq::<u8>::empty(),
{
}

pub proof fn lemma_check_len(check: Check, s: Seq<u8>)
    ensures
        check_bytes(check, s).len() == check_len(check),
{
    bytes::lemma_le_bytes_len(crc32::crc32(s) as nat, 4);
    bytes::lemma_le_bytes_len(crc64::crc64(s) as nat, 8);
    if check is Sha256 {
        sha256::lemma_digest_len(s);
    }
}

pub proof fn lemma_records_end(data: Seq<u8>, at: int, n: nat, strict: bool)
    requires
        at <= data.len(),
    ensures
        records(data, at, n, strict) matches Some(end) ==> at <= end <= data.len(),
    decreases n,
{
    if n > 0 {
        lemma_vint_bound(data, at, 0, strict);
        if let Some((_, p)) = vint(data, at, 0, strict) {
            lemma_vint_bound(data, p, 0, strict);
            if let Some((_, q)) = vint(data, p, 0, strict) {
                lemma_records_end(data, q, (n - 1) as nat, strict);
            }
        }
    }
}

} // verus!
