//! What a Zstandard stream means.
use crate::codecs::zstd::bits as stream;
use crate::codecs::zstd::huffman;
use crate::codecs::zstd::sequences;
use crate::utils::bytes;
use crate::utils::error;
use crate::utils::error::{Error, Result, Unsupported};
use crate::utils::lz;
use crate::utils::xxhash;
use vstd::arithmetic::power2::*;
use vstd::prelude::*;

verus! {

pub const MAGIC: u32 = 0xFD2F_B528;

pub const SKIPPABLE_MAGIC_LOW: u32 = 0x184D_2A50;

pub const SKIPPABLE_MAGIC_HIGH: u32 = 0x184D_2A5F;

pub const MAX_WINDOW: u64 = 0x8000_0000;

pub const MAX_BLOCK: usize = 131_072;

/// A field of `n` bytes at `pos`, and what is behind it. The stream may not
/// end before it or inside it.
pub open spec fn field(data: Seq<u8>, pos: nat, n: nat) -> Result<(Seq<u8>, nat)> {
    if n == 0 {
        Ok((Seq::empty(), pos))
    } else if pos + n <= data.len() {
        Ok((data.subrange(pos as int, (pos + n) as int), pos + n))
    } else {
        Err(Error::Malformed)
    }
}

/// What a frame header says.
pub struct Header {
    pub window: nat,
    pub content: Option<nat>,
    pub checksum: bool,
}

/// Whether the frame is one segment, its window being its content.
pub open spec fn single(descriptor: u8) -> bool {
    descriptor / 32 % 2 == 1
}

/// How many bytes name the dictionary.
pub open spec fn dictionary_bytes(descriptor: u8) -> nat {
    if descriptor % 4 == 0 {
        0
    } else if descriptor % 4 == 1 {
        1
    } else if descriptor % 4 == 2 {
        2
    } else {
        4
    }
}

/// How many bytes give the content size.
pub open spec fn content_bytes(descriptor: u8) -> nat {
    let flag = descriptor / 64;
    if flag == 0 {
        if single(descriptor) {
            1
        } else {
            0
        }
    } else if flag == 1 {
        2
    } else if flag == 2 {
        4
    } else {
        8
    }
}

/// How many bytes stand before the dictionary's name.
pub open spec fn fixed_bytes(descriptor: u8) -> nat {
    if single(descriptor) {
        1
    } else {
        2
    }
}

/// How long a header is.
pub open spec fn header_len(descriptor: u8) -> nat {
    fixed_bytes(descriptor) + dictionary_bytes(descriptor) + content_bytes(descriptor)
}

/// The content size that a header gives.
pub open spec fn content_of(h: Seq<u8>) -> Option<nat> {
    let n = content_bytes(h[0]);
    let v = bytes::le(h, (fixed_bytes(h[0]) + dictionary_bytes(h[0])) as int, n);
    if n == 0 {
        None
    } else if n == 2 {
        Some(v + 256)
    } else {
        Some(v)
    }
}

/// The window that a header's window byte means.
pub open spec fn window_of(byte: u8) -> nat {
    let base = pow2((10 + byte / 8) as nat);
    base + base / 8 * (byte % 8) as nat
}

/// What a frame header says.
pub open spec fn header(h: Seq<u8>) -> Result<Header> {
    let d = h[0];
    if d / 8 % 2 == 1 {
        Err(Error::Malformed)
    } else if exists|i: int|
        fixed_bytes(d) <= i < fixed_bytes(d) + dictionary_bytes(d) && #[trigger] h[i] != 0 {
        Err(Error::Unsupported(Unsupported::Other))
    } else {
        let window = if single(d) {
            content_of(h)->Some_0
        } else {
            window_of(h[1])
        };
        if window > MAX_WINDOW {
            Err(Error::Malformed)
        } else {
            Ok(Header { window, content: content_of(h), checksum: d / 4 % 2 == 1 })
        }
    }
}

/// A frame that is being decoded.
pub struct Frame {
    pub header: Header,
    pub literals: Option<huffman::Code>,
    pub done: sequences::Done,
}

/// A frame of which nothing was decoded.
pub open spec fn fresh(h: Header) -> Frame {
    Frame {
        header: h,
        literals: None,
        done: sequences::Done {
            out: Seq::empty(),
            sent: sequences::none_sent(),
            repeats: seq![1u32, 4u32, 8u32],
        },
    }
}

/// What comes next between frames.
pub enum Opening {
    End,
    Skipped(nat),
    Opened(Header, nat),
}

/// What stands at `pos`, between frames.
pub open spec fn opening(data: Seq<u8>, pos: nat) -> Result<Opening> {
    if pos >= data.len() {
        Ok(Opening::End)
    } else if pos + 4 > data.len() {
        Err(Error::Malformed)
    } else {
        let magic = bytes::le(data, pos as int, 4);
        if SKIPPABLE_MAGIC_LOW <= magic <= SKIPPABLE_MAGIC_HIGH {
            match field(data, pos + 4, 4) {
                Err(e) => Err(e),
                Ok((size, q)) => {
                    let end = q + bytes::le(size, 0, 4);
                    Ok(
                        Opening::Skipped(
                            if end < data.len() {
                                end
                            } else {
                                data.len()
                            },
                        ),
                    )
                },
            }
        } else if magic != MAGIC {
            Err(Error::Malformed)
        } else {
            match field(data, pos + 4, 1) {
                Err(e) => Err(e),
                Ok((d, q)) => match field(data, q, (header_len(d[0]) - 1) as nat) {
                    Err(e) => Err(e),
                    Ok((rest, r)) => match header(d + rest) {
                        Err(e) => Err(e),
                        Ok(h) => Ok(Opening::Opened(h, r)),
                    },
                },
            }
        }
    }
}

/// `n` symbols off the end of a stream.
pub open spec fn symbols(c: huffman::Code, data: Seq<u8>, b: stream::Back, n: nat) -> Seq<u8>
    decreases n,
{
    if n == 0 {
        Seq::empty()
    } else {
        let (s, rest) = huffman::symbol_at(c, data, b);
        seq![s] + symbols(c, data, rest, (n - 1) as nat)
    }
}

/// A stream of `n` literals.
pub open spec fn literal_stream(data: Seq<u8>, c: huffman::Code, n: nat) -> Result<Seq<u8>> {
    match stream::payload(data) {
        None => Err(Error::Malformed),
        Some(k) => Ok(symbols(c, data, stream::Back { left: k, over: false }, n)),
    }
}

/// Literals in four streams behind a table of their sizes.
#[verifier::opaque]
pub open spec fn four_streams(data: Seq<u8>, c: huffman::Code, n: nat) -> Result<Seq<u8>> {
    let per = (n + 3) / 4;
    if data.len() < 6 {
        Err(Error::Malformed)
    } else {
        let x = bytes::le(data, 0, 2);
        let y = bytes::le(data, 2, 2);
        let z = bytes::le(data, 4, 2);
        let body = data.skip(6);
        if x + y + z > body.len() || n < 3 * per {
            Err(Error::Malformed)
        } else {
            match (
                literal_stream(body.subrange(0, x as int), c, per),
                literal_stream(body.subrange(x as int, (x + y) as int), c, per),
                literal_stream(body.subrange((x + y) as int, (x + y + z) as int), c, per),
                literal_stream(
                    body.subrange((x + y + z) as int, body.len() as int),
                    c,
                    (n - 3 * per) as nat,
                ),
            ) {
                (Ok(p), Ok(q), Ok(r), Ok(s)) => Ok(p + q + r + s),
                _ => Err(Error::Malformed),
            }
        }
    }
}

/// The size of plain literals and how many bytes give it.
pub open spec fn plain_size(body: Seq<u8>) -> Result<(nat, nat)> {
    let first = body[0];
    let form = first / 4 % 4;
    if form == 0 || form == 2 {
        Ok(((first / 8) as nat, 1))
    } else if form == 1 {
        if body.len() < 2 {
            Err(Error::Malformed)
        } else {
            Ok(((first / 16 + body[1] * 16) as nat, 2))
        }
    } else if body.len() < 3 {
        Err(Error::Malformed)
    } else {
        Ok(((first / 16 + body[1] * 16 + body[2] * 4096) as nat, 3))
    }
}

/// How wide the two sizes of compressed literals are.
pub open spec fn size_bits(form: nat) -> nat {
    if form <= 1 {
        10
    } else if form == 2 {
        14
    } else {
        18
    }
}

/// How many bytes give the sizes of compressed literals.
pub open spec fn sizes_len(form: nat) -> nat {
    if form <= 1 {
        3
    } else if form == 2 {
        4
    } else {
        5
    }
}

/// The sizes of compressed literals: how many there are, and how many bytes
/// they take.
pub open spec fn coded_sizes(body: Seq<u8>) -> Result<(nat, nat)> {
    let form = (body[0] / 4 % 4) as nat;
    let w = size_bits(form);
    if body.len() < sizes_len(form) {
        Err(Error::Malformed)
    } else {
        let v = bytes::le(body, 0, sizes_len(form));
        Ok((v / 16 % pow2(w), v / (16 * pow2(w)) % pow2(w)))
    }
}

/// A block's literals, how many bytes they take, and the code that is kept.
#[verifier::opaque]
pub open spec fn literals(body: Seq<u8>, kept: Option<huffman::Code>) -> Result<
    (Seq<u8>, nat, Option<huffman::Code>),
> {
    if body.len() == 0 {
        Err(Error::Malformed)
    } else if body[0] % 4 <= 1 {
        match plain_size(body) {
            Err(e) => Err(e),
            Ok((n, at)) => if body[0] % 4 == 0 {
                if at + n > body.len() {
                    Err(Error::Malformed)
                } else {
                    Ok((body.subrange(at as int, (at + n) as int), at + n, kept))
                }
            } else if at >= body.len() {
                Err(Error::Malformed)
            } else {
                Ok((Seq::new(n, |i: int| body[at as int]), at + 1, kept))
            },
        }
    } else {
        let form = (body[0] / 4 % 4) as nat;
        let at = sizes_len(form);
        match coded_sizes(body) {
            Err(e) => Err(e),
            Ok((n, size)) => if at + size > body.len() {
                Err(Error::Malformed)
            } else {
                let section = body.subrange(at as int, (at + size) as int);
                match if body[0] % 4 == 3 {
                    match kept {
                        None => Err(Error::Malformed),
                        Some(c) => Ok((c, 0nat)),
                    }
                } else {
                    huffman::parsed(section)
                } {
                    Err(e) => Err(e),
                    Ok((c, used)) => {
                        let payload = section.skip(used as int);
                        match if form == 0 {
                            literal_stream(payload, c, n)
                        } else {
                            four_streams(payload, c, n)
                        } {
                            Err(e) => Err(e),
                            Ok(out) => Ok((out, at + size, Some(c))),
                        }
                    },
                }
            },
        }
    }
}

/// The frame after a compressed block.
pub open spec fn compressed(body: Seq<u8>, f: Frame, room: nat) -> Result<Frame> {
    match literals(body, f.literals) {
        Err(e) => Err(e),
        Ok((lits, used, code)) => match sequences::executed(
            body.skip(used as int),
            lits,
            f.header.window,
            room,
            f.done,
        ) {
            Err(e) => Err(e),
            Ok(done) => Ok(Frame { literals: code, done, ..f }),
        },
    }
}

/// The frame with some bytes more.
pub open spec fn appended(f: Frame, more: Seq<u8>, room: nat) -> Result<Frame> {
    if f.done.out.len() + more.len() > room {
        Err(Error::Malformed)
    } else {
        Ok(Frame { done: sequences::Done { out: f.done.out + more, ..f.done }, ..f })
    }
}

/// The frame after the block at `pos`, what is behind the block, and whether
/// it is the last one.
#[verifier::opaque]
pub open spec fn block(data: Seq<u8>, pos: nat, f: Frame, room: nat) -> Result<(Frame, nat, bool)> {
    if pos + 3 > data.len() {
        Err(Error::Malformed)
    } else {
        let v = bytes::le(data, pos as int, 3);
        let last = v % 2 == 1;
        let kind = v / 2 % 4;
        let size = v / 8;
        let stored: nat = if kind == 1 {
            1
        } else {
            size
        };
        if stored > MAX_BLOCK {
            Err(Error::Malformed)
        } else {
            match field(data, pos + 3, stored) {
                Err(e) => Err(e),
                Ok((body, q)) => match if kind == 0 {
                    appended(f, body, room)
                } else if kind == 1 {
                    appended(f, Seq::new(size, |i: int| body[0]), room)
                } else if kind == 2 {
                    compressed(body, f, room)
                } else {
                    Err(Error::Malformed)
                } {
                    Err(e) => Err(e),
                    Ok(g) => Ok((g, q, last)),
                },
            }
        }
    }
}

/// What is behind a frame whose last block ends at `pos`.
#[verifier::opaque]
pub open spec fn closing(data: Seq<u8>, pos: nat, f: Frame) -> Result<nat> {
    if f.header.content matches Some(n) && n != f.done.out.len() {
        Err(Error::Malformed)
    } else if f.header.checksum {
        match field(data, pos, 4) {
            Err(e) => Err(e),
            Ok((check, q)) => if bytes::le(check, 0, 4) != xxhash::xxh64(f.done.out, 0)
                % 0x1_0000_0000 {
                Err(Error::Malformed)
            } else {
                Ok(q)
            },
        }
    } else {
        Ok(pos)
    }
}

/// How long a frame's output may become, `before` bytes standing before it.
pub open spec fn room_after(before: nat) -> nat {
    if before <= sequences::MAX_TOTAL {
        (sequences::MAX_TOTAL - before) as nat
    } else {
        0
    }
}

/// What the stream holds from `pos` on, between frames, `before` bytes
/// standing before it.
pub open spec fn frames(data: Seq<u8>, pos: nat, before: nat) -> Result<Seq<u8>>
    decreases data.len() - pos,
{
    match opening(data, pos) {
        Err(e) => Err(e),
        Ok(Opening::End) => Ok(Seq::empty()),
        Ok(Opening::Skipped(q)) => if q <= pos {
            Err(Error::Malformed)
        } else {
            frames(data, q, before)
        },
        Ok(Opening::Opened(h, q)) => if q <= pos {
            Err(Error::Malformed)
        } else {
            blocks(data, q, fresh(h), before)
        },
    }
}

/// What the stream holds from `pos` on, the frame's own output so far in
/// front of it.
pub open spec fn blocks(data: Seq<u8>, pos: nat, f: Frame, before: nat) -> Result<Seq<u8>>
    decreases data.len() - pos,
{
    match block(data, pos, f, room_after(before)) {
        Err(e) => Err(e),
        Ok((g, q, last)) => if q <= pos || q > data.len() {
            Err(Error::Malformed)
        } else if !last {
            blocks(data, q, g, before)
        } else {
            match closing(data, q, g) {
                Err(e) => Err(e),
                Ok(r) => if r < q || r > data.len() {
                    Err(Error::Malformed)
                } else {
                    error::joined(g.done.out, frames(data, r, before + g.done.out.len()))
                },
            }
        },
    }
}

/// What a Zstandard stream holds.
pub open spec fn decoded(data: Seq<u8>) -> Result<Seq<u8>> {
    frames(data, 0, 0)
}

/// What is held from `pos` on, between frames, up to the end or up to the
/// first fault.
pub open spec fn held_frames(data: Seq<u8>, pos: nat, before: nat) -> Seq<u8>
    decreases data.len() - pos,
{
    match opening(data, pos) {
        Ok(Opening::Skipped(q)) => if q <= pos {
            Seq::empty()
        } else {
            held_frames(data, q, before)
        },
        Ok(Opening::Opened(h, q)) => if q <= pos {
            Seq::empty()
        } else {
            held_blocks(data, q, fresh(h), before)
        },
        _ => Seq::empty(),
    }
}

/// What is held from `pos` on, the frame's own output so far in front of it.
/// The last block of a frame counts once the frame was closed.
pub open spec fn held_blocks(data: Seq<u8>, pos: nat, f: Frame, before: nat) -> Seq<u8>
    decreases data.len() - pos,
{
    match block(data, pos, f, room_after(before)) {
        Err(_) => f.done.out,
        Ok((g, q, last)) => if q <= pos || q > data.len() {
            f.done.out
        } else if !last {
            held_blocks(data, q, g, before)
        } else {
            match closing(data, q, g) {
                Err(_) => f.done.out,
                Ok(r) => if r < q || r > data.len() {
                    f.done.out
                } else {
                    g.done.out + held_frames(data, r, before + g.done.out.len())
                },
            }
        },
    }
}

/// What is held of a frame begins with what was decoded already.
pub proof fn lemma_held_grows(data: Seq<u8>, pos: nat, f: Frame, before: nat)
    ensures
        f.done.out.is_prefix_of(held_blocks(data, pos, f, before)),
    decreases data.len() - pos,
{
    let room = room_after(before);
    let h = held_blocks(data, pos, f, before);
    let n = f.done.out.len() as int;
    lemma_block(data, pos, f, room);
    assert(f.done.out.take(n) =~= f.done.out);
    if let Ok((g, q, last)) = block(data, pos, f, room) {
        if !last {
            lemma_held_grows(data, q, g, before);
            assert(h.take(n) =~= h.take(g.done.out.len() as int).take(n));
        } else if h != f.done.out {
            assert(h.take(n) =~= g.done.out.take(n));
        }
    }
}

/// A frame or what is skipped takes some bytes.
pub proof fn lemma_opening(data: Seq<u8>, pos: nat)
    ensures
        match opening(data, pos) {
            Ok(Opening::Skipped(q)) => pos < q <= data.len(),
            Ok(Opening::Opened(h, q)) => pos < q <= data.len() && h.window <= MAX_WINDOW,
            _ => true,
        },
{
}

/// A block takes some bytes.
pub proof fn lemma_block(data: Seq<u8>, pos: nat, f: Frame, room: nat)
    ensures
        block(data, pos, f, room) matches Ok((g, q, last)) ==> pos < q <= data.len()
            && f.done.out.is_prefix_of(g.done.out) && g.header == f.header,
{
    reveal(block);
    if let Ok((g, q, last)) = block(data, pos, f, room) {
        let v = bytes::le(data, pos as int, 3);
        let kind = v / 2 % 4;
        if kind == 2 {
            let body = field(data, pos + 3, v / 8)->Ok_0.0;
            let (lits, used, code) = literals(body, f.literals)->Ok_0;
            lemma_executed_grows(body.skip(used as int), lits, f.header.window, room, f.done);
        }
    }
}

/// What closes a frame lies in the stream.
pub proof fn lemma_closing(data: Seq<u8>, pos: nat, f: Frame)
    requires
        pos <= data.len(),
    ensures
        closing(data, pos, f) matches Ok(q) ==> pos <= q <= data.len(),
{
    reveal(closing);
}

/// A section only adds to the output.
proof fn lemma_executed_grows(
    data: Seq<u8>,
    lits: Seq<u8>,
    window: nat,
    room: nat,
    d: sequences::Done,
)
    ensures
        sequences::executed(data, lits, window, room, d) matches Ok(e) ==> d.out.is_prefix_of(
            e.out,
        ),
{
    if let Ok(e) = sequences::executed(data, lits, window, room, d) {
        let (count, at) = sequences::counted(data)->Ok_0;
        if count > 0 {
            let (sent, begin) = sequences::tables_at(data, at, d.sent)->Ok_0;
            let body = data.skip(begin as int);
            let s = sequences::Setting {
                data: body,
                literal_length: sent.literal_length->Some_0,
                offset: sent.offset->Some_0,
                match_length: sent.match_length->Some_0,
                literals: lits,
                window,
                room,
            };
            lemma_run_grows(
                s,
                sequences::start(s, stream::payload(body)->Some_0, d.repeats, d.out),
                count,
            );
        }
    }
}

proof fn lemma_run_grows(s: sequences::Setting, p: sequences::Place, n: nat)
    ensures
        sequences::run(s, p, n) matches Ok((out, r)) ==> p.out.is_prefix_of(out),
    decreases n,
{
    if n > 0 {
        if let Ok(q) = sequences::one_sequence(s, p) {
            reveal(sequences::coded_sequence);
            let next = if n > 1 {
                sequences::advanced(s, q)
            } else {
                q
            };
            lemma_run_grows(s, next, (n - 1) as nat);
            lemma_emitted_grows(s, p, q);
            if let Ok((out, r)) = sequences::run(s, p, n) {
                assert(p.out =~= out.take(p.out.len() as int));
            }
        }
    }
}

proof fn lemma_emitted_grows(s: sequences::Setting, p: sequences::Place, q: sequences::Place)
    requires
        sequences::one_sequence(s, p) == Ok::<sequences::Place, Error>(q),
    ensures
        p.out.is_prefix_of(q.out),
{
    reveal(sequences::coded_sequence);
    assert forall|ll: nat, d: nat, ml: nat|
        (#[trigger] sequences::emitted(s, p.out, p.used, ll, d, ml)) is Some implies p.out.is_prefix_of(
        sequences::emitted(s, p.out, p.used, ll, d, ml)->Some_0,
    ) by {
        let with = p.out + s.literals.subrange(p.used as int, (p.used + ll) as int);
        lz::lemma_copied_prefix(with, d as int, ml);
        let out = lz::copied(with, d as int, ml);
        assert(out.take(with.len() as int) == with);
        assert(p.out =~= out.take(p.out.len() as int)) by {
            assert forall|i: int| 0 <= i < p.out.len() implies out[i] == p.out[i] by {
                assert(out.take(with.len() as int)[i] == with[i]);
            }
        }
    }
}

/// What is decoded of a frame begins with what was decoded already.
pub proof fn lemma_blocks_grow(data: Seq<u8>, pos: nat, f: Frame, before: nat)
    ensures
        blocks(data, pos, f, before) matches Ok(s) ==> f.done.out.is_prefix_of(s),
    decreases data.len() - pos,
{
    let room = room_after(before);
    lemma_block(data, pos, f, room);
    if let Ok((g, q, last)) = block(data, pos, f, room) {
        if !last {
            lemma_blocks_grow(data, q, g, before);
        }
        if let Ok(s) = blocks(data, pos, f, before) {
            assert(g.done.out.is_prefix_of(s));
            assert(f.done.out =~= s.take(f.done.out.len() as int)) by {
                assert forall|i: int| 0 <= i < f.done.out.len() implies s[i] == f.done.out[i] by {
                    assert(g.done.out.take(f.done.out.len() as int)[i] == g.done.out[i]);
                    assert(s.take(g.done.out.len() as int)[i] == s[i]);
                }
            }
        }
    }
}

/// Sequences that fit into less room give the same there.
proof fn lemma_run_room(s: sequences::Setting, p: sequences::Place, n: nat, room: nat)
    requires
        sequences::run(s, p, n) matches Ok((out, r)) && out.len() <= room,
    ensures
        sequences::run(sequences::Setting { room, ..s }, p, n) == sequences::run(s, p, n),
    decreases n,
{
    let t = sequences::Setting { room, ..s };
    if n > 0 {
        let q = sequences::one_sequence(s, p)->Ok_0;
        let next = if n > 1 {
            sequences::advanced(s, q)
        } else {
            q
        };
        lemma_run_room(s, next, (n - 1) as nat, room);
        lemma_run_grows(s, next, (n - 1) as nat);
        let out = sequences::run(s, p, n)->Ok_0.0;
        assert(q.out.len() <= out.len());
        assert(sequences::one_sequence(t, p) == sequences::one_sequence(s, p)) by {
            reveal(sequences::coded_sequence);
            assert forall|ll: nat, d: nat, ml: nat|
                (#[trigger] sequences::emitted(s, p.out, p.used, ll, d, ml)) == Some(
                    q.out,
                ) implies sequences::emitted(t, p.out, p.used, ll, d, ml) == Some(q.out) by {
                let with = p.out + s.literals.subrange(p.used as int, (p.used + ll) as int);
                lz::lemma_copied_len(with, d as int, ml);
            }
        }
        if n > 1 {
            assert(sequences::advanced(t, q) == sequences::advanced(s, q));
        }
    }
}

/// A block that fits into less room gives the same there.
#[verifier::spinoff_prover]
pub proof fn lemma_block_room(data: Seq<u8>, pos: nat, f: Frame, room: nat, less: nat)
    requires
        block(data, pos, f, room) matches Ok((g, q, last)) && g.done.out.len() <= less,
    ensures
        block(data, pos, f, less) == block(data, pos, f, room),
{
    reveal(block);
    let v = bytes::le(data, pos as int, 3);
    if v / 2 % 4 == 2 {
        let body = field(data, pos + 3, v / 8)->Ok_0.0;
        let (lits, used, code) = literals(body, f.literals)->Ok_0;
        let rest = body.skip(used as int);
        let d = f.done;
        let (count, at) = sequences::counted(rest)->Ok_0;
        if count > 0 {
            let (sent, begin) = sequences::tables_at(rest, at, d.sent)->Ok_0;
            let inner = rest.skip(begin as int);
            let s = sequences::Setting {
                data: inner,
                literal_length: sent.literal_length->Some_0,
                offset: sent.offset->Some_0,
                match_length: sent.match_length->Some_0,
                literals: lits,
                window: f.header.window,
                room,
            };
            let p = sequences::start(s, stream::payload(inner)->Some_0, d.repeats, d.out);
            lemma_run_room(s, p, count, less);
            assert(sequences::start(
                sequences::Setting { room: less, ..s },
                stream::payload(inner)->Some_0,
                d.repeats,
                d.out,
            ) == p);
        }
    }
}

/// A field stands where it stands, wherever the data starts.
proof fn lemma_field_skip(data: Seq<u8>, k: nat, pos: nat, n: nat)
    requires
        k <= data.len(),
    ensures
        match field(data.skip(k as int), pos, n) {
            Ok((body, q)) => field(data, k + pos, n) == Ok::<(Seq<u8>, nat), Error>((body, k + q)),
            Err(e) => field(data, k + pos, n) == Err::<(Seq<u8>, nat), Error>(e),
        },
{
    if 0 < n && pos + n <= data.len() - k {
        assert(data.skip(k as int).subrange(pos as int, (pos + n) as int) =~= data.subrange(
            (k + pos) as int,
            (k + pos + n) as int,
        ));
    }
}

proof fn lemma_opening_skip(data: Seq<u8>, k: nat, pos: nat)
    requires
        k <= data.len(),
    ensures
        opening(data, k + pos) == match opening(data.skip(k as int), pos) {
            Ok(Opening::End) => Ok::<Opening, Error>(Opening::End),
            Ok(Opening::Skipped(q)) => Ok(Opening::Skipped(k + q)),
            Ok(Opening::Opened(h, q)) => Ok(Opening::Opened(h, k + q)),
            Err(e) => Err(e),
        },
{
    let rest = data.skip(k as int);
    if pos + 4 <= rest.len() {
        bytes::lemma_le_skip(data, k as int, pos as int, 4);
        lemma_field_skip(data, k, pos + 4, 4);
        lemma_field_skip(data, k, pos + 4, 1);
        if let Ok((d, q)) = field(rest, pos + 4, 1) {
            lemma_field_skip(data, k, q, (header_len(d[0]) - 1) as nat);
        }
    }
}

proof fn lemma_block_skip(data: Seq<u8>, k: nat, pos: nat, f: Frame, room: nat)
    requires
        k <= data.len(),
    ensures
        block(data, k + pos, f, room) == match block(data.skip(k as int), pos, f, room) {
            Ok((g, q, last)) => Ok::<(Frame, nat, bool), Error>((g, k + q, last)),
            Err(e) => Err(e),
        },
{
    reveal(block);
    let rest = data.skip(k as int);
    if pos + 3 <= rest.len() {
        bytes::lemma_le_skip(data, k as int, pos as int, 3);
        let v = bytes::le(rest, pos as int, 3);
        let stored: nat = if v / 2 % 4 == 1 {
            1
        } else {
            v / 8
        };
        lemma_field_skip(data, k, pos + 3, stored);
    }
}

proof fn lemma_closing_skip(data: Seq<u8>, k: nat, pos: nat, f: Frame)
    requires
        k <= data.len(),
    ensures
        closing(data, k + pos, f) == match closing(data.skip(k as int), pos, f) {
            Ok(q) => Ok::<nat, Error>(k + q),
            Err(e) => Err(e),
        },
{
    reveal(closing);
    lemma_field_skip(data, k, pos, 4);
}

/// Frames mean the same wherever the data starts.
pub proof fn lemma_frames_skip(data: Seq<u8>, k: nat, pos: nat, before: nat)
    requires
        k <= data.len(),
    ensures
        frames(data, k + pos, before) == frames(data.skip(k as int), pos, before),
    decreases data.len() - k - pos, 1int,
{
    lemma_opening_skip(data, k, pos);
    let rest = data.skip(k as int);
    lemma_opening(rest, pos);
    match opening(rest, pos) {
        Ok(Opening::Skipped(q)) => {
            lemma_frames_skip(data, k, q, before);
        },
        Ok(Opening::Opened(h, q)) => {
            lemma_blocks_skip(data, k, q, fresh(h), before);
        },
        _ => {},
    }
}

proof fn lemma_blocks_skip(data: Seq<u8>, k: nat, pos: nat, f: Frame, before: nat)
    requires
        k <= data.len(),
    ensures
        blocks(data, k + pos, f, before) == blocks(data.skip(k as int), pos, f, before),
    decreases data.len() - k - pos, 0int,
{
    let rest = data.skip(k as int);
    let room = room_after(before);
    lemma_block_skip(data, k, pos, f, room);
    lemma_block(rest, pos, f, room);
    if let Ok((g, q, last)) = block(rest, pos, f, room) {
        if last {
            lemma_closing_skip(data, k, q, g);
            if let Ok(r) = closing(rest, q, g) {
                if q <= r <= rest.len() {
                    lemma_frames_skip(data, k, r, before + g.done.out.len());
                }
            }
        } else {
            lemma_blocks_skip(data, k, q, g, before);
        }
    }
}

} // verus!
