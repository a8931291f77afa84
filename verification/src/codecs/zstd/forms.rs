//! Every form that the parts of a frame can have.
//!
//! A block gives each of its three tables in one of four ways, its literals in
//! one of four ways, and itself in one of three.
use crate::codecs::zstd::bits as stream;
use crate::codecs::zstd::fse;
use crate::codecs::zstd::huffman;
use crate::codecs::zstd::layout;
use crate::codecs::zstd::layout::{Frame, Header};
use crate::codecs::zstd::sequences;
use crate::codecs::zstd::sequences::{Done, Sent, Setting};
use crate::utils::bytes;
use crate::utils::error::Error;
use vstd::arithmetic::power2::*;
use vstd::prelude::*;

verus! {

/// How a block gives a table.
pub enum Given {
    /// The one of the format.
    Usual,
    /// One symbol only.
    One(u8),
    /// A description.
    Described(Seq<u8>),
    /// The one used last.
    Again,
}

/// The two bits that say so.
pub open spec fn mode(g: Given) -> int {
    match g {
        Given::Usual => 0,
        Given::One(_) => 1,
        Given::Described(_) => 2,
        Given::Again => 3,
    }
}

/// What stands in the block for it.
pub open spec fn text(g: Given) -> Seq<u8> {
    match g {
        Given::One(b) => seq![b],
        Given::Described(d) => d,
        _ => Seq::empty(),
    }
}

/// Whether a table given so, with `tail` behind it, is `t`.
pub open spec fn gives(
    g: Given,
    tail: Seq<u8>,
    last: Option<fse::States>,
    usual: Seq<i32>,
    log: nat,
    most: nat,
    t: fse::States,
) -> bool {
    match g {
        Given::Usual => fse::built(usual, log) == Ok::<fse::States, Error>(t),
        Given::One(b) => t == fse::single_states(b),
        Given::Described(d) => fse::parsed(d + tail, 9, most) == Ok::<(fse::States, nat), Error>(
            (t, d.len()),
        ),
        Given::Again => last == Some(t),
    }
}

/// A table given in any way is the table used.
proof fn lemma_table(
    g: Given,
    front: Seq<u8>,
    tail: Seq<u8>,
    last: Option<fse::States>,
    usual: Seq<i32>,
    log: nat,
    most: nat,
    t: fse::States,
)
    requires
        gives(g, tail, last, usual, log, most, t),
    ensures
        sequences::table_at(
            mode(g) as nat,
            front + text(g) + tail,
            front.len(),
            last,
            usual,
            log,
            most,
        ) == Ok::<(fse::States, nat), Error>((t, front.len() + text(g).len())),
{
    let data = front + text(g) + tail;
    match g {
        Given::One(b) => {
            assert(data[front.len() as int] == b);
        },
        Given::Described(d) => {
            assert(data.skip(front.len() as int) =~= d + tail);
        },
        _ => {},
    }
}

/// The three ways of a block.
pub struct Ways {
    pub literal_length: Given,
    pub offset: Given,
    pub match_length: Given,
}

/// The three tables of a block.
pub struct Trio {
    pub literal_length: fse::States,
    pub offset: fse::States,
    pub match_length: fse::States,
}

/// What says which tables are used: a byte, six bits of it in use, and what
/// stands for each.
pub open spec fn ways_text(w: Ways) -> Seq<u8> {
    seq![
        (64 * mode(w.literal_length) + 16 * mode(w.offset) + 4 * mode(w.match_length)) as u8,
    ] + text(w.literal_length) + text(w.offset) + text(w.match_length)
}

/// Whether the ways of a block, with `tail` behind them, give these tables.
pub open spec fn ways_give(w: Ways, tail: Seq<u8>, last: Sent, t: Trio) -> bool {
    let m = text(w.match_length);
    let o = text(w.offset);
    &&& gives(
        w.literal_length,
        o + m + tail,
        last.literal_length,
        sequences::DEFAULT_LITERAL_LENGTH@,
        6,
        35,
        t.literal_length,
    )
    &&& gives(w.offset, m + tail, last.offset, sequences::DEFAULT_OFFSET@, 5, 31, t.offset)
    &&& gives(
        w.match_length,
        tail,
        last.match_length,
        sequences::DEFAULT_MATCH_LENGTH@,
        6,
        52,
        t.match_length,
    )
}

/// Tables that are kept.
pub open spec fn kept(t: Trio) -> Sent {
    Sent {
        literal_length: Some(t.literal_length),
        offset: Some(t.offset),
        match_length: Some(t.match_length),
    }
}

/// The tables of a block are those that it gives, and they are kept for the
/// blocks after it.
#[verifier::spinoff_prover]
#[verifier::rlimit(80)]
pub proof fn lemma_tables(front: Seq<u8>, w: Ways, tail: Seq<u8>, last: Sent, t: Trio)
    requires
        ways_give(w, tail, last, t),
    ensures
        sequences::tables_at(front + ways_text(w) + tail, front.len(), last) == Ok::<
            (Sent, nat),
            Error,
        >((kept(t), front.len() + ways_text(w).len())),
{
    let l = text(w.literal_length);
    let o = text(w.offset);
    let m = text(w.match_length);
    let first = ways_text(w)[0];
    let data = front + ways_text(w) + tail;
    let f1 = front.push(first);
    lemma_first(w);
    lemma_cut(front, ways_text(w), first, l, o, m, tail);
    lemma_table(
        w.literal_length,
        f1,
        o + m + tail,
        last.literal_length,
        sequences::DEFAULT_LITERAL_LENGTH@,
        6,
        35,
        t.literal_length,
    );
    lemma_table(
        w.offset,
        f1 + l,
        m + tail,
        last.offset,
        sequences::DEFAULT_OFFSET@,
        5,
        31,
        t.offset,
    );
    lemma_table(
        w.match_length,
        f1 + l + o,
        tail,
        last.match_length,
        sequences::DEFAULT_MATCH_LENGTH@,
        6,
        52,
        t.match_length,
    );
    lemma_three(
        data,
        front.len(),
        last,
        t,
        (f1 + l).len(),
        (f1 + l + o).len(),
        (f1 + l + o + m).len(),
    );
}

/// The byte that gives three ways.
proof fn lemma_first(w: Ways)
    ensures
        ({
            let b = ways_text(w)[0];
            &&& b / 64 == mode(w.literal_length)
            &&& b / 16 % 4 == mode(w.offset)
            &&& b / 4 % 4 == mode(w.match_length)
            &&& b % 4 == 0
            &&& ways_text(w) == seq![b] + text(w.literal_length) + text(w.offset) + text(
                w.match_length,
            )
        }),
{
    let a = mode(w.literal_length);
    let b = mode(w.offset);
    let c = mode(w.match_length);
    let x = (64 * a + 16 * b + 4 * c) as u8;
    assert(0 <= a <= 3 && 0 <= b <= 3 && 0 <= c <= 3);
    assert(x == 64 * a + 16 * b + 4 * c);
    assert(ways_text(w)[0] == x);
}

proof fn lemma_cut(
    front: Seq<u8>,
    t: Seq<u8>,
    first: u8,
    l: Seq<u8>,
    o: Seq<u8>,
    m: Seq<u8>,
    tail: Seq<u8>,
)
    requires
        t == seq![first] + l + o + m,
    ensures
        ({
            let data = front + t + tail;
            let f1 = front.push(first);
            &&& data[front.len() as int] == first
            &&& front.len() < data.len()
            &&& data == f1 + l + (o + m + tail)
            &&& data == f1 + l + o + (m + tail)
            &&& data == f1 + l + o + m + tail
            &&& (f1 + l + o + m).len() == front.len() + t.len()
        }),
{
    let data = front + t + tail;
    let f1 = front.push(first);
    assert(data =~= f1 + l + (o + m + tail));
    assert(data =~= f1 + l + o + (m + tail));
    assert(data =~= f1 + l + o + m + tail);
}

/// Three tables after one another.
proof fn lemma_three(data: Seq<u8>, at: nat, last: Sent, t: Trio, p: nat, q: nat, r: nat)
    requires
        at < data.len(),
        data[at as int] % 4 == 0,
        sequences::table_at(
            (data[at as int] / 64) as nat,
            data,
            at + 1,
            last.literal_length,
            sequences::DEFAULT_LITERAL_LENGTH@,
            6,
            35,
        ) == Ok::<(fse::States, nat), Error>((t.literal_length, p)),
        sequences::table_at(
            (data[at as int] / 16 % 4) as nat,
            data,
            p,
            last.offset,
            sequences::DEFAULT_OFFSET@,
            5,
            31,
        ) == Ok::<(fse::States, nat), Error>((t.offset, q)),
        sequences::table_at(
            (data[at as int] / 4 % 4) as nat,
            data,
            q,
            last.match_length,
            sequences::DEFAULT_MATCH_LENGTH@,
            6,
            52,
        ) == Ok::<(fse::States, nat), Error>((t.match_length, r)),
    ensures
        sequences::tables_at(data, at, last) == Ok::<(Sent, nat), Error>((kept(t), r)),
{
}

/// How many sequences there are, in one to three bytes.
pub open spec fn count_text(n: nat) -> Seq<u8> {
    if n < 128 {
        seq![n as u8]
    } else if n < 0x7F00 {
        seq![(128 + n / 256) as u8, (n % 256) as u8]
    } else {
        seq![255u8, ((n - 0x7F00) % 256) as u8, ((n - 0x7F00) / 256) as u8]
    }
}

proof fn lemma_count(n: nat, tail: Seq<u8>)
    requires
        n <= 0x7F00 + 0xffff,
    ensures
        sequences::counted(count_text(n) + tail) == Ok::<(nat, nat), Error>(
            (n, count_text(n).len()),
        ),
{
    let data = count_text(n) + tail;
    assert(data[0] == count_text(n)[0]);
    if n >= 128 {
        assert(data[1] == count_text(n)[1]);
        if n >= 0x7F00 {
            assert(data[2] == count_text(n)[2]);
        }
    }
}

/// What the sequences in `body` make of literals with these tables.
pub open spec fn played(
    n: nat,
    t: Trio,
    body: Seq<u8>,
    payload: nat,
    literals: Seq<u8>,
    window: nat,
    room: nat,
    d: Done,
) -> Result<(Seq<u8>, Seq<u32>), Error> {
    let s = Setting {
        data: body,
        literal_length: t.literal_length,
        offset: t.offset,
        match_length: t.match_length,
        literals,
        window,
        room,
    };
    sequences::run(s, sequences::start(s, payload, d.repeats, d.out), n)
}

/// A section of sequences: how many, the tables, and the bits.
pub open spec fn section(n: nat, w: Ways, body: Seq<u8>) -> Seq<u8> {
    count_text(n) + ways_text(w) + body
}

/// A section is played with the tables that it gives, whichever way it gives
/// them.
pub proof fn lemma_section(
    n: nat,
    w: Ways,
    body: Seq<u8>,
    t: Trio,
    payload: nat,
    literals: Seq<u8>,
    window: nat,
    room: nat,
    d: Done,
)
    requires
        1 <= n <= 0x7F00 + 0xffff,
        ways_give(w, body, d.sent, t),
        stream::payload(body) == Some(payload),
    ensures
        sequences::executed(section(n, w, body), literals, window, room, d) == match played(
            n,
            t,
            body,
            payload,
            literals,
            window,
            room,
            d,
        ) {
            Err(e) => Err(e),
            Ok((out, repeats)) => Ok(Done { out, sent: kept(t), repeats }),
        },
{
    let data = section(n, w, body);
    let c = count_text(n);
    assert(data =~= c + (ways_text(w) + body));
    lemma_count(n, ways_text(w) + body);
    lemma_tables(c, w, body, d.sent, t);
    assert(data.skip((c.len() + ways_text(w).len()) as int) =~= body);
}

/// Two blocks whose sections give the same tables, one of them by using those
/// of the block before again, add the same.
pub proof fn lemma_again(
    n: nat,
    v: Ways,
    w: Ways,
    body: Seq<u8>,
    t: Trio,
    payload: nat,
    literals: Seq<u8>,
    window: nat,
    room: nat,
    d: Done,
)
    requires
        1 <= n <= 0x7F00 + 0xffff,
        d.sent == kept(t),
        w.literal_length is Again || w.literal_length == v.literal_length,
        w.offset is Again || w.offset == v.offset,
        w.match_length is Again || w.match_length == v.match_length,
        ways_give(v, body, d.sent, t),
        ways_give(w, body, d.sent, t),
        stream::payload(body) == Some(payload),
    ensures
        sequences::executed(section(n, w, body), literals, window, room, d)
            == sequences::executed(section(n, v, body), literals, window, room, d),
{
    lemma_section(n, v, body, t, payload, literals, window, room, d);
    lemma_section(n, w, body, t, payload, literals, window, room, d);
}

/// A list with one of its three moved to the front.
pub open spec fn to_front(r: Seq<u32>, k: int) -> Seq<u32> {
    seq![r[k]] + r.remove(k)
}

/// The three distances used last can be named: by 1, 2 and 3 after literals;
/// without any before it the match cannot use the last one, so 1 and 2 name
/// the other two and 3 the last one less one. A distance that was used comes
/// to the front, and larger values are new distances, three more than them.
pub proof fn lemma_distances(raw: nat, literal_length: nat, r: Seq<u32>)
    requires
        r.len() == 3,
        1 <= raw,
        raw - 3 <= 0xffff_ffff,
    ensures
        raw > 3 ==> sequences::resolved(raw, literal_length, r) == Ok::<(nat, Seq<u32>), Error>(
            ((raw - 3) as nat, seq![(raw - 3) as u32, r[0], r[1]]),
        ),
        forall|k: int|
            0 <= k < 3 && raw == k + 1 && literal_length > 0 && r[k] > 0
                ==> sequences::resolved(raw, literal_length, r) == Ok::<(nat, Seq<u32>), Error>(
                (r[k] as nat, #[trigger] to_front(r, k)),
            ),
        forall|k: int|
            1 <= k < 3 && raw == k && literal_length == 0 && r[k] > 0
                ==> sequences::resolved(raw, literal_length, r) == Ok::<(nat, Seq<u32>), Error>(
                (r[k] as nat, #[trigger] to_front(r, k)),
            ),
        raw == 3 && literal_length == 0 && r[0] > 1 ==> sequences::resolved(
            raw,
            literal_length,
            r,
        ) == Ok::<(nat, Seq<u32>), Error>(
            ((r[0] - 1) as nat, seq![(r[0] - 1) as u32, r[0], r[1]]),
        ),
        raw == 3 && literal_length == 0 && r[0] <= 1 ==> sequences::resolved(
            raw,
            literal_length,
            r,
        ) is Err,
{
    assert(to_front(r, 0) =~= r);
    assert(to_front(r, 1) =~= seq![r[1], r[0], r[2]]);
    assert(to_front(r, 2) =~= seq![r[2], r[0], r[1]]);
}

/// How many bits follow a code for how many literals: none up to 15, then each
/// number of bits for a while.
pub open spec fn literal_bits(c: int) -> int {
    if c < 16 {
        0
    } else if c < 20 {
        1
    } else if c < 22 {
        2
    } else if c < 24 {
        3
    } else if c < 25 {
        4
    } else {
        c - 19
    }
}

/// How many bits follow a code for the length of a match.
pub open spec fn match_bits(c: int) -> int {
    if c < 32 {
        0
    } else if c < 36 {
        1
    } else if c < 38 {
        2
    } else if c < 40 {
        3
    } else if c < 42 {
        4
    } else if c < 43 {
        5
    } else {
        c - 36
    }
}

/// Lengths follow one another without a gap: each code starts where the one
/// before it ends. Numbers of literals start at 0, lengths of matches at 3.
#[verifier::spinoff_prover]
#[verifier::rlimit(60)]
pub proof fn lemma_lengths(c: int)
    ensures
        sequences::LITERAL_LENGTH_BASE@[0] == 0,
        sequences::MATCH_LENGTH_BASE@[0] == 3,
        0 <= c < 36 ==> sequences::LITERAL_LENGTH_EXTRA@[c] == literal_bits(c),
        0 <= c < 53 ==> sequences::MATCH_LENGTH_EXTRA@[c] == match_bits(c),
        0 <= c < 35 ==> sequences::LITERAL_LENGTH_BASE@[c + 1]
            == sequences::LITERAL_LENGTH_BASE@[c] + pow2(literal_bits(c) as nat),
        0 <= c < 52 ==> sequences::MATCH_LENGTH_BASE@[c + 1] == sequences::MATCH_LENGTH_BASE@[c]
            + pow2(match_bits(c) as nat),
{
    lemma2_to64();
}

/// The usual tables: how many states each code has. A count of minus one is a
/// single state for a code that hardly occurs.
pub proof fn lemma_usual_literal_lengths(c: int)
    requires
        0 <= c < 36,
    ensures
        sequences::DEFAULT_LITERAL_LENGTH@[c] == if c == 0 {
            4int
        } else if c == 1 || c == 25 {
            3
        } else if 13 <= c <= 15 || 27 <= c <= 31 {
            1
        } else if c >= 32 {
            -1
        } else {
            2
        },
{
}

/// The same for the lengths of matches.
pub proof fn lemma_usual_match_lengths(c: int)
    requires
        0 <= c < 53,
    ensures
        sequences::DEFAULT_MATCH_LENGTH@[c] == if c == 1 {
            4int
        } else if c == 2 {
            3
        } else if 3 <= c <= 8 {
            2
        } else if c >= 46 {
            -1
        } else {
            1
        },
{
}

/// The same for distances.
pub proof fn lemma_usual_distances(c: int)
    requires
        0 <= c < 29,
    ensures
        sequences::DEFAULT_OFFSET@[c] == if 6 <= c <= 8 {
            2int
        } else if c >= 24 {
            -1
        } else {
            1
        },
{
}

/// How a block gives its literals.
pub enum Literals {
    /// As they are.
    Plain(Seq<u8>),
    /// One byte, and how often.
    Repeated(u8, nat),
    /// Coded: the description of a code, how many there are, and their bits.
    Coded(Seq<u8>, nat, Seq<u8>),
    /// Coded with the code used last.
    CodedAgain(nat, Seq<u8>),
}

/// The head of plain or repeated literals: a kind in two bits, a form in one
/// or two, and the size in what is left of one, two or three bytes.
pub open spec fn plain_head(kind: int, form: int, n: nat) -> Seq<u8> {
    if form == 0 {
        seq![(kind + 8 * n) as u8]
    } else if form == 1 {
        bytes::le_bytes((kind + 4 + 16 * n) as nat, 2)
    } else {
        bytes::le_bytes((kind + 12 + 16 * n) as nat, 3)
    }
}

/// Whether a size has room in a form.
pub open spec fn plain_fits(form: int, n: nat) -> bool {
    ||| form == 0 && n < 32
    ||| form == 1 && n < 4096
    ||| form == 2 && n < 0x10_0000
}

/// How wide each of the two sizes of coded literals is.
pub open spec fn coded_width(form: int) -> nat {
    if form <= 1 {
        10
    } else if form == 2 {
        14
    } else {
        18
    }
}

/// The head of coded literals: a kind and a form in two bits each, how many
/// literals, and how many bytes for them.
pub open spec fn coded_head(kind: int, form: int, n: nat, size: nat) -> Seq<u8> {
    bytes::le_bytes(
        (kind + 4 * form + 16 * n + 16 * pow2(coded_width(form)) * size) as nat,
        (1 + coded_width(form) / 4) as nat,
    )
}

proof fn lemma_le(head: Seq<u8>, v: nat, n: nat, tail: Seq<u8>)
    requires
        head == bytes::le_bytes(v, n),
        v < bytes::span(n),
    ensures
        head.len() == n,
        bytes::le(head + tail, 0, n) == v,
{
    bytes::lemma_le_bytes_len(v, n);
    assert((head + tail).subrange(0, n as int) =~= head);
    bytes::lemma_le_round_trip(head + tail, 0, v, n);
}

/// What a head of plain literals is read as.
#[verifier::spinoff_prover]
#[verifier::rlimit(40)]
proof fn lemma_plain_head(kind: int, form: int, n: nat, tail: Seq<u8>)
    requires
        kind == 0 || kind == 1,
        plain_fits(form, n),
    ensures
        ({
            let h = plain_head(kind, form, n);
            let data = h + tail;
            &&& h.len() == form + 1
            &&& data[0] % 4 == kind
            &&& layout::plain_size(data) == Ok::<(nat, nat), Error>((n, h.len()))
        }),
{
    let h = plain_head(kind, form, n);
    let data = h + tail;
    reveal_with_fuel(bytes::span, 4);
    reveal_with_fuel(bytes::le, 4);
    if form == 0 {
        assert(data[0] == h[0]);
        let x = (kind + 8 * n) as u8;
        assert(x == kind + 8 * n);
        assert(x % 4 == kind && x / 4 % 4 == 2 * (n % 2) && x / 8 == n);
    } else if form == 1 {
        let v = (kind + 4 + 16 * n) as nat;
        lemma_le(h, v, 2, tail);
        assert(bytes::le(data, 0, 2) == data[0] + 256 * data[1]);
        assert(data[0] % 4 == kind && data[0] / 4 % 4 == 1);
    } else {
        let v = (kind + 12 + 16 * n) as nat;
        lemma_le(h, v, 3, tail);
        assert(bytes::le(data, 0, 3) == data[0] + 256 * (data[1] + 256 * data[2]));
        assert(data[0] % 4 == kind && data[0] / 4 % 4 == 3);
    }
}

/// Plain literals are their bytes, in each form; the code used last is kept.
pub proof fn lemma_plain(form: int, b: Seq<u8>, tail: Seq<u8>, last: Option<huffman::Code>)
    requires
        plain_fits(form, b.len()),
    ensures
        layout::literals(plain_head(0, form, b.len()) + b + tail, last) == Ok::<
            (Seq<u8>, nat, Option<huffman::Code>),
            Error,
        >((b, plain_head(0, form, b.len()).len() + b.len(), last)),
{
    reveal(layout::literals);
    let h = plain_head(0, form, b.len());
    let data = h + b + tail;
    assert(data =~= h + (b + tail));
    lemma_plain_head(0, form, b.len(), b + tail);
    assert(data.subrange(h.len() as int, (h.len() + b.len()) as int) =~= b);
}

/// Repeated literals are one byte, that often.
pub proof fn lemma_repeated(form: int, b: u8, n: nat, tail: Seq<u8>, last: Option<huffman::Code>)
    requires
        plain_fits(form, n),
    ensures
        layout::literals(plain_head(1, form, n).push(b) + tail, last) == Ok::<
            (Seq<u8>, nat, Option<huffman::Code>),
            Error,
        >((Seq::new(n, |i: int| b), plain_head(1, form, n).len() + 1, last)),
{
    reveal(layout::literals);
    let h = plain_head(1, form, n);
    let data = h.push(b) + tail;
    assert(data =~= h + (seq![b] + tail));
    lemma_plain_head(1, form, n, seq![b] + tail);
    assert(data[h.len() as int] == b);
    assert(Seq::new(n, |i: int| data[h.len() as int]) =~= Seq::new(n, |i: int| b));
}

/// What a head of coded literals is read as.
#[verifier::spinoff_prover]
#[verifier::rlimit(60)]
proof fn lemma_coded_head(kind: int, form: int, n: nat, size: nat, tail: Seq<u8>)
    requires
        kind == 2 || kind == 3,
        0 <= form <= 3,
        n < pow2(coded_width(form)),
        size < pow2(coded_width(form)),
    ensures
        ({
            let h = coded_head(kind, form, n, size);
            let data = h + tail;
            &&& h.len() == layout::sizes_len(form as nat)
            &&& data[0] % 4 == kind
            &&& data[0] / 4 % 4 == form
            &&& layout::coded_sizes(data) == Ok::<(nat, nat), Error>((n, size))
        }),
{
    let w = coded_width(form);
    let p = pow2(w);
    assert(pow2(10) == 1024 && pow2(14) == 16384 && pow2(18) == 0x4_0000) by {
        lemma2_to64();
    }
    if form <= 1 {
        lemma_coded_value(kind, form, n, size, 1024, 3, tail);
    } else if form == 2 {
        lemma_coded_value(kind, form, n, size, 16384, 4, tail);
    } else {
        lemma_coded_value(kind, form, n, size, 0x4_0000, 5, tail);
    }
}

#[verifier::spinoff_prover]
#[verifier::rlimit(60)]
proof fn lemma_coded_value(
    kind: int,
    form: int,
    n: nat,
    size: nat,
    p: nat,
    k: nat,
    tail: Seq<u8>,
)
    requires
        0 <= kind <= 3,
        0 <= form <= 3,
        p == 1024 && k == 3 || p == 16384 && k == 4 || p == 0x4_0000 && k == 5,
        n < p,
        size < p,
    ensures
        ({
            let v = (kind + 4 * form + 16 * n + 16 * p * size) as nat;
            let data = bytes::le_bytes(v, k) + tail;
            &&& bytes::le_bytes(v, k).len() == k
            &&& data[0] % 4 == kind
            &&& data[0] / 4 % 4 == form
            &&& bytes::le(data, 0, k) / 16 % p == n
            &&& bytes::le(data, 0, k) / (16 * p) % p == size
        }),
{
    let v = (kind + 4 * form + 16 * n + 16 * p * size) as nat;
    let h = bytes::le_bytes(v, k);
    let data = h + tail;
    let c = kind + 4 * form;
    assert(p == 1024 ==> 16 * p * size == 16384 * size) by (nonlinear_arith);
    assert(p == 16384 ==> 16 * p * size == 0x4_0000 * size) by (nonlinear_arith);
    assert(p == 0x4_0000 ==> 16 * p * size == 0x40_0000 * size) by (nonlinear_arith);
    reveal_with_fuel(bytes::span, 6);
    if p == 1024 {
        assert(v == c + 16 * n + 16384 * size);
        assert(v / 16 == n + 1024 * size);
        assert(v / 16 % 1024 == n);
        assert(v / 16384 == size);
    } else if p == 16384 {
        assert(v == c + 16 * n + 0x4_0000 * size);
        assert(v / 16 == n + 16384 * size);
        assert(v / 16 % 16384 == n);
        assert(v / 0x4_0000 == size);
    } else {
        assert(v == c + 16 * n + 0x40_0000 * size);
        assert(v / 16 == n + 0x4_0000 * size);
        assert(v / 16 % 0x4_0000 == n);
        assert(v / 0x40_0000 == size);
    }
    lemma_le(h, v, k, tail);
    let rest = bytes::le(data, 1, (k - 1) as nat);
    assert(bytes::le(data, 0, k) == data[0] + 256 * rest);
    assert(v % 16 == c);
    assert(data[0] % 16 == c);
}

/// The streams of coded literals: one in the first form, else four.
pub open spec fn unpacked(form: int, payload: Seq<u8>, c: huffman::Code, n: nat) -> Result<
    Seq<u8>,
    Error,
> {
    if form == 0 {
        layout::literal_stream(payload, c, n)
    } else {
        layout::four_streams(payload, c, n)
    }
}

/// Coded literals are what their streams hold in the code described before
/// them, and the code is kept.
pub proof fn lemma_coded(
    form: int,
    n: nat,
    described: Seq<u8>,
    payload: Seq<u8>,
    tail: Seq<u8>,
    c: huffman::Code,
    out: Seq<u8>,
    last: Option<huffman::Code>,
)
    requires
        0 <= form <= 3,
        n < pow2(coded_width(form)),
        described.len() + payload.len() < pow2(coded_width(form)),
        huffman::parsed(described + payload) == Ok::<(huffman::Code, nat), Error>(
            (c, described.len()),
        ),
        unpacked(form, payload, c, n) == Ok::<Seq<u8>, Error>(out),
    ensures
        ({
            let h = coded_head(2, form, n, described.len() + payload.len());
            layout::literals(h + described + payload + tail, last) == Ok::<
                (Seq<u8>, nat, Option<huffman::Code>),
                Error,
            >((out, h.len() + described.len() + payload.len(), Some(c)))
        }),
{
    reveal(layout::literals);
    let size = described.len() + payload.len();
    let h = coded_head(2, form, n, size);
    let data = h + described + payload + tail;
    let both = described + payload;
    assert(data =~= h + (both + tail));
    lemma_coded_head(2, form, n, size, both + tail);
    assert(data.subrange(h.len() as int, (h.len() + size) as int) =~= both);
    assert(both.skip(described.len() as int) =~= payload);
}

/// Literals coded with the code used last are what their streams hold in it.
pub proof fn lemma_coded_again(
    form: int,
    n: nat,
    payload: Seq<u8>,
    tail: Seq<u8>,
    c: huffman::Code,
    out: Seq<u8>,
)
    requires
        0 <= form <= 3,
        n < pow2(coded_width(form)),
        payload.len() < pow2(coded_width(form)),
        unpacked(form, payload, c, n) == Ok::<Seq<u8>, Error>(out),
    ensures
        ({
            let h = coded_head(3, form, n, payload.len());
            layout::literals(h + payload + tail, Some(c)) == Ok::<
                (Seq<u8>, nat, Option<huffman::Code>),
                Error,
            >((out, h.len() + payload.len(), Some(c)))
        }),
{
    reveal(layout::literals);
    let size = payload.len();
    let h = coded_head(3, form, n, size);
    let data = h + payload + tail;
    assert(data =~= h + (payload + tail));
    lemma_coded_head(3, form, n, size, payload + tail);
    assert(data.subrange(h.len() as int, (h.len() + size) as int) =~= payload);
    assert(payload.skip(0) =~= payload);
}

/// The head of a block: whether it is the last, its kind, and a size.
pub open spec fn block_head(last: bool, kind: int, size: nat) -> Seq<u8> {
    bytes::le_bytes(
        (8 * size + 2 * kind + if last {
            1int
        } else {
            0
        }) as nat,
        3,
    )
}

#[verifier::spinoff_prover]
proof fn lemma_block_head(front: Seq<u8>, last: bool, kind: int, size: nat, tail: Seq<u8>)
    requires
        0 <= kind <= 3,
        size < 0x20_0000,
    ensures
        ({
            let data = front + block_head(last, kind, size) + tail;
            let v = bytes::le(data, front.len() as int, 3);
            &&& block_head(last, kind, size).len() == 3
            &&& (v % 2 == 1) == last
            &&& v / 2 % 4 == kind
            &&& v / 8 == size
        }),
{
    let h = block_head(last, kind, size);
    let data = front + h + tail;
    let v = (8 * size + 2 * kind + if last {
        1int
    } else {
        0
    }) as nat;
    reveal_with_fuel(bytes::span, 4);
    bytes::lemma_le_bytes_len(v, 3);
    assert(data.subrange(front.len() as int, (front.len() + 3) as int) =~= h);
    bytes::lemma_le_round_trip(data, front.len() as int, v, 3);
}

/// A block of bytes as they are adds them.
pub proof fn lemma_raw_block(
    front: Seq<u8>,
    last: bool,
    b: Seq<u8>,
    tail: Seq<u8>,
    f: Frame,
    room: nat,
)
    requires
        b.len() <= 0x2_0000,
        f.done.out.len() + b.len() <= room,
    ensures
        layout::block(front + block_head(last, 0, b.len()) + (b + tail), front.len(), f, room)
            == Ok::<(Frame, nat, bool), Error>(
            (
                Frame { done: Done { out: f.done.out + b, ..f.done }, ..f },
                front.len() + 3 + b.len(),
                last,
            ),
        ),
{
    reveal(layout::block);
    let h = block_head(last, 0, b.len());
    let data = front + h + (b + tail);
    lemma_block_head(front, last, 0, b.len(), b + tail);
    let q = front.len() + 3;
    assert(data.subrange(q as int, (q + b.len()) as int) =~= b);
}

/// A block of one byte adds it as often as it says.
pub proof fn lemma_run_block(
    front: Seq<u8>,
    last: bool,
    b: u8,
    n: nat,
    tail: Seq<u8>,
    f: Frame,
    room: nat,
)
    requires
        n < 0x20_0000,
        f.done.out.len() + n <= room,
    ensures
        layout::block(front + block_head(last, 1, n) + (seq![b] + tail), front.len(), f, room)
            == Ok::<(Frame, nat, bool), Error>(
            (
                Frame { done: Done { out: f.done.out + Seq::new(n, |i: int| b), ..f.done }, ..f },
                front.len() + 4,
                last,
            ),
        ),
{
    reveal(layout::block);
    let h = block_head(last, 1, n);
    let data = front + h + (seq![b] + tail);
    lemma_block_head(front, last, 1, n, seq![b] + tail);
    let q = front.len() + 3;
    let body = data.subrange(q as int, (q + 1) as int);
    assert(body[0] == b);
    assert(Seq::new(n, |i: int| body[0]) =~= Seq::new(n, |i: int| b));
}

/// A compressed block adds what its sequences make of its literals, and keeps
/// the code and the tables that it used.
pub proof fn lemma_packed_block(
    front: Seq<u8>,
    last: bool,
    lits: Seq<u8>,
    seqs: Seq<u8>,
    tail: Seq<u8>,
    f: Frame,
    room: nat,
    out: Seq<u8>,
    code: Option<huffman::Code>,
    done: Done,
)
    requires
        lits.len() + seqs.len() <= 0x2_0000,
        layout::literals(lits + seqs, f.literals) == Ok::<
            (Seq<u8>, nat, Option<huffman::Code>),
            Error,
        >((out, lits.len(), code)),
        sequences::executed(seqs, out, f.header.window, room, f.done) == Ok::<Done, Error>(done),
    ensures
        layout::block(
            front + block_head(last, 2, lits.len() + seqs.len()) + (lits + seqs + tail),
            front.len(),
            f,
            room,
        ) == Ok::<(Frame, nat, bool), Error>(
            (
                Frame { literals: code, done, ..f },
                front.len() + 3 + lits.len() + seqs.len(),
                last,
            ),
        ),
{
    reveal(layout::block);
    let n = lits.len() + seqs.len();
    let h = block_head(last, 2, n);
    let data = front + h + (lits + seqs + tail);
    lemma_block_head(front, last, 2, n, lits + seqs + tail);
    let q = front.len() + 3;
    assert(data.subrange(q as int, (q + n) as int) =~= lits + seqs);
    assert((lits + seqs).skip(lits.len() as int) =~= seqs);
}

/// The head of a frame: a descriptor, a window unless the frame is one
/// segment, and the size of the content in as many bytes as the descriptor
/// says. Two bytes count from 256.
pub open spec fn frame_head(
    single: bool,
    checksum: bool,
    form: int,
    window: u8,
    content: nat,
) -> Seq<u8> {
    let descriptor = seq![
        (64 * form + (if single {
            32int
        } else {
            0
        }) + if checksum {
            4int
        } else {
            0
        }) as u8,
    ];
    let size = if form == 0 {
        if single {
            bytes::le_bytes(content, 1)
        } else {
            Seq::empty()
        }
    } else if form == 1 {
        bytes::le_bytes((content - 256) as nat, 2)
    } else if form == 2 {
        bytes::le_bytes(content, 4)
    } else {
        bytes::le_bytes(content, 8)
    };
    if single {
        descriptor + size
    } else {
        descriptor.push(window) + size
    }
}

/// Whether a size has room in a form.
pub open spec fn content_fits(single: bool, form: int, content: nat) -> bool {
    ||| form == 0 && (single ==> content < 256)
    ||| form == 1 && 256 <= content < 0x1_0100
    ||| form == 2 && content < 0x1_0000_0000
    ||| form == 3 && content < 0x1_0000_0000_0000_0000
}

/// The window that a byte stands for: a power of two from 1 KiB on, and up to
/// seven eighths of it.
pub open spec fn window_for(b: u8) -> nat {
    let base = pow2((10 + b / 8) as nat);
    base + base / 8 * (b % 8) as nat
}

/// What a head of a frame says.
#[verifier::spinoff_prover]
#[verifier::rlimit(60)]
pub proof fn lemma_frame_head(
    single: bool,
    checksum: bool,
    form: int,
    window: u8,
    content: nat,
)
    requires
        0 <= form <= 3,
        content_fits(single, form, content),
        single ==> content <= 0x8000_0000,
        !single ==> window_for(window) <= 0x8000_0000,
    ensures
        ({
            let h = frame_head(single, checksum, form, window, content);
            &&& layout::header_len(h[0]) == h.len()
            &&& layout::header(h) == Ok::<Header, Error>(
                Header {
                    window: if single {
                        content
                    } else {
                        window_for(window)
                    },
                    content: if form == 0 && !single {
                        None
                    } else {
                        Some(content)
                    },
                    checksum,
                },
            )
        }),
{
    let h = frame_head(single, checksum, form, window, content);
    let s: int = if single {
        32
    } else {
        0
    };
    let c: int = if checksum {
        4
    } else {
        0
    };
    let d = (64 * form + s + c) as u8;
    assert(h[0] == d);
    assert(d / 64 == form && (d / 32 % 2 == 1) == single && d / 8 % 2 == 0 && (d / 4 % 2 == 1)
        == checksum && d % 4 == 0);
    let at: int = if single {
        1
    } else {
        2
    };
    let n = layout::content_bytes(d);
    let v = if form == 1 {
        (content - 256) as nat
    } else {
        content
    };
    reveal_with_fuel(bytes::span, 9);
    if n > 0 {
        bytes::lemma_le_bytes_len(v, n);
        assert(h.subrange(at, at + n) =~= bytes::le_bytes(v, n));
        bytes::lemma_le_round_trip(h, at, v, n);
    }
    if !single {
        assert(h[1] == window);
    }
}

} // verus!
