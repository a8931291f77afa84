//! x86 code taken apart into four streams.
//!
//! The targets of calls and jumps go into streams of their own, absolute and
//! the most significant byte first, and a range coded stream says which were
//! taken out.
use crate::codecs::bcj::bcj2;
use crate::codecs::bcj::bcj2::{Mixed, Streams};
use crate::codecs::bcj::words;
use crate::codecs::lzma::range;
use crate::codecs::lzma::range::Dec;
use crate::codecs::lzma::range_encoder;
use crate::codecs::lzma::range_encoder::{Enc, Put};
use crate::utils::bytes;
use vstd::prelude::*;

verus! {

/// Code that was taken apart up to a place.
pub struct Apart {
    pub at: int,
    pub main: Seq<u8>,
    pub call: Seq<u8>,
    pub jump: Seq<u8>,
    pub put: Put,
}

/// The byte before a place; before the first there is a zero.
pub open spec fn before(code: Seq<u8>, at: int) -> u8 {
    if at > 0 {
        code[at - 1]
    } else {
        0
    }
}

/// Whether an opcode ends here that has a target after it: `CALL`, `JMP`, or
/// one of the sixteen conditional jumps, which are two bytes long.
pub open spec fn opens(code: Seq<u8>, at: int) -> bool {
    ||| code[at] == 0xE8
    ||| code[at] == 0xE9
    ||| before(code, at) == 0x0F && 0x80 <= code[at] <= 0x8F
}

/// Which probability a mark is coded with: one for each byte before a call,
/// one for jumps, one for conditional jumps.
pub open spec fn mark_slot(code: Seq<u8>, at: int) -> int {
    if code[at] == 0xE8 {
        before(code, at) as int
    } else if code[at] == 0xE9 {
        256
    } else {
        257
    }
}

/// Four bytes as a number, the least significant first.
pub open spec fn little(code: Seq<u8>, at: int) -> int {
    code[at] + 0x100 * code[at + 1] + 0x1_0000 * code[at + 2] + 0x100_0000 * code[at + 3]
}

/// A number in four bytes, the most significant first.
pub open spec fn big(v: int) -> Seq<u8> {
    seq![
        (v / 0x100_0000 % 256) as u8,
        (v / 0x1_0000 % 256) as u8,
        (v / 0x100 % 256) as u8,
        (v % 256) as u8,
    ]
}

/// Where the opcode at `at` leads: its displacement counts from the byte
/// after it.
pub open spec fn leads_to(code: Seq<u8>, at: int) -> int {
    (at + 5 + little(code, at + 1)) % 0x1_0000_0000
}

/// The next byte goes into the main stream, and its target, if it is taken,
/// into one of the others.
pub open spec fn part(code: Seq<u8>, taken: spec_fn(int) -> bool, s: Apart) -> Apart {
    let main = s.main.push(code[s.at]);
    if !opens(code, s.at) {
        Apart { at: s.at + 1, main, ..s }
    } else {
        let take = taken(s.at) && s.at + 5 <= code.len();
        let put = range_encoder::put_slot(
            s.put,
            mark_slot(code, s.at),
            if take {
                1
            } else {
                0
            },
        );
        if !take {
            Apart { at: s.at + 1, main, put, ..s }
        } else if code[s.at] == 0xE8 {
            Apart { at: s.at + 5, main, call: s.call + big(leads_to(code, s.at)), put, ..s }
        } else {
            Apart { at: s.at + 5, main, jump: s.jump + big(leads_to(code, s.at)), put, ..s }
        }
    }
}

/// The rest of the code.
pub open spec fn apart(code: Seq<u8>, taken: spec_fn(int) -> bool, s: Apart) -> Apart
    decreases code.len() - s.at,
{
    if s.at >= code.len() {
        s
    } else {
        apart(code, taken, part(code, taken, s))
    }
}

/// Nothing taken apart yet.
pub open spec fn whole() -> Apart {
    Apart {
        at: 0,
        main: Seq::empty(),
        call: Seq::empty(),
        jump: Seq::empty(),
        put: Put {
            enc: Enc { n: 1, low: 0, range: 0xffff_ffff },
            probs: Seq::new(258, |i: int| 1024u16),
        },
    }
}

/// The four streams for code, of which the targets that `taken` says are
/// taken out, where there are four bytes for one.
pub open spec fn streams_of(code: Seq<u8>, taken: spec_fn(int) -> bool) -> Streams {
    let s = apart(code, taken, whole());
    Streams { main: s.main, call: s.call, jump: s.jump, range: range_encoder::flushed(s.put.enc) }
}

/// The encoder and its probabilities are in order.
spec fn sound(s: Apart) -> bool {
    &&& 0 <= s.at
    &&& 1 <= s.put.enc.n
    &&& 0 <= s.put.enc.low
    &&& 0x100_0000 <= s.put.enc.range < 0x1_0000_0000
    &&& s.put.enc.low + s.put.enc.range <= bytes::span((s.put.enc.n + 3) as nat)
    &&& s.put.probs.len() == 258
    &&& range::probs_ok(s.put.probs)
}

/// Where the converter stands once it has put that much together.
spec fn met(code: Seq<u8>, range: Seq<u8>, s: Apart) -> Mixed {
    Mixed {
        main: s.main.len() as int,
        call: s.call.len() as int,
        jump: s.jump.len() as int,
        dec: Dec { coder: range_encoder::coder_for(range, s.put.enc), probs: s.put.probs },
        previous: before(code, s.at),
        out: code.take(s.at),
    }
}

/// Which bytes the two masks of the converter let through.
proof fn lemma_opcodes(b: u8)
    ensures
        b & 0xFE == 0xE8 <==> b == 0xE8 || b == 0xE9,
        b & 0xF0 == 0x80 <==> 0x80 <= b <= 0x8F,
{
    assert((b & 0xFE == 0xE8 <==> b == 0xE8 || b == 0xE9) && (b & 0xF0 == 0x80 <==> 0x80 <= b
        && b <= 0x8F)) by (bit_vector);
}

/// Words as numbers.
proof fn lemma_word(b0: u8, b1: u8, b2: u8, b3: u8)
    ensures
        words::le_word(b0, b1, b2, b3) == b0 + 0x100 * b1 + 0x1_0000 * b2 + 0x100_0000 * b3,
{
    assert(((b0 as u32) | ((b1 as u32) << 8u32) | ((b2 as u32) << 16u32) | ((b3 as u32) << 24u32))
        == b0 + 0x100 * b1 + 0x1_0000 * b2 + 0x100_0000 * b3) by (bit_vector);
}

/// A target moved down by what it was moved up by.
proof fn lemma_moved(v: u32, here: u32)
    ensures
        words::shifted(
            false,
            ((here + 4 + v) % 0x1_0000_0000) as u32,
            words::shifted(true, here, 4),
        ) == v,
{
    let t = ((here + 4 + v) % 0x1_0000_0000) as u32;
    assert((here + 4 + v) % 0x1_0000_0000 == t);
    assert(t == (here + 4 + v) % 0x1_0000_0000 ==> (t + (0x1_0000_0000 - (here + 4u32) as u32))
        as u32 == v) by (bit_vector);
}

/// A bit keeps the encoder in order.
proof fn lemma_sound_put(s: Apart, slot: int, bit: int)
    requires
        sound(s),
        0 <= slot < 258,
        bit == 0 || bit == 1,
    ensures
        sound(Apart { put: range_encoder::put_slot(s.put, slot, bit), ..s }),
{
    let e = s.put.enc;
    let p = s.put.probs[slot];
    let n = (e.n + 3) as nat;
    assert(range::prob_ok(p));
    let q = e.range / 2048;
    assert(8192 * 31 <= q * p && q * p <= q * 2017) by (nonlinear_arith)
        requires
            8192 <= q,
            31 <= p <= 2017,
    ;
    assert(e.range >= 2048 * q);
    assert(bytes::span(n + 1) == 256 * bytes::span(n));
    let f = range_encoder::after_bit(e, p, bit);
    assert(0x100_0000 <= f.range < 0x1_0000_0000);
    assert(f.low + f.range <= bytes::span((f.n + 3) as nat));
    assert(range::prob_ok(range::adapted(p, bit)));
    let ps = range_encoder::put_slot(s.put, slot, bit).probs;
    assert forall|i: int| 0 <= i < ps.len() implies range::prob_ok(#[trigger] ps[i]) by {
        if i != slot {
            assert(ps[i] == s.put.probs[i]);
        }
    }
}

/// A step keeps the encoder in order and what was written.
proof fn lemma_part(code: Seq<u8>, taken: spec_fn(int) -> bool, s: Apart)
    requires
        sound(s),
        s.at < code.len(),
    ensures
        ({
            let t = part(code, taken, s);
            &&& sound(t)
            &&& s.at < t.at <= code.len()
            &&& t.main == s.main.push(code[s.at])
            &&& s.call.is_prefix_of(t.call)
            &&& s.jump.is_prefix_of(t.jump)
        }),
{
    if opens(code, s.at) {
        lemma_sound_put(s, mark_slot(code, s.at), 0);
        lemma_sound_put(s, mark_slot(code, s.at), 1);
    }
    let t = part(code, taken, s);
    assert(t.call.take(s.call.len() as int) =~= s.call);
    assert(t.jump.take(s.jump.len() as int) =~= s.jump);
}

/// What was written stays where it is.
proof fn lemma_apart(code: Seq<u8>, taken: spec_fn(int) -> bool, s: Apart)
    requires
        sound(s),
        s.at <= code.len(),
    ensures
        ({
            let t = apart(code, taken, s);
            &&& sound(t)
            &&& t.at == code.len()
            &&& s.main.is_prefix_of(t.main)
            &&& s.call.is_prefix_of(t.call)
            &&& s.jump.is_prefix_of(t.jump)
        }),
    decreases code.len() - s.at,
{
    if s.at < code.len() {
        let m = part(code, taken, s);
        lemma_part(code, taken, s);
        lemma_apart(code, taken, m);
        let t = apart(code, taken, m);
        assert(m.main.take(s.main.len() as int) =~= s.main);
        lemma_prefixes(s.main, m.main, t.main);
        lemma_prefixes(s.call, m.call, t.call);
        lemma_prefixes(s.jump, m.jump, t.jump);
    } else {
        assert(s.main.take(s.main.len() as int) =~= s.main);
        assert(s.call.take(s.call.len() as int) =~= s.call);
        assert(s.jump.take(s.jump.len() as int) =~= s.jump);
    }
}

proof fn lemma_prefixes(a: Seq<u8>, b: Seq<u8>, c: Seq<u8>)
    requires
        a.is_prefix_of(b),
        b.is_prefix_of(c),
    ensures
        a.is_prefix_of(c),
{
    assert(c.take(a.len() as int) =~= c.take(b.len() as int).take(a.len() as int));
}

/// A number is the sum of its digits.
proof fn lemma_digits(x: int)
    requires
        0 <= x < 0x1_0000_0000,
    ensures
        ({
            let four = big(x);
            four.len() == 4 && four[3] + 0x100 * four[2] + 0x1_0000 * four[1] + 0x100_0000
                * four[0] == x
        }),
{
    let a = x / 0x100;
    let b = x / 0x1_0000;
    let c = x / 0x100_0000;
    assert(b == a / 256 && c == b / 256 && 0 <= c < 256);
    assert(x == 256 * a + x % 256);
    assert(a == 256 * b + a % 256);
    assert(b == 256 * c + b % 256);
}

/// A target as it is stored, and as it was in the code.
#[verifier::spinoff_prover]
proof fn lemma_target(code: Seq<u8>, at: int)
    requires
        0 <= at,
        at + 5 <= code.len(),
    ensures
        ({
            let four = big(leads_to(code, at));
            let here = ((at + 1) % 0x1_0000_0000) as u32;
            let v = words::shifted(
                false,
                words::be_word(four[0], four[1], four[2], four[3]),
                words::shifted(true, here, 4),
            );
            &&& words::le_split(v) == code.subrange(at + 1, at + 5)
            &&& (v >> 24u32) as u8 == code[at + 4]
        }),
{
    let v = words::le_word(code[at + 1], code[at + 2], code[at + 3], code[at + 4]);
    lemma_word(code[at + 1], code[at + 2], code[at + 3], code[at + 4]);
    words::lemma_word_split(code[at + 1], code[at + 2], code[at + 3], code[at + 4]);
    assert(v == little(code, at + 1));
    let here = ((at + 1) % 0x1_0000_0000) as u32;
    let x = leads_to(code, at);
    assert(x == (here + 4 + v) % 0x1_0000_0000) by {
        let w = (at + 1) / 0x1_0000_0000;
        assert(at + 1 == 0x1_0000_0000 * w + here);
        assert(at + 5 + v == 0x1_0000_0000 * w + (here + 4 + v));
    }
    lemma_moved(v, here);
    let four = big(x);
    lemma_digits(x);
    lemma_word(four[3], four[2], four[1], four[0]);
    assert(words::be_word(four[0], four[1], four[2], four[3]) == x as u32);
    assert(words::le_split(v) =~= code.subrange(at + 1, at + 5));
    assert(words::le_split(v)[3] == (v >> 24u32) as u8);
}

/// The mark reads back.
proof fn lemma_mark(s: Apart, range: Seq<u8>, slot: int, bit: int)
    requires
        sound(s),
        0 <= slot < 258,
        bit == 0 || bit == 1,
        range_encoder::accepts(range, range_encoder::put_slot(s.put, slot, bit).enc),
    ensures
        range_encoder::accepts(range, s.put.enc),
        range::slot_read(
            range,
            Dec { coder: range_encoder::coder_for(range, s.put.enc), probs: s.put.probs },
            slot,
        ) == (
            bit,
            Dec {
                coder: range_encoder::coder_for(
                    range,
                    range_encoder::put_slot(s.put, slot, bit).enc,
                ),
                probs: range_encoder::put_slot(s.put, slot, bit).probs,
            },
        ),
{
    assert(range::prob_ok(s.put.probs[slot]));
    range_encoder::lemma_bit_back(range, s.put.enc, s.put.probs[slot], bit);
}

/// What was taken out goes back where it was.
#[verifier::spinoff_prover]
#[verifier::rlimit(60)]
proof fn lemma_step(code: Seq<u8>, taken: spec_fn(int) -> bool, s: Apart, z: Streams)
    requires
        sound(s),
        s.at < code.len(),
        ({
            let t = part(code, taken, s);
            &&& t.main.is_prefix_of(z.main)
            &&& t.call.is_prefix_of(z.call)
            &&& t.jump.is_prefix_of(z.jump)
            &&& range_encoder::accepts(z.range, t.put.enc)
        }),
    ensures
        range_encoder::accepts(z.range, s.put.enc),
        bcj2::step(z, met(code, z.range, s)) == Some(
            met(code, z.range, part(code, taken, s)),
        ),
{
    let t = part(code, taken, s);
    let b = code[s.at];
    let m = met(code, z.range, s);
    lemma_opcodes(b);
    assert(t.main[s.main.len() as int] == z.main[s.main.len() as int]);
    assert(z.main[m.main] == b);
    assert(code.take(s.at).push(b) =~= code.take(s.at + 1));
    if !opens(code, s.at) {
        assert(bcj2::step(z, m)->Some_0 =~= met(code, z.range, t));
    } else {
        let slot = mark_slot(code, s.at);
        let take = taken(s.at) && s.at + 5 <= code.len();
        let bit: int = if take {
            1
        } else {
            0
        };
        lemma_mark(s, z.range, slot, bit);
        if !take {
            assert(bcj2::step(z, m)->Some_0 =~= met(code, z.range, t));
        } else {
            lemma_target(code, s.at);
            let four = big(leads_to(code, s.at));
            assert(code.take(s.at + 1) + code.subrange(s.at + 1, s.at + 5) =~= code.take(
                s.at + 5,
            ));
            if b == 0xE8 {
                let k = s.call.len() as int;
                assert(t.call == s.call + four);
                assert forall|i: int| 0 <= i < 4 implies #[trigger] four[i] == z.call[k + i] by {
                    assert(t.call[k + i] == z.call[k + i]);
                }
                assert(four[0] == z.call[k]);
                assert(four[1] == z.call[k + 1]);
                assert(four[2] == z.call[k + 2]);
                assert(four[3] == z.call[k + 3]);
            } else {
                let k = s.jump.len() as int;
                assert(t.jump == s.jump + four);
                assert forall|i: int| 0 <= i < 4 implies #[trigger] four[i] == z.jump[k + i] by {
                    assert(t.jump[k + i] == z.jump[k + i]);
                }
                assert(four[0] == z.jump[k]);
                assert(four[1] == z.jump[k + 1]);
                assert(four[2] == z.jump[k + 2]);
                assert(four[3] == z.jump[k + 3]);
            }
            assert(bcj2::step(z, m)->Some_0 =~= met(code, z.range, t));
        }
    }
}

/// From any place on, the code comes together again.
proof fn lemma_rest(code: Seq<u8>, taken: spec_fn(int) -> bool, s: Apart, z: Streams, limit: int)
    requires
        sound(s),
        s.at <= code.len(),
        limit >= 0,
        ({
            let t = apart(code, taken, s);
            &&& t.main == z.main
            &&& t.call == z.call
            &&& t.jump == z.jump
            &&& range_encoder::accepts(z.range, t.put.enc)
        }),
    ensures
        range_encoder::accepts(z.range, s.put.enc),
        bcj2::run(z, met(code, z.range, s), limit) == Some(
            code.take(
                if limit < code.len() {
                    limit
                } else {
                    code.len() as int
                },
            ),
        ),
    decreases code.len() - s.at,
{
    let m = met(code, z.range, s);
    if s.at < code.len() {
        let t = part(code, taken, s);
        lemma_part(code, taken, s);
        lemma_apart(code, taken, t);
        lemma_rest(code, taken, t, z, limit);
        lemma_step(code, taken, s, z);
        assert(t.main.is_prefix_of(z.main));
        assert(m.main < z.main.len());
        if m.out.len() >= limit {
            assert(m.out.take(limit) =~= code.take(limit));
        }
    } else {
        assert(m.out =~= code);
        if m.out.len() >= limit {
            assert(m.out.take(limit) =~= code.take(limit));
        }
        assert(code.take(code.len() as int) =~= code);
    }
}

/// The bytes of a stream spell the number they were made of.
proof fn lemma_spelled(v: nat, n: nat)
    requires
        v < bytes::span(n),
    ensures
        range_encoder::number(range_encoder::number_bytes(v, n)) == v,
        range_encoder::number_bytes(v, n).len() == n,
    decreases n,
{
    if n > 0 {
        lemma_spelled(v / 256, (n - 1) as nat);
        let s = range_encoder::number_bytes(v, n);
        assert(s.drop_last() =~= range_encoder::number_bytes(v / 256, (n - 1) as nat));
    }
}

/// Code that was taken apart, whichever of its targets were taken out, is put
/// together again by the converter: all of it, or as much as it is asked for.
pub proof fn lemma_together(code: Seq<u8>, taken: spec_fn(int) -> bool, limit: int)
    requires
        limit >= 0,
    ensures
        streams_of(code, taken).range.len() >= 5,
        bcj2::decoded(streams_of(code, taken), limit) == Some(
            code.take(
                if limit < code.len() {
                    limit
                } else {
                    code.len() as int
                },
            ),
        ),
{
    let w = whole();
    let z = streams_of(code, taken);
    reveal_with_fuel(bytes::span, 5);
    assert(sound(w));
    lemma_apart(code, taken, w);
    let e = apart(code, taken, w).put.enc;
    let n = (e.n + 4) as nat;
    assert(bytes::span(n) == 256 * bytes::span((e.n + 3) as nat));
    lemma_spelled(e.low as nat, n);
    range_encoder::lemma_leading_prefix(z.range, Seq::empty(), n as int);
    assert(z.range + Seq::<u8>::empty() =~= z.range);
    assert(z.range.take(n as int) =~= z.range);
    lemma_rest(code, taken, w, z, limit);
    range_encoder::lemma_start(z.range);
    assert(met(code, z.range, w) =~= bcj2::start(z));
}

} // verus!
