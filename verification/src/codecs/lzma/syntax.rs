//! What an LZMA stream means.
use crate::codecs::lzma::range;
use crate::codecs::lzma::range::{Coder, Dec};
use crate::utils::lz;
use vstd::arithmetic::power2::*;
use vstd::prelude::*;

verus! {

/// Where the probabilities for "is this a match" start.
pub const IS_MATCH: usize = 0;

/// Where those for "is it a repeated distance" start.
pub const IS_REP: usize = 192;

/// Where those for "is it another distance than the last" start.
pub const IS_REP_G0: usize = 204;

/// Where those for "is it another distance than the second last" start.
pub const IS_REP_G1: usize = 216;

/// Where those for "is it the fourth last" start.
pub const IS_REP_G2: usize = 228;

/// Where those for "is it longer than a byte" start.
pub const IS_REP0_LONG: usize = 240;

/// Where those for distance slots start.
pub const POS_SLOT: usize = 432;

/// Where those for the low bits of middling distances start.
pub const POS_SPECIAL: usize = 688;

/// Where those for the lowest bits of long distances start.
pub const POS_ALIGN: usize = 803;

/// Where those for match lengths start.
pub const LEN: usize = 819;

/// Where those for the lengths of repeated matches start.
pub const REP_LEN: usize = 1333;

/// Where those for literals start.
pub const LITERAL: usize = 1847;

/// How many probabilities a literal takes.
pub const LITERAL_SIZE: usize = 0x300;

/// No stream is longer than this.
pub const MAX_TOTAL: u64 = 0x7fff_ffff_ffff_ffff;

/// The parameters of a stream.
#[derive(Debug, Clone, Copy, PartialEq, Eq, Structural)]
pub struct Properties {
    /// How many high bits of the byte before pick the literal table.
    pub lc: u32,
    /// How many low bits of the position pick the literal table.
    pub lp: u32,
    /// How many low bits of the position matches depend on.
    pub pb: u32,
    /// How far back a match may reach.
    pub dict_size: u32,
}

/// The parameters are within what the format allows.
pub open spec fn props_ok(p: Properties) -> bool {
    p.lc <= 8 && p.lp <= 4 && p.pb <= 4 && 1 <= p.dict_size <= 0x4000_0000
}

/// The parameters that a properties byte and a dictionary size stand for.
pub open spec fn props_from(byte: int, dict_size: int) -> Option<Properties> {
    if byte < 225 && dict_size <= 0x4000_0000 {
        Some(
            Properties {
                lc: (byte % 9) as u32,
                lp: ((byte / 9) % 5) as u32,
                pb: (byte / 45) as u32,
                dict_size: if dict_size > 4096 {
                    dict_size as u32
                } else {
                    4096
                },
            },
        )
    } else {
        None
    }
}

/// How many probabilities a model has.
pub open spec fn model_len(p: Properties) -> int {
    1847 + 0x300 * (pow2((p.lc + p.lp) as nat) as int)
}

/// A model that has seen nothing.
pub open spec fn fresh_probs(p: Properties) -> Seq<u16> {
    Seq::new(model_len(p) as nat, |i: int| range::PROB_INIT)
}

/// The whole state of a decoder.
#[verifier::ext_equal]
pub struct Lz {
    pub dec: Dec,
    pub state: int,
    pub reps: Seq<u32>,
    /// The dictionary.
    pub hist: Seq<u8>,
    /// How much was produced, before the last dictionary reset too.
    pub total: int,
}

/// What one symbol does.
pub enum Outcome {
    /// Decoding goes on.
    Next(Lz),
    /// The end marker was found.
    Marker(Lz),
    /// The data does not follow the format.
    Bad,
}

/// The state after a literal.
pub open spec fn after_literal(state: int) -> int {
    if state < 4 {
        0
    } else if state < 10 {
        state - 3
    } else {
        state - 6
    }
}

/// The slot of bit number `k` of a literal: where the bits so far agree with
/// those of the byte that a match would have given, that byte's next bit picks
/// the table.
pub open spec fn literal_slot(base: int, matched: Option<int>, symbol: int, k: nat) -> int {
    match matched {
        Some(m) => if symbol == (256 + m) / pow2((8 - k) as nat) as int {
            base + 256 * (1 + ((256 + m) / pow2((7 - k) as nat) as int) % 2) + symbol
        } else {
            base + symbol
        },
        None => base + symbol,
    }
}

/// A literal after `k` of its bits, with a one in front.
pub open spec fn literal_walked(
    data: Seq<u8>,
    d: Dec,
    base: int,
    matched: Option<int>,
    k: nat,
) -> (int, Dec)
    decreases k,
{
    if k == 0 {
        (1, d)
    } else {
        let (symbol, e) = literal_walked(data, d, base, matched, (k - 1) as nat);
        let (b, f) = range::slot_read(
            data,
            e,
            literal_slot(base, matched, symbol, (k - 1) as nat),
        );
        (2 * symbol + b, f)
    }
}

/// Where the table for a literal starts.
pub open spec fn literal_base(p: Properties, total: int, previous: int) -> int {
    1847 + 0x300 * ((total % pow2(p.lp as nat) as int) * pow2(p.lc as nat) + previous / pow2(
        (8 - p.lc) as nat,
    ) as int)
}

/// The byte before the position, or zero.
pub open spec fn previous_byte(hist: Seq<u8>) -> int {
    if hist.len() == 0 {
        0
    } else {
        hist.last() as int
    }
}

/// What a literal does.
pub open spec fn literal(data: Seq<u8>, p: Properties, s: Lz) -> Outcome {
    let base = literal_base(p, s.total, previous_byte(s.hist));
    if s.state >= 7 && s.reps[0] + 1 > s.hist.len() {
        Outcome::Bad
    } else {
        let matched = if s.state >= 7 {
            Some(s.hist[s.hist.len() - s.reps[0] - 1] as int)
        } else {
            None
        };
        let (symbol, d) = literal_walked(data, s.dec, base, matched, 8);
        Outcome::Next(
            Lz {
                dec: d,
                state: after_literal(s.state),
                hist: s.hist.push((symbol - 256) as u8),
                total: s.total + 1,
                ..s
            },
        )
    }
}

/// The length of a match, less two.
#[verifier::opaque]
pub open spec fn length(data: Seq<u8>, d: Dec, base: int, pos_state: int) -> (int, Dec) {
    let (c, d1) = range::slot_read(data, d, base);
    if c == 0 {
        range::tree_read(data, d1, base + 2 + 8 * pos_state, 3)
    } else {
        let (c2, d2) = range::slot_read(data, d1, base + 1);
        if c2 == 0 {
            let (v, d3) = range::tree_read(data, d2, base + 130 + 8 * pos_state, 3);
            (8 + v, d3)
        } else {
            let (v, d3) = range::tree_read(data, d2, base + 258, 8);
            (16 + v, d3)
        }
    }
}

/// The distance of a match, less one.
#[verifier::opaque]
pub open spec fn distance(data: Seq<u8>, d: Dec, len: int) -> (int, Dec) {
    let len_state = if len < 3 {
        len
    } else {
        3
    };
    let (slot, d1) = range::tree_read(data, d, 432 + 64 * len_state, 6);
    if slot < 4 {
        (slot, d1)
    } else {
        let width = (slot / 2 - 1) as nat;
        let base = (2 + slot % 2) * pow2(width);
        if slot < 14 {
            let (node, low, d2) = range::reverse_walked(data, d1, 688 + base - slot, width);
            (base + low, d2)
        } else {
            let (high, c) = range::direct_read(data, d1.coder, (width - 4) as nat);
            let (node, low, d2) = range::reverse_walked(data, Dec { coder: c, ..d1 }, 803, 4);
            (base + 16 * high + low, d2)
        }
    }
}

/// Copy a match whose distance is the first of `s.reps`.
pub open spec fn matched(s: Lz, len: int) -> Outcome {
    if s.reps[0] + 1 > s.hist.len() {
        Outcome::Bad
    } else {
        Outcome::Next(
            Lz {
                hist: lz::copied(s.hist, s.reps[0] as int + 1, (len + 2) as nat),
                total: s.total + len + 2,
                ..s
            },
        )
    }
}

/// A match at one of the last distances.
pub open spec fn repeated(data: Seq<u8>, s: Lz, pos_state: int) -> Outcome {
    let (g0, d0) = range::slot_read(data, s.dec, 204 + s.state);
    if s.hist.len() == 0 {
        Outcome::Bad
    } else if g0 == 0 {
        let (long, d1) = range::slot_read(data, d0, 240 + 16 * s.state + pos_state);
        if long == 0 {
            if s.reps[0] + 1 > s.hist.len() {
                Outcome::Bad
            } else {
                Outcome::Next(
                    Lz {
                        dec: d1,
                        state: if s.state < 7 {
                            9
                        } else {
                            11
                        },
                        hist: s.hist.push(s.hist[s.hist.len() - s.reps[0] - 1]),
                        total: s.total + 1,
                        ..s
                    },
                )
            }
        } else {
            rep_match(data, s, d1, s.reps, pos_state)
        }
    } else {
        let (g1, d1) = range::slot_read(data, d0, 216 + s.state);
        if g1 == 0 {
            rep_match(data, s, d1, seq![s.reps[1], s.reps[0], s.reps[2], s.reps[3]], pos_state)
        } else {
            let (g2, d2) = range::slot_read(data, d1, 228 + s.state);
            if g2 == 0 {
                rep_match(
                    data,
                    s,
                    d2,
                    seq![s.reps[2], s.reps[0], s.reps[1], s.reps[3]],
                    pos_state,
                )
            } else {
                rep_match(
                    data,
                    s,
                    d2,
                    seq![s.reps[3], s.reps[0], s.reps[1], s.reps[2]],
                    pos_state,
                )
            }
        }
    }
}

/// The rest of such a match.
pub open spec fn rep_match(data: Seq<u8>, s: Lz, d: Dec, reps: Seq<u32>, pos_state: int) -> Outcome {
    let (len, e) = length(data, d, 1333, pos_state);
    matched(
        Lz {
            dec: e,
            state: if s.state < 7 {
                8
            } else {
                11
            },
            reps,
            ..s
        },
        len,
    )
}

/// A match at a new distance.
pub open spec fn fresh_match(data: Seq<u8>, p: Properties, s: Lz, pos_state: int) -> Outcome {
    let (len, d1) = length(data, s.dec, 819, pos_state);
    let (dist, d2) = distance(data, d1, len);
    let next = Lz {
        dec: d2,
        state: if s.state < 7 {
            7
        } else {
            10
        },
        reps: seq![dist as u32, s.reps[0], s.reps[1], s.reps[2]],
        ..s
    };
    if dist == 0xffff_ffff {
        Outcome::Marker(Lz { reps: seq![s.reps[0], s.reps[0], s.reps[1], s.reps[2]], ..next })
    } else if dist >= p.dict_size {
        Outcome::Bad
    } else {
        matched(next, len)
    }
}

/// What the next symbol does.
#[verifier::opaque]
pub open spec fn step(data: Seq<u8>, p: Properties, s: Lz) -> Outcome {
    let pos_state = s.total % pow2(p.pb as nat) as int;
    let (m, d) = range::slot_read(data, s.dec, 16 * s.state + pos_state);
    if s.total > MAX_TOTAL {
        Outcome::Bad
    } else if m == 0 {
        literal(data, p, Lz { dec: d, ..s })
    } else {
        let (r, e) = range::slot_read(data, d, 192 + s.state);
        if r != 0 {
            repeated(data, Lz { dec: e, ..s }, pos_state)
        } else {
            fresh_match(data, p, Lz { dec: e, ..s }, pos_state)
        }
    }
}

pub proof fn lemma_walked_node(data: Seq<u8>, d: Dec, base: int, k: nat)
    ensures
        pow2(k) <= range::walked(data, d, base, k).0 < 2 * pow2(k),
    decreases k,
{
    broadcast use range::lemma_bit_range;
    lemma2_to64();
    if k > 0 {
        lemma_walked_node(data, d, base, (k - 1) as nat);
        lemma_pow2_unfold(k);
    }
}

pub proof fn lemma_length(data: Seq<u8>, d: Dec, base: int, pos_state: int)
    ensures
        0 <= length(data, d, base, pos_state).0 <= 271,
{
    reveal(length);
    broadcast use range::lemma_bit_range;
    lemma2_to64();
    let (c, d1) = range::slot_read(data, d, base);
    let (c2, d2) = range::slot_read(data, d1, base + 1);
    lemma_walked_node(data, d1, base + 2 + 8 * pos_state, 3);
    lemma_walked_node(data, d2, base + 130 + 8 * pos_state, 3);
    lemma_walked_node(data, d2, base + 258, 8);
}

/// A symbol produces something, and no more than the longest match.
pub proof fn lemma_step_grows(data: Seq<u8>, p: Properties, s: Lz)
    ensures
        step(data, p, s) matches Outcome::Next(t) ==> s.total < t.total <= s.total + 273
            && t.hist.len() - s.hist.len() == t.total - s.total,
        step(data, p, s) matches Outcome::Marker(t) ==> t.total == s.total && t.hist == s.hist,
{
    broadcast use range::lemma_bit_range;
    reveal(step);
    let pos_state = s.total % pow2(p.pb as nat) as int;
    let (m, d) = range::slot_read(data, s.dec, 16 * s.state + pos_state);
    let (r, e) = range::slot_read(data, d, 192 + s.state);
    if m != 0 {
        if r != 0 {
            let (g0, d0) = range::slot_read(data, e, 204 + s.state);
            let (long, d1) = range::slot_read(data, d0, 240 + 16 * s.state + pos_state);
            let (g1, f1) = range::slot_read(data, d0, 216 + s.state);
            let (g2, f2) = range::slot_read(data, f1, 228 + s.state);
            let last = if g0 == 0 {
                d1
            } else if g1 == 0 {
                f1
            } else {
                f2
            };
            lemma_length(data, last, 1333, pos_state);
            let len = length(data, last, 1333, pos_state).0;
            lemma_copied_lens(s.hist, (len + 2) as nat);
        } else {
            lemma_length(data, e, 819, pos_state);
            let len = length(data, e, 819, pos_state).0;
            lemma_copied_lens(s.hist, (len + 2) as nat);
        }
    }
}

proof fn lemma_copied_lens(hist: Seq<u8>, len: nat)
    ensures
        forall|dist: int| (#[trigger] lz::copied(hist, dist, len)).len() == hist.len() + len,
{
    assert forall|dist: int| (#[trigger] lz::copied(hist, dist, len)).len() == hist.len() + len by {
        lz::lemma_copied_len(hist, dist, len);
    }
}

/// How decoding up to a limit ends.
pub enum Ending {
    /// The limit was reached.
    Limit(Lz),
    /// The end marker was found.
    Marker(Lz),
    /// The data does not follow the format.
    Bad,
}

/// Decode symbols until `limit` bytes are produced in all.
pub open spec fn run(data: Seq<u8>, p: Properties, s: Lz, limit: int) -> Ending
    decreases limit + 273 - s.total,
{
    if s.total >= limit {
        Ending::Limit(s)
    } else {
        match step(data, p, s) {
            Outcome::Bad => Ending::Bad,
            Outcome::Marker(t) => Ending::Marker(t),
            Outcome::Next(t) => {
                proof {
                    lemma_step_grows(data, p, s);
                }
                run(data, p, t, limit)
            },
        }
    }
}

/// The dictionary where decoding symbols comes to its end, or stands before
/// the first that does not follow the format.
pub open spec fn reached(data: Seq<u8>, p: Properties, s: Lz, limit: int) -> Seq<u8>
    decreases limit + 273 - s.total,
{
    if s.total >= limit {
        s.hist
    } else {
        match step(data, p, s) {
            Outcome::Bad => s.hist,
            Outcome::Marker(t) => t.hist,
            Outcome::Next(t) => {
                proof {
                    lemma_step_grows(data, p, s);
                }
                reached(data, p, t, limit)
            },
        }
    }
}

/// The state in which a stream starts.
pub open spec fn fresh(c: Coder, p: Properties, hist: Seq<u8>, total: int) -> Lz {
    Lz {
        dec: Dec { coder: c, probs: fresh_probs(p) },
        state: 0,
        reps: seq![0u32, 0, 0, 0],
        hist,
        total,
    }
}

/// What an encoder and its decoder share: the probabilities, the state and the
/// recent distances.
#[verifier::ext_equal]
pub struct Mods {
    pub probs: Seq<u16>,
    pub state: int,
    pub reps: Seq<u32>,
}

/// The state of decoding with this model, this coder and this dictionary.
pub open spec fn lz_with(m: Mods, c: Coder, hist: Seq<u8>, total: int) -> Lz {
    Lz {
        dec: Dec { coder: c, probs: m.probs },
        state: m.state,
        reps: m.reps,
        hist,
        total,
    }
}

/// The model in a state of decoding.
pub open spec fn mods_of(s: Lz) -> Mods {
    Mods { probs: s.dec.probs, state: s.state, reps: s.reps }
}

/// The state an encoder starts in.
pub open spec fn fresh_mods(p: Properties) -> Mods {
    Mods { probs: fresh_probs(p), state: 0, reps: seq![0u32, 0, 0, 0] }
}

/// A literal's table lies in the model.
pub proof fn lemma_literal_base(p: Properties, total: int, previous: int)
    requires
        props_ok(p),
        0 <= total,
        0 <= previous < 256,
    ensures
        1847 <= literal_base(p, total, previous),
        literal_base(p, total, previous) + 0x300 <= model_len(p),
{
    let a = pow2(p.lp as nat) as int;
    let b = pow2(p.lc as nat) as int;
    let c = pow2((8 - p.lc) as nat) as int;
    lemma_pow2_pos(p.lp as nat);
    lemma_pow2_pos(p.lc as nat);
    lemma_pow2_pos((8 - p.lc) as nat);
    lemma_pow2_adds(p.lc as nat, (8 - p.lc) as nat);
    lemma_pow2_adds(p.lc as nat, p.lp as nat);
    lemma2_to64();
    let t = total % a;
    let q = previous / c;
    assert(q < b) by (nonlinear_arith)
        requires
            previous < 256,
            b * c == 256,
            q == previous / c,
            c > 0,
    ;
    assert(q >= 0) by (nonlinear_arith)
        requires
            q == previous / c,
            c > 0,
            previous >= 0,
    ;
    assert(0 <= t < a);
    assert((t + 1) * b <= a * b && t * b >= 0 && (t + 1) * b == t * b + b) by (nonlinear_arith)
        requires
            0 <= t,
            t + 1 <= a,
            0 <= b,
    ;
    assert(pow2((p.lc + p.lp) as nat) == b * a);
    assert(b * a == a * b) by (nonlinear_arith);
}

/// How far the distances of a slot go.
pub proof fn lemma_slot_span(slot: int)
    requires
        4 <= slot < 64,
    ensures
        ({
            let width = (slot / 2 - 1) as nat;
            let base = (2 + slot % 2) * pow2(width);
            &&& width <= 30
            &&& pow2(width) <= 0x4000_0000
            &&& base <= 0xc000_0000
            &&& slot < 14 ==> width <= 5 && slot <= base && base - slot + pow2(width) <= 115
            &&& slot >= 14 ==> width >= 6 && pow2(width) == 16 * pow2((width - 4) as nat)
            &&& base + pow2(width) <= 0x1_0000_0000
        }),
{
    lemma2_to64();
    let width = (slot / 2 - 1) as nat;
    if width < 30 {
        lemma_pow2_strictly_increases(width, 30);
    }
    let w = pow2(width) as int;
    let base = (2 + slot % 2) * w;
    assert(base == 2 * w || base == 3 * w) by (nonlinear_arith)
        requires
            base == (2 + slot % 2) * w,
            slot % 2 == 0 || slot % 2 == 1,
    ;
    if slot >= 14 {
        lemma_pow2_adds((width - 4) as nat, 4);
    }
}

/// The parts of a long distance fit together.
pub proof fn lemma_slot_room(slot: int, high: int, low: int)
    requires
        14 <= slot < 64,
        0 <= high < pow2((slot / 2 - 5) as nat),
        0 <= low < 16,
    ensures
        (2 + slot % 2) * pow2((slot / 2 - 1) as nat) + 16 * high + low < 0x1_0000_0000,
        16 * high + low < pow2((slot / 2 - 1) as nat),
{
    lemma_slot_span(slot);
}

/// Decoding can stop on the way and go on from there.
pub proof fn lemma_run_resume(data: Seq<u8>, p: Properties, s: Lz, near: int, far: int)
    requires
        near <= far,
    ensures
        run(data, p, s, far) == match run(data, p, s, near) {
            Ending::Limit(t) => run(data, p, t, far),
            other => other,
        },
        reached(data, p, s, far) == match run(data, p, s, near) {
            Ending::Limit(t) => reached(data, p, t, far),
            Ending::Marker(t) => t.hist,
            Ending::Bad => reached(data, p, s, near),
        },
    decreases near + 273 - s.total,
{
    if s.total < near {
        lemma_step_grows(data, p, s);
        if let Outcome::Next(t) = step(data, p, s) {
            lemma_run_resume(data, p, t, near, far);
        }
    }
}

/// One symbol.
pub proof fn lemma_run_step(data: Seq<u8>, p: Properties, s: Lz, t: Lz, limit: int)
    requires
        s.total < limit,
        step(data, p, s) == Outcome::Next(t),
    ensures
        run(data, p, s, limit) == run(data, p, t, limit),
{
}

/// A symbol only adds to the dictionary.
pub proof fn lemma_step_extends(data: Seq<u8>, p: Properties, s: Lz)
    ensures
        step(data, p, s) matches Outcome::Next(t) ==> s.hist.is_prefix_of(t.hist),
{
    reveal(step);
    let n = s.hist.len() as int;
    if let Outcome::Next(t) = step(data, p, s) {
        lemma_step_grows(data, p, s);
        let pos_state = s.total % pow2(p.pb as nat) as int;
        let (m, d) = range::slot_read(data, s.dec, 16 * s.state + pos_state);
        if m == 0 {
            assert(t.hist.take(n) =~= s.hist);
        } else {
            let (r, e) = range::slot_read(data, d, 192 + s.state);
            let (g0, d0) = range::slot_read(data, e, 204 + s.state);
            let (long, d1) = range::slot_read(data, d0, 240 + 16 * s.state + pos_state);
            if r != 0 && g0 == 0 && long == 0 {
                assert(t.hist.take(n) =~= s.hist);
            } else {
                let k = (t.total - s.total) as nat;
                lz::lemma_copied_prefix(s.hist, t.reps[0] as int + 1, k);
            }
        }
    }
}

/// Decoding only adds to the dictionary.
pub proof fn lemma_run_extends(data: Seq<u8>, p: Properties, s: Lz, limit: int)
    ensures
        match run(data, p, s, limit) {
            Ending::Limit(t) => s.hist.is_prefix_of(t.hist) && t.hist.len() - s.hist.len()
                == t.total - s.total && reached(data, p, s, limit) == t.hist,
            Ending::Marker(t) => s.hist.is_prefix_of(t.hist) && t.hist.len() - s.hist.len()
                == t.total - s.total && reached(data, p, s, limit) == t.hist,
            Ending::Bad => true,
        },
        s.hist.is_prefix_of(reached(data, p, s, limit)),
    decreases limit + 273 - s.total,
{
    if s.total >= limit {
        assert(s.hist.take(s.hist.len() as int) =~= s.hist);
    } else {
        lemma_step_grows(data, p, s);
        lemma_step_extends(data, p, s);
        match step(data, p, s) {
            Outcome::Next(t) => {
                lemma_run_extends(data, p, t, limit);
                let h = reached(data, p, t, limit);
                assert(h.take(s.hist.len() as int) =~= h.take(t.hist.len() as int).take(
                    s.hist.len() as int,
                ));
                match run(data, p, t, limit) {
                    Ending::Limit(u) => {
                        assert(u.hist.take(s.hist.len() as int) =~= u.hist.take(
                            t.hist.len() as int,
                        ).take(s.hist.len() as int));
                    },
                    Ending::Marker(u) => {
                        assert(u.hist.take(s.hist.len() as int) =~= u.hist.take(
                            t.hist.len() as int,
                        ).take(s.hist.len() as int));
                    },
                    Ending::Bad => {},
                }
            },
            Outcome::Marker(t) => {
                assert(s.hist.take(s.hist.len() as int) =~= s.hist);
            },
            Outcome::Bad => {
                assert(s.hist.take(s.hist.len() as int) =~= s.hist);
            },
        }
    }
}

/// A decoder with a larger dictionary reads the same.
pub proof fn lemma_step_wider(data: Seq<u8>, p: Properties, q: Properties, s: Lz)
    requires
        q.lc == p.lc,
        q.lp == p.lp,
        q.pb == p.pb,
        q.dict_size >= p.dict_size,
        !(step(data, p, s) is Bad),
    ensures
        step(data, q, s) == step(data, p, s),
{
    reveal(step);
}

/// Decoding with a larger dictionary reads the same.
pub proof fn lemma_run_wider(data: Seq<u8>, p: Properties, q: Properties, s: Lz, limit: int)
    requires
        q.lc == p.lc,
        q.lp == p.lp,
        q.pb == p.pb,
        q.dict_size >= p.dict_size,
        !(run(data, p, s, limit) is Bad),
    ensures
        run(data, q, s, limit) == run(data, p, s, limit),
    decreases limit + 273 - s.total,
{
    if s.total < limit {
        lemma_step_wider(data, p, q, s);
        lemma_step_grows(data, p, s);
        if let Outcome::Next(t) = step(data, p, s) {
            lemma_run_wider(data, p, q, t, limit);
        }
    }
}

/// How much is decoded: as much as is expected, or everything up to the end
/// marker.
pub open spec fn limit_of(expected: Option<u64>) -> int {
    match expected {
        Some(n) => n as int,
        None => 0x1_0000_0000_0000_0000,
    }
}

/// How a raw stream ends.
pub open spec fn stream_ending(data: Seq<u8>, p: Properties, expected: Option<u64>) -> Ending {
    run(
        data,
        p,
        fresh(range::start_coder(data), p, Seq::empty(), 0),
        limit_of(expected),
    )
}

/// What a raw stream holds up to its end or up to the first fault.
pub open spec fn held(data: Seq<u8>, p: Properties, expected: Option<u64>) -> Seq<u8> {
    if data.len() < 5 {
        Seq::empty()
    } else {
        reached(
            data,
            p,
            fresh(range::start_coder(data), p, Seq::empty(), 0),
            limit_of(expected),
        )
    }
}

/// What a raw stream decodes to, or `None` where it is malformed.
pub open spec fn stream(data: Seq<u8>, p: Properties, expected: Option<u64>) -> Option<Seq<u8>> {
    if data.len() < 5 {
        None
    } else {
        match stream_ending(data, p, expected) {
            Ending::Limit(t) => Some(t.hist),
            Ending::Marker(t) => Some(t.hist),
            Ending::Bad => None,
        }
    }
}

/// No stream goes on beyond the longest one.
pub proof fn lemma_run_bounded(data: Seq<u8>, p: Properties, s: Lz)
    ensures
        run(data, p, s, 0x1_0000_0000_0000_0000) matches Ending::Limit(t) ==> s.total
            >= 0x1_0000_0000_0000_0000,
    decreases 0x1_0000_0000_0000_0000 + 273 - s.total,
{
    if s.total < 0x1_0000_0000_0000_0000 {
        lemma_step_grows(data, p, s);
        if let Outcome::Next(t) = step(data, p, s) {
            assert(s.total <= MAX_TOTAL) by {
                reveal(step);
            }
            lemma_run_bounded(data, p, t);
        }
    }
}

} // verus!
