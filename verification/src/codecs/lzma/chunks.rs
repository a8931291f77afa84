//! Streams of LZMA2 chunks written by the rules of the format.
//!
//! A chunk starts with what it resets, then says how many bytes it stands for,
//! up to two megabytes, and how many it takes, up to 64 KiB.
use crate::codecs::lzma::encode;
use crate::codecs::lzma::lzma2;
use crate::codecs::lzma::lzma2::{Chunk, Chunked};
use crate::codecs::lzma::range;
use crate::codecs::lzma::range_encoder;
use crate::codecs::lzma::range_encoder::Enc;
use crate::codecs::lzma::syntax;
use crate::codecs::lzma::syntax::{Ending, Mods, Properties, MAX_TOTAL};
use vstd::prelude::*;

verus! {

/// Two bytes, the high one first.
pub open spec fn two(n: int) -> Seq<u8> {
    seq![(n / 256 % 256) as u8, (n % 256) as u8]
}

/// The head of a compressed chunk. The upper five bits of the size stand in
/// the first byte, below what is reset: 0 nothing, 1 the model, 2 the model
/// and the parameters, 3 the dictionary too.
pub open spec fn head(reset: int, size: int, packed: int, p: Properties) -> Seq<u8> {
    let first = seq![(0x80 + 0x20 * reset + (size - 1) / 0x1_0000) as u8];
    let sizes = first + two(size - 1) + two(packed - 1);
    if reset >= 2 {
        sizes.push(((p.pb * 5 + p.lp) * 9 + p.lc) as u8)
    } else {
        sizes
    }
}

/// Where the dictionary starts for a chunk.
pub open spec fn start_for(s: Chunked, reset: int) -> int {
    if reset == 3 {
        s.all.len() as int
    } else {
        s.start
    }
}

/// Whether a section is LZMA for `body`, after what the dictionary holds, and
/// leaves the model as `after`.
pub open spec fn stands_for(
    section: Seq<u8>,
    p: Properties,
    mods: Mods,
    hist: Seq<u8>,
    total: int,
    body: Seq<u8>,
    after: Mods,
) -> bool {
    syntax::run(
        section,
        p,
        syntax::lz_with(mods, range::start_coder(section), hist, total),
        total + body.len(),
    ) matches Ending::Limit(t) && t.hist == hist + body && t.total == total + body.len()
        && syntax::mods_of(t) == after
}

/// The model that a chunk starts with.
pub open spec fn mods_for(s: Chunked, reset: int, p: Properties) -> Mods {
    if reset == 0 && s.mods is Some {
        s.mods->Some_0
    } else {
        syntax::fresh_mods(p)
    }
}

/// Whether a chunk that resets this much can stand here: the first resets the
/// dictionary, one after stored bytes that has no model resets it, and one
/// that sends no parameters goes on with those it has.
pub open spec fn fits(s: Chunked, reset: int, p: Properties, dict: int) -> bool {
    &&& 0 <= reset <= 3
    &&& 0 <= s.pos
    &&& 0 <= s.start <= s.all.len() <= MAX_TOTAL
    &&& !s.started ==> reset == 3
    &&& s.after_stored && s.mods is None ==> reset != 0
    &&& reset < 2 ==> s.props == Some(p)
    &&& reset >= 2 ==> syntax::props_ok(p) && p.dict_size == dict && 4096 <= dict <= 0x4000_0000
}

/// What a compressed chunk leaves.
pub open spec fn packed_after(
    s: Chunked,
    reset: int,
    p: Properties,
    section: Seq<u8>,
    body: Seq<u8>,
    after: Mods,
) -> Chunked {
    Chunked {
        pos: s.pos + head(reset, body.len() as int, section.len() as int, p).len() + section.len(),
        mods: Some(after),
        props: Some(p),
        all: s.all + body,
        start: start_for(s, reset),
        started: true,
        after_stored: false,
    }
}

/// A compressed chunk stands for its body, whatever it resets and however
/// long the body is, and the decoder goes on behind it.
#[verifier::spinoff_prover]
#[verifier::rlimit(60)]
pub proof fn lemma_packed(
    data: Seq<u8>,
    dict: int,
    s: Chunked,
    reset: int,
    p: Properties,
    section: Seq<u8>,
    body: Seq<u8>,
    after: Mods,
)
    requires
        fits(s, reset, p, dict),
        1 <= body.len() <= 0x20_0000,
        5 <= section.len() <= 0x1_0000,
        ({
            let h = head(reset, body.len() as int, section.len() as int, p);
            &&& s.pos + h.len() + section.len() <= data.len()
            &&& data.subrange(s.pos, (s.pos + h.len() + section.len()) as int) == h + section
        }),
        stands_for(
            section,
            p,
            mods_for(s, reset, p),
            s.all.skip(start_for(s, reset)),
            s.all.len() as int,
            body,
            after,
        ),
    ensures
        lzma2::decoded(data, dict, s) == lzma2::decoded(
            data,
            dict,
            packed_after(s, reset, p, section, body, after),
        ),
{
    let size = body.len() - 1;
    let h = head(reset, body.len() as int, section.len() as int, p);
    let w = h + section;
    let at = s.pos;
    let top = size / 0x1_0000;
    assert(0 <= top < 32);
    assert(size == 0x1_0000 * top + size % 0x1_0000);
    assert(size % 0x1_0000 == 256 * (size / 256 % 256) + size % 256);
    let d = data.subrange(at, (at + w.len()) as int);
    assert forall|i: int| 0 <= i < w.len() implies data[at + i] == #[trigger] w[i] by {
        assert(d[i] == w[i]);
    }
    assert(data[at] == w[0]);
    assert(data[at + 1] == w[1]);
    assert(data[at + 2] == w[2]);
    assert(data[at + 3] == w[3]);
    assert(data[at + 4] == w[4]);
    let control = data[at] as int;
    assert(control == 0x80 + 0x20 * reset + top);
    assert((control / 32) % 4 == reset && control % 32 == top);
    assert(lzma2::be16(data, at + 3) == section.len() - 1);
    assert(65536 * (control % 32) + lzma2::be16(data, at + 1) + 1 == body.len());
    let from = at + h.len();
    assert(lzma2::section_of(data, from, section.len() as int) =~= section) by {
        assert forall|i: int| 0 <= i < section.len() implies data[from + i] == section[i] by {
            assert(w[h.len() + i] == section[i]);
        }
    }
    if reset >= 2 {
        assert(data[at + 5] == w[5]);
        lzma2::lemma_props_back(p, w[5], dict);
    }
    let start = start_for(s, reset);
    assert(s.all.take(start) + (s.all.skip(start) + body) =~= s.all + body);
    let t = packed_after(s, reset, p, section, body, after);
    assert(lzma2::chunk(data, dict, s) == Chunk::Next(t)) by {
        if let Chunk::Next(x) = lzma2::chunk(data, dict, s) {
            assert(x =~= t);
        }
    }
}

/// What a stored chunk leaves.
pub open spec fn stored_after(s: Chunked, reset: bool, body: Seq<u8>) -> Chunked {
    let next = Chunked {
        pos: s.pos + 3 + body.len(),
        all: s.all + body,
        after_stored: true,
        ..s
    };
    if reset {
        Chunked { start: s.all.len() as int, started: true, mods: None, props: None, ..next }
    } else {
        next
    }
}

/// A stored chunk stands for its bytes: it starts with 1 where it resets the
/// dictionary, else with 2.
pub proof fn lemma_stored(data: Seq<u8>, dict: int, s: Chunked, reset: bool, body: Seq<u8>)
    requires
        0 <= s.pos,
        s.all.len() <= MAX_TOTAL,
        reset || s.started,
        1 <= body.len() <= 0x1_0000,
        s.pos + 3 + body.len() <= data.len(),
        data.subrange(s.pos, (s.pos + 3 + body.len()) as int) == seq![
            if reset {
                1u8
            } else {
                2u8
            },
        ] + two(body.len() - 1) + body,
    ensures
        lzma2::decoded(data, dict, s) == lzma2::decoded(data, dict, stored_after(s, reset, body)),
{
    let w = seq![
        if reset {
            1u8
        } else {
            2u8
        },
    ] + two(body.len() - 1) + body;
    let at = s.pos;
    let d = data.subrange(at, (at + w.len()) as int);
    assert forall|i: int| 0 <= i < w.len() implies data[at + i] == #[trigger] w[i] by {
        assert(d[i] == w[i]);
    }
    assert(data[at] == w[0]);
    assert(data[at + 1] == w[1]);
    assert(data[at + 2] == w[2]);
    assert(lzma2::be16(data, at + 1) + 1 == body.len());
    assert(data.subrange(at + 3, at + 3 + body.len()) =~= body) by {
        assert forall|i: int| 0 <= i < body.len() implies data[at + 3 + i] == body[i] by {
            assert(w[3 + i] == body[i]);
        }
    }
}

/// A zero ends the stream: what was produced is all of it.
pub proof fn lemma_end(data: Seq<u8>, dict: int, s: Chunked)
    requires
        0 <= s.pos < data.len(),
        data[s.pos] == 0,
    ensures
        lzma2::decoded(data, dict, s) == Some(Chunked { pos: s.pos + 1, ..s }),
{
}

/// What the encoder codes for `body` after `hist` is a section for it.
pub proof fn lemma_coded(
    section: Seq<u8>,
    p: Properties,
    mods: Mods,
    e: Enc,
    after: Mods,
    hist: Seq<u8>,
    body: Seq<u8>,
)
    requires
        section.len() >= 5,
        range_encoder::accepts(section, e),
        encode::carries(p, encode::first_enc(), mods, e, after, hist, hist + body),
    ensures
        stands_for(section, p, mods, hist, hist.len() as int, body, after),
{
    let e0 = encode::first_enc();
    let limit = (hist + body).len() as int;
    let s0 = encode::lz_of(mods, range_encoder::coder_for(section, e0), hist);
    let s1 = encode::lz_of(after, range_encoder::coder_for(section, e), hist + body);
    assert(syntax::run(section, p, s0, limit) == Ending::Limit(s1)
        && range_encoder::accepts(section, e0)) by {
        reveal(encode::carries);
        assert(syntax::run(section, p, s0, limit) == syntax::run(section, p, s1, limit));
    }
    range_encoder::lemma_start(section);
    assert(syntax::mods_of(s1) =~= after);
}

} // verus!
