//! LZMA2: LZMA cut into chunks, each stored or compressed.
use crate::codecs::lzma::decode::{LzmaCore, Properties, Stop};
use crate::codecs::lzma::encode;
use crate::codecs::lzma::encode::{
    properties_byte, Coded, Encoder, Finder, Span, HASH_SIZE, MATCH_MAX_LEN,
};
use crate::codecs::lzma::range;
use crate::codecs::lzma::range::RangeDecoder;
use crate::codecs::lzma::range_encoder;
use crate::codecs::lzma::range_encoder::Enc;
use crate::codecs::lzma::syntax;
use crate::codecs::lzma::syntax::{Ending, Mods, MAX_TOTAL};
use crate::codecs::lzma::window::Window;
use crate::codecs::matching;
use crate::codecs::matching::Places;
use crate::codecs::sliding::{Feed, Sliding};
use crate::utils::bits;
use crate::utils::error::{Error, Result};
use vstd::arithmetic::power2::*;
use vstd::prelude::*;

verus! {

const CONTROL_END: u8 = 0;

const CONTROL_STORED_RESET: u8 = 1;

const CONTROL_STORED: u8 = 2;

/// The dictionary size that a code stands for.
pub open spec fn dictionary_of(code: int) -> int {
    if code == 40 {
        0xffff_ffff
    } else {
        (2 + code % 2) * pow2((code / 2 + 11) as nat)
    }
}

/// The dictionary size that a byte stands for.
pub fn dictionary_size(byte: u8) -> (r: Result<u32>)
    ensures
        r is Ok <==> byte <= 40,
        r matches Ok(size) ==> size == dictionary_of(byte as int),
        r matches Err(e) ==> e == Error::Malformed,
{
    if byte > 40 {
        return Err(Error::Malformed);
    }
    if byte == 40 {
        return Ok(0xffff_ffff);
    }
    proof {
        lemma_dictionary_bound(byte as int);
    }
    let base: u32 = 2 + (byte as u32) % 2;
    Ok(base * bits::power_of_two(byte as u32 / 2 + 11) as u32)
}

/// Whether `code` is the first whose dictionary is as large as wanted.
pub open spec fn is_code_for(code: int, wanted: int) -> bool {
    &&& 0 <= code <= 40
    &&& dictionary_of(code) >= wanted
    &&& forall|c: int| 0 <= c < code ==> #[trigger] dictionary_of(c) < wanted
}

proof fn lemma_dictionary_bound(code: int)
    requires
        0 <= code < 40,
    ensures
        code / 2 + 11 <= 30,
        pow2((code / 2 + 11) as nat) <= 0x4000_0000,
        4096 <= dictionary_of(code) <= 0xc000_0000,
{
    lemma2_to64();
    let k = (code / 2 + 11) as nat;
    if k < 30 {
        lemma_pow2_strictly_increases(k, 30);
    }
    if k > 11 {
        lemma_pow2_strictly_increases(11, k);
    }
    let w = pow2(k) as int;
    assert((2 + code % 2) * w == 2 * w || (2 + code % 2) * w == 3 * w) by (nonlinear_arith)
        requires
            code % 2 == 0 || code % 2 == 1,
    ;
}

/// The first code whose dictionary is at least as large as wanted.
pub fn dictionary_code(wanted: u32) -> (r: u8)
    ensures
        r <= 40,
        dictionary_of(r as int) >= wanted,
        forall|c: int| 0 <= c < r ==> #[trigger] dictionary_of(c) < wanted,
{
    let mut byte: u8 = 0;
    while byte < 40
        invariant
            byte <= 40,
            forall|c: int| 0 <= c < byte ==> #[trigger] dictionary_of(c) < wanted,
        decreases 40 - byte,
    {
        if let Ok(size) = dictionary_size(byte) {
            if size >= wanted {
                return byte;
            }
        }
        byte = byte + 1;
    }
    40
}

/// The code for a size that LZMA allows stands for a size that LZMA allows.
pub proof fn lemma_dictionary_code(code: int, wanted: int)
    requires
        0 <= code <= 40,
        wanted <= 0x4000_0000,
        forall|c: int| 0 <= c < code ==> #[trigger] dictionary_of(c) < wanted,
    ensures
        4096 <= dictionary_of(code) <= 0x4000_0000,
{
    lemma2_to64();
    assert(dictionary_of(36) == 2 * pow2(29));
    assert(code <= 36);
    lemma_dictionary_bound(code);
    let k = (code / 2 + 11) as nat;
    if code < 36 {
        if k < 28 {
            lemma_pow2_strictly_increases(k, 28);
        }
        let w = pow2(k) as int;
        assert((2 + code % 2) * w <= 3 * w) by (nonlinear_arith)
            requires
                code % 2 <= 1,
                w >= 0,
        ;
    }
}

/// Two bytes, high byte first.
pub open spec fn be16(data: Seq<u8>, at: int) -> int {
    256 * data[at] + data[at + 1]
}

/// Where decoding stands between chunks.
#[verifier::ext_equal]
pub struct Chunked {
    /// How much input was read.
    pub pos: int,
    /// The model, unless there is none yet.
    pub mods: Option<Mods>,
    /// The parameters, unless none were sent.
    pub props: Option<Properties>,
    /// Everything produced.
    pub all: Seq<u8>,
    /// Where the dictionary starts.
    pub start: int,
    /// Whether the dictionary was ever reset.
    pub started: bool,
    /// Whether the last chunk was stored.
    pub after_stored: bool,
}

/// What a chunk does.
pub enum Chunk {
    /// More chunks follow.
    Next(Chunked),
    /// The stream is over.
    End(Chunked),
    /// The chunk is malformed.
    Bad,
}

/// The start of a stream.
pub open spec fn start_state() -> Chunked {
    Chunked {
        pos: 0,
        mods: None,
        props: None,
        all: Seq::empty(),
        start: 0,
        started: false,
        after_stored: false,
    }
}

/// A stored chunk: a length, and that many bytes.
pub open spec fn stored_chunk(data: Seq<u8>, s: Chunked, control: int) -> Chunk {
    let len = be16(data, s.pos + 1) + 1;
    let from = s.pos + 3;
    if control != 1 && !s.started || from > data.len() || from + len > data.len() {
        Chunk::Bad
    } else {
        let next = Chunked {
            pos: from + len,
            all: s.all + data.subrange(from, from + len),
            after_stored: true,
            ..s
        };
        if control == 1 {
            Chunk::Next(
                Chunked {
                    start: s.all.len() as int,
                    started: true,
                    mods: None,
                    props: None,
                    ..next
                },
            )
        } else {
            Chunk::Next(next)
        }
    }
}

/// What follows the header of a compressed chunk.
pub open spec fn section_of(data: Seq<u8>, from: int, packed: int) -> Seq<u8> {
    data.subrange(
        from,
        if from + packed < data.len() {
            from + packed
        } else {
            data.len() as int
        },
    )
}

/// A compressed chunk with these parameters.
pub open spec fn section_chunk(
    s: Chunked,
    p: Properties,
    reset: int,
    section: Seq<u8>,
    from: int,
    unpacked: int,
) -> Chunk {
    let start = if reset == 3 {
        s.all.len() as int
    } else {
        s.start
    };
    let mods = match s.mods {
        Some(m) => if reset >= 1 {
            syntax::fresh_mods(p)
        } else {
            m
        },
        None => syntax::fresh_mods(p),
    };
    if s.after_stored && reset == 0 && s.mods is None {
        Chunk::Bad
    } else if !s.started && reset != 3 {
        Chunk::Bad
    } else if section.len() < 5 {
        Chunk::Bad
    } else {
        let total = s.all.len() as int;
        match syntax::run(
            section,
            p,
            syntax::lz_with(mods, range::start_coder(section), s.all.skip(start), total),
            total + unpacked,
        ) {
            Ending::Bad => Chunk::Bad,
            Ending::Marker(t) => Chunk::End(
                Chunked {
                    pos: from + if t.dec.coder.pos <= section.len() {
                        t.dec.coder.pos
                    } else {
                        section.len() as int
                    },
                    mods: Some(syntax::mods_of(t)),
                    props: Some(p),
                    all: s.all.take(start) + t.hist,
                    start,
                    started: true,
                    after_stored: false,
                },
            ),
            Ending::Limit(t) => if t.total != total + unpacked {
                Chunk::Bad
            } else {
                Chunk::Next(
                    Chunked {
                        pos: from + section.len(),
                        mods: Some(syntax::mods_of(t)),
                        props: Some(p),
                        all: s.all.take(start) + t.hist,
                        start,
                        started: true,
                        after_stored: false,
                    },
                )
            },
        }
    }
}

/// A compressed chunk: what to reset, both sizes, parameters where they
/// change, and the section.
pub open spec fn packed_chunk(data: Seq<u8>, dict: int, s: Chunked, control: int) -> Chunk {
    let reset = (control / 32) % 4;
    let from = s.pos + if reset >= 2 {
        6int
    } else {
        5
    };
    let unpacked = 65536 * (control % 32) + be16(data, s.pos + 1) + 1;
    let packed = be16(data, s.pos + 3) + 1;
    let props = if reset >= 2 {
        syntax::props_from(data[s.pos + 5] as int, dict)
    } else {
        s.props
    };
    if from > data.len() {
        Chunk::Bad
    } else {
        match props {
            None => Chunk::Bad,
            Some(p) => section_chunk(
                s,
                p,
                reset,
                section_of(data, from, packed),
                from,
                unpacked,
            ),
        }
    }
}

/// What the next chunk does. The stream is over where the input is.
pub open spec fn chunk(data: Seq<u8>, dict: int, s: Chunked) -> Chunk {
    if s.pos >= data.len() {
        Chunk::End(s)
    } else {
        let control = data[s.pos] as int;
        if control == 0 {
            Chunk::End(Chunked { pos: s.pos + 1, ..s })
        } else if s.all.len() > MAX_TOTAL {
            Chunk::Bad
        } else if control <= 2 {
            stored_chunk(data, s, control)
        } else if control < 0x80 {
            Chunk::Bad
        } else {
            packed_chunk(data, dict, s, control)
        }
    }
}

/// Where decoding ends, or `None` where the stream is malformed.
pub open spec fn decoded(data: Seq<u8>, dict: int, s: Chunked) -> Option<Chunked>
    decreases data.len() - s.pos,
{
    match chunk(data, dict, s) {
        Chunk::Bad => None,
        Chunk::End(t) => Some(t),
        Chunk::Next(t) => {
            if s.pos < t.pos <= data.len() {
                decoded(data, dict, t)
            } else {
                None
            }
        },
    }
}

/// What the chunks hold up to the end, or up to the first that is malformed.
pub open spec fn held(data: Seq<u8>, dict: int, s: Chunked) -> Seq<u8>
    decreases data.len() - s.pos,
{
    match chunk(data, dict, s) {
        Chunk::Bad => s.all,
        Chunk::End(t) => t.all,
        Chunk::Next(t) => {
            if s.pos < t.pos <= data.len() {
                held(data, dict, t)
            } else {
                s.all
            }
        },
    }
}

/// What a stream decodes to with a dictionary of this size.
pub open spec fn stream(data: Seq<u8>, dict: int) -> Option<Seq<u8>> {
    match decoded(data, dict, start_state()) {
        Some(t) => Some(t.all),
        None => None,
    }
}

proof fn lemma_chunk_moves(data: Seq<u8>, dict: int, s: Chunked)
    requires
        0 <= s.pos,
        0 <= s.start <= s.all.len(),
    ensures
        chunk(data, dict, s) matches Chunk::Next(t) ==> s.pos < t.pos <= data.len() && s.all.len()
            <= t.all.len() && s.all == t.all.take(s.all.len() as int) && 0 <= t.start
            <= t.all.len(),
        chunk(data, dict, s) matches Chunk::End(t) ==> s.all.len() <= t.all.len() && s.all
            == t.all.take(s.all.len() as int),
{
    let control = data[s.pos] as int;
    if s.pos >= data.len() || control == 0 {
        assert(s.all =~= s.all.take(s.all.len() as int));
    } else if control <= 2 {
        if let Chunk::Next(t) = stored_chunk(data, s, control) {
            assert(s.all =~= t.all.take(s.all.len() as int));
        }
    } else if control >= 0x80 && s.all.len() <= MAX_TOTAL {
        let reset = (control / 32) % 4;
        let from = s.pos + if reset >= 2 {
            6int
        } else {
            5
        };
        let unpacked = 65536 * (control % 32) + be16(data, s.pos + 1) + 1;
        let section = section_of(data, from, be16(data, s.pos + 3) + 1);
        let props = if reset >= 2 {
            syntax::props_from(data[s.pos + 5] as int, dict)
        } else {
            s.props
        };
        if from <= data.len() {
            if let Some(p) = props {
                lemma_section_extends(s, p, reset, section, from, unpacked);
            }
        }
    }
}

proof fn lemma_section_extends(
    s: Chunked,
    p: Properties,
    reset: int,
    section: Seq<u8>,
    from: int,
    unpacked: int,
)
    requires
        0 <= s.start <= s.all.len(),
    ensures
        section_chunk(s, p, reset, section, from, unpacked) matches Chunk::Next(t) ==> s.all.len()
            <= t.all.len() && s.all == t.all.take(s.all.len() as int) && 0 <= t.start
            <= t.all.len(),
        section_chunk(s, p, reset, section, from, unpacked) matches Chunk::End(t) ==> s.all.len()
            <= t.all.len() && s.all == t.all.take(s.all.len() as int),
{
    let start = if reset == 3 {
        s.all.len() as int
    } else {
        s.start
    };
    let mods = match s.mods {
        Some(m) => if reset >= 1 {
            syntax::fresh_mods(p)
        } else {
            m
        },
        None => syntax::fresh_mods(p),
    };
    let total = s.all.len() as int;
    let z = syntax::lz_with(mods, range::start_coder(section), s.all.skip(start), total);
    syntax::lemma_run_extends(section, p, z, total + unpacked);
    let hist = s.all.skip(start);
    match syntax::run(section, p, z, total + unpacked) {
        Ending::Limit(t) => {
            assert(hist == t.hist.take(hist.len() as int));
            assert(s.all =~= (s.all.take(start) + t.hist).take(total)) by {
                assert forall|i: int| 0 <= i < total implies s.all[i] == (s.all.take(start)
                    + t.hist)[i] by {
                    if i >= start {
                        assert(hist[i - start] == t.hist.take(hist.len() as int)[i - start]);
                    }
                }
            }
        },
        Ending::Marker(t) => {
            assert(hist == t.hist.take(hist.len() as int));
            assert(s.all =~= (s.all.take(start) + t.hist).take(total)) by {
                assert forall|i: int| 0 <= i < total implies s.all[i] == (s.all.take(start)
                    + t.hist)[i] by {
                    if i >= start {
                        assert(hist[i - start] == t.hist.take(hist.len() as int)[i - start]);
                    }
                }
            }
        },
        Ending::Bad => {},
    }
}

/// Decoding only adds to what was produced.
proof fn lemma_decoded_extends(data: Seq<u8>, dict: int, s: Chunked)
    requires
        0 <= s.pos,
        0 <= s.start <= s.all.len(),
    ensures
        decoded(data, dict, s) matches Some(t) ==> s.all.len() <= t.all.len() && s.all
            == t.all.take(s.all.len() as int) && held(data, dict, s) == t.all,
        s.all.is_prefix_of(held(data, dict, s)),
    decreases data.len() - s.pos,
{
    lemma_chunk_moves(data, dict, s);
    assert(s.all.take(s.all.len() as int) =~= s.all);
    if let Chunk::Next(t) = chunk(data, dict, s) {
        lemma_decoded_extends(data, dict, t);
        let h = held(data, dict, t);
        assert(h.take(s.all.len() as int) =~= h.take(t.all.len() as int).take(s.all.len() as int));
        if let Some(u) = decoded(data, dict, t) {
            assert(u.all.take(s.all.len() as int) =~= u.all.take(t.all.len() as int).take(
                s.all.len() as int,
            ));
        }
    }
}

/// Decodes a stream of chunks.
pub struct Lzma2Decoder {
    data: Vec<u8>,
    pos: usize,
    core: Option<LzmaCore>,
    window: Window,
    props: Option<Properties>,
    dict_size: u32,
    started: bool,
    after_stored: bool,
    finished: bool,
}

impl Lzma2Decoder {
    /// The bytes it decodes.
    pub closed spec fn input(&self) -> Seq<u8> {
        self.data@
    }

    /// The size of the dictionary.
    pub closed spec fn dictionary(&self) -> int {
        self.dict_size as int
    }

    /// Where it stands.
    pub closed spec fn state(&self) -> Chunked {
        Chunked {
            pos: self.pos as int,
            mods: match self.core {
                Some(c) => Some(c.mods()),
                None => None,
            },
            props: self.props,
            all: self.window.all(),
            start: self.window.all().len() - self.window.dictionary().len(),
            started: self.started,
            after_stored: self.after_stored,
        }
    }

    /// Where the stream ends.
    pub open spec fn ending(&self) -> Option<Chunked> {
        decoded(self.input(), self.dictionary(), start_state())
    }

    /// What the stream holds up to its end, or up to the first chunk that is
    /// malformed.
    pub open spec fn held(&self) -> Seq<u8> {
        held(self.input(), self.dictionary(), start_state())
    }

    /// What was read so far.
    pub closed spec fn delivered(&self) -> Seq<u8> {
        self.window.delivered()
    }

    /// How much of the input was used.
    pub closed spec fn position(&self) -> int {
        self.pos as int
    }

    /// Whether the end of the stream was reached and everything was read.
    pub closed spec fn done(&self) -> bool {
        self.finished && self.window.unread() == 0
    }

    /// How much reading is left at most.
    pub closed spec fn budget(&self) -> nat {
        (0x1000_0000 * (self.data@.len() - self.pos) + self.window.unread()) as nat
    }

    spec fn in_order(&self) -> bool {
        &&& self.window.wf()
        &&& self.window.kept() >= self.dict_size
        &&& self.window.kept() >= 4096
        &&& self.pos <= self.data@.len()
        &&& self.core matches Some(c) ==> c.wf() && self.props == Some(c.properties())
        &&& self.props matches Some(p) ==> syntax::props_ok(p) && p.dict_size
            <= self.window.kept()
    }

    /// The decoder stands somewhere in the stream that it was given.
    pub closed spec fn wf(&self) -> bool {
        &&& self.in_order()
        &&& if self.finished {
            self.ending() == Some(self.state()) && self.held() == self.state().all
        } else {
            self.ending() == decoded(self.data@, self.dict_size as int, self.state())
                && self.held() == held(self.data@, self.dict_size as int, self.state())
        }
    }

    /// What was read is a start of what the stream decodes to; at the end it
    /// is all of it, and the position is where the stream ends.
    pub proof fn lemma_delivered(&self)
        requires
            self.wf(),
        ensures
            self.ending() matches Some(t) ==> self.delivered().is_prefix_of(t.all) && self.held()
                == t.all,
            self.delivered().is_prefix_of(self.held()),
            self.done() ==> (self.ending() matches Some(t) && t.all == self.delivered() && t.pos
                == self.position()),
            0 <= self.position() <= self.input().len(),
            self.delivered().len() <= u64::MAX,
    {
        self.window.lemma_reach();
        let out = self.window.all();
        lemma_decoded_extends(self.data@, self.dict_size as int, self.state());
        assert(out.take(out.len() as int) =~= out);
        assert(self.delivered() =~= self.held().take(out.len() as int).take(
            self.delivered().len() as int,
        ));
        assert(self.delivered() =~= self.held().take(self.delivered().len() as int));
        if let Some(t) = self.ending() {
            assert(out.take(out.len() as int) =~= out);
            assert(self.delivered() =~= t.all.take(out.len() as int).take(
                self.delivered().len() as int,
            ));
            assert(self.delivered() =~= t.all.take(self.delivered().len() as int));
        }
        if self.done() {
            assert(self.delivered() =~= out);
        }
    }

    /// A decoder of the stream `inner`.
    pub fn new(inner: Vec<u8>, dict_size: u32) -> (r: Self)
        ensures
            r.wf(),
            r.input() == inner@,
            r.dictionary() == dict_size,
            r.delivered() == Seq::<u8>::empty(),
    {
        let kept: usize = if dict_size > 4096 {
            dict_size as usize
        } else {
            4096
        };
        let r: Lzma2Decoder = Lzma2Decoder {
            data: inner,
            pos: 0,
            core: None,
            window: Window::new(kept),
            props: None,
            dict_size,
            started: false,
            after_stored: false,
            finished: false,
        };
        proof {
            assert(r.state() =~= start_state());
            assert(r.delivered() =~= Seq::<u8>::empty());
        }
        r
    }

    /// The input that was not used.
    pub fn into_inner(self) -> (r: Vec<u8>)
        requires
            self.wf(),
        ensures
            r@ == self.input().skip(self.position()),
    {
        let mut rest: Vec<u8> = Vec::with_capacity(self.data.len() - self.pos);
        rest.extend_from_slice(&self.data.as_slice()[self.pos..self.data.len()]);
        assert(rest@ =~= self.data@.skip(self.pos as int));
        rest
    }

    /// How much of the input was used.
    pub fn consumed(&self) -> (r: usize)
        requires
            self.wf(),
        ensures
            r == self.position(),
    {
        self.pos
    }

    fn byte(&mut self) -> (r: Option<u8>)
        requires
            old(self).pos <= old(self).data@.len(),
        ensures
            *final(self) == (Lzma2Decoder { pos: final(self).pos, ..*old(self) }),
            match r {
                Some(b) => old(self).pos < old(self).data@.len() && b
                    == old(self).data@[old(self).pos as int] && final(self).pos == old(self).pos
                    + 1,
                None => old(self).pos == old(self).data@.len() && final(self).pos
                    == old(self).pos,
            },
    {
        if self.pos < self.data.len() {
            let b: u8 = self.data[self.pos];
            self.pos = self.pos + 1;
            Some(b)
        } else {
            None
        }
    }

    fn u16be(&mut self) -> (r: Result<u32>)
        requires
            old(self).pos <= old(self).data@.len(),
        ensures
            match r {
                Ok(v) => old(self).pos + 2 <= old(self).data@.len() && v == be16(
                    old(self).data@,
                    old(self).pos as int,
                ) && final(self).pos == old(self).pos + 2 && *final(self) == (Lzma2Decoder {
                    pos: final(self).pos,
                    ..*old(self)
                }),
                Err(e) => e == Error::Malformed && old(self).pos + 2 > old(self).data@.len(),
            },
    {
        let high: u8 = match self.byte() {
            Some(b) => b,
            None => {
                return Err(Error::Malformed);
            },
        };
        let low: u8 = match self.byte() {
            Some(b) => b,
            None => {
                return Err(Error::Malformed);
            },
        };
        Ok(256 * (high as u32) + low as u32)
    }

    fn stored(&mut self, control: u8) -> (r: Result<()>)
        requires
            old(self).in_order(),
            1 <= control <= 2,
            1 <= old(self).pos,
            old(self).window.all().len() <= MAX_TOTAL,
            old(self).window.unread() == 0,
        ensures
            match stored_chunk(
                old(self).data@,
                Chunked { pos: old(self).pos - 1, ..old(self).state() },
                control as int,
            ) {
                Chunk::Next(t) => r is Ok && final(self).in_order() && final(self).state() == t
                    && final(self).same_stream(*old(self)) && final(self).window.unread()
                    <= 65536,
                _ => r == Err::<(), Error>(Error::Malformed),
            },
    {
        proof {
            self.window.lemma_reach();
        }
        if control == CONTROL_STORED_RESET {
            self.window.reset_dictionary();
            self.started = true;
            self.core = None;
            self.props = None;
        } else if !self.started {
            return Err(Error::Malformed);
        }
        let len: usize = match self.u16be() {
            Ok(v) => v as usize + 1,
            Err(e) => {
                return Err(e);
            },
        };
        if self.data.len() - self.pos < len {
            return Err(Error::Malformed);
        }
        let from: usize = self.pos;
        self.window.extend(&self.data.as_slice()[from..from + len]);
        self.pos = from + len;
        self.after_stored = true;
        Ok(())
    }

    spec fn same_stream(&self, old: Self) -> bool {
        &&& self.data@ == old.data@
        &&& self.dict_size == old.dict_size
        &&& self.finished == old.finished
        &&& self.window.delivered() == old.window.delivered()
    }

    #[verifier::rlimit(40)]
    #[verifier::spinoff_prover]
    fn section(&mut self, reset: u8, props: Properties, unpacked: u64, packed: usize) -> (r: Result<
        (),
    >)
        requires
            old(self).in_order(),
            reset <= 3,
            1 <= unpacked <= 0x20_0000,
            1 <= packed <= 0x1_0000,
            syntax::props_ok(props),
            props.dict_size <= old(self).window.kept(),
            reset < 2 ==> old(self).props == Some(props),
            old(self).window.all().len() <= MAX_TOTAL,
            old(self).window.unread() == 0,
            !old(self).finished,
        ensures
            match section_chunk(
                old(self).state(),
                props,
                reset as int,
                section_of(old(self).data@, old(self).pos as int, packed as int),
                old(self).pos as int,
                unpacked as int,
            ) {
                Chunk::Next(t) => r is Ok && final(self).in_order() && final(self).state() == t
                    && final(self).same_stream(*old(self)) && final(self).window.unread()
                    <= 0x30_0000,
                Chunk::End(t) => r is Ok && final(self).in_order() && final(self).state() == t
                    && final(self).finished && final(self).data@ == old(self).data@
                    && final(self).dict_size == old(self).dict_size
                    && final(self).window.delivered() == old(self).window.delivered()
                    && final(self).window.unread() <= 0x30_0000,
                Chunk::Bad => r == Err::<(), Error>(Error::Malformed),
            },
            r is Ok ==> final(self).pos >= old(self).pos,
    {
        let ghost s = self.state();
        let ghost all = self.window.all();
        let ghost start = if reset == 3 {
            all.len() as int
        } else {
            s.start
        };
        proof {
            self.window.lemma_reach();
        }
        if reset == 3 {
            self.window.reset_dictionary();
        }
        assert(self.window.dictionary() =~= all.skip(start)) by {
            self.window.lemma_reach();
        }
        if self.after_stored && reset == 0 && self.core.is_none() {
            return Err(Error::Malformed);
        }
        if !self.started && reset != 3 {
            return Err(Error::Malformed);
        }
        self.after_stored = false;
        self.started = true;
        let mut core: LzmaCore = match self.core.take() {
            Some(c) => if reset >= 1 {
                LzmaCore::new(props)
            } else {
                c
            },
            None => LzmaCore::new(props),
        };
        self.props = Some(props);
        let from: usize = self.pos;
        let end: usize = if self.data.len() - from < packed {
            self.data.len()
        } else {
            from + packed
        };
        let mut section: Vec<u8> = Vec::with_capacity(end - from);
        section.extend_from_slice(&self.data.as_slice()[from..end]);
        let ghost sec = section@;
        assert(sec =~= section_of(old(self).data@, from as int, packed as int));
        let limit: u64 = self.window.total() + unpacked;
        let mut rc: RangeDecoder = match RangeDecoder::new(section) {
            Ok(rc) => rc,
            Err(e) => {
                return Err(e);
            },
        };
        proof {
            syntax::lemma_run_extends(sec, props, core.at(&rc, &self.window), limit as int);
        }
        match core.decode(&mut rc, &mut self.window, limit) {
            Err(e) => {
                return Err(e);
            },
            Ok(stop) => {
                proof {
                    self.window.lemma_reach();
                    assert(self.window.all() =~= all.take(start) + self.window.dictionary()) by {
                        let now = self.window.all();
                        assert(now.take(all.len() as int) == all);
                        assert(now =~= now.take(start) + now.skip(start));
                        assert(now.take(start) =~= now.take(all.len() as int).take(start));
                    }
                }
                if stop == Stop::Marker {
                    self.finished = true;
                    self.pos = from + rc.consumed();
                    self.core = Some(core);
                    return Ok(());
                }
                self.core = Some(core);
            },
        }
        if self.window.total() != limit {
            return Err(Error::Malformed);
        }
        self.pos = end;
        Ok(())
    }

    fn chunk(&mut self) -> (r: Result<()>)
        requires
            old(self).wf(),
            !old(self).finished,
            old(self).window.unread() == 0,
        ensures
            r is Ok ==> {
                &&& final(self).wf()
                &&& final(self).input() == old(self).input()
                &&& final(self).dictionary() == old(self).dictionary()
                &&& final(self).delivered() == old(self).delivered()
                &&& final(self).finished || final(self).budget() < old(self).budget()
                &&& final(self).budget() <= old(self).budget()
            },
            r matches Err(e) ==> e == Error::Malformed && old(self).ending() is None && old(
                self,
            ).held() == old(self).window.all(),
    {
        let ghost s = self.state();
        let ghost data = self.data@;
        let ghost dict = self.dict_size as int;
        proof {
            self.window.lemma_reach();
            lemma_chunk_moves(data, dict, s);
        }
        let control: u8 = match self.byte() {
            Some(b) => b,
            None => {
                self.finished = true;
                return Ok(());
            },
        };
        if control == CONTROL_END {
            self.finished = true;
            assert(self.state() =~= (Chunked { pos: s.pos + 1, ..s }));
            return Ok(());
        }
        if self.window.total() > MAX_TOTAL {
            return Err(Error::Malformed);
        }
        if control == CONTROL_STORED || control == CONTROL_STORED_RESET {
            assert((Chunked { pos: self.pos - 1, ..self.state() }) =~= s);
            return self.stored(control);
        }
        if control < 0x80 {
            return Err(Error::Malformed);
        }
        let reset: u8 = (control / 32) % 4;
        let low: u32 = match self.u16be() {
            Ok(v) => v,
            Err(e) => {
                return Err(e);
            },
        };
        let unpacked: u64 = 65536 * ((control % 32) as u64) + low as u64 + 1;
        let packed: usize = match self.u16be() {
            Ok(v) => v as usize + 1,
            Err(e) => {
                return Err(e);
            },
        };
        let ghost sent = if reset >= 2 {
            syntax::props_from(data[s.pos + 5] as int, dict)
        } else {
            s.props
        };
        if reset >= 2 {
            let byte: u8 = match self.byte() {
                Some(b) => b,
                None => {
                    return Err(Error::Malformed);
                },
            };
            match Properties::from_byte(byte, self.dict_size) {
                Ok(p) => {
                    self.core = None;
                    self.props = Some(p);
                },
                Err(e) => {
                    return Err(e);
                },
            }
        }
        let props: Properties = match self.props {
            Some(p) => p,
            None => {
                return Err(Error::Malformed);
            },
        };
        proof {
            assert(sent == Some(props));
            let from = self.pos as int;
            let sec = section_of(data, from, packed as int);
            assert(section_chunk(self.state(), props, reset as int, sec, from, unpacked as int)
                == section_chunk(s, props, reset as int, sec, from, unpacked as int));
            lemma_section_extends(s, props, reset as int, sec, from, unpacked as int);
        }
        self.section(reset, props, unpacked, packed)
    }

    /// Read the next bytes of the output into `buf`. Nothing is read only at
    /// the end of the stream.
    pub fn read(&mut self, buf: &mut [u8]) -> (r: Result<usize>)
        requires
            old(self).wf(),
        ensures
            final(buf)@.len() == old(buf)@.len(),
            r matches Ok(n) ==> {
                &&& final(self).wf()
                &&& final(self).input() == old(self).input()
                &&& final(self).dictionary() == old(self).dictionary()
                &&& n <= old(buf)@.len()
                &&& final(self).delivered() == old(self).delivered() + final(buf)@.take(n as int)
                &&& final(buf)@.skip(n as int) == old(buf)@.skip(n as int)
                &&& n == 0 && old(buf)@.len() > 0 ==> final(self).done()
                &&& n > 0 ==> final(self).budget() < old(self).budget()
            },
            r matches Err(e) ==> e == Error::Malformed && old(self).ending() is None && old(
                self,
            ).delivered() == old(self).held(),
    {
        if buf.len() == 0 {
            assert(buf@.take(0) =~= Seq::<u8>::empty());
            return Ok(0);
        }
        while self.window.pending() == 0 && !self.finished
            invariant
                self.wf(),
                self.input() == old(self).input(),
                self.dictionary() == old(self).dictionary(),
                self.delivered() == old(self).delivered(),
                self.budget() <= old(self).budget(),
                buf@ == old(buf)@,
            decreases self.budget(), (if self.finished { 0int } else { 1int }),
        {
            self.window.drain();
            let ghost was = *self;
            if let Err(e) = self.chunk() {
                proof {
                    was.window.lemma_reach();
                    assert(was.delivered() =~= was.window.all());
                }
                return Err(e);
            }
        }
        proof {
            self.window.lemma_reach();
        }
        let n: usize = self.window.take(buf);
        Ok(n)
    }

    /// Everything that is left.
    pub fn read_to_end(&mut self) -> (r: Result<Vec<u8>>)
        requires
            old(self).wf(),
            old(self).delivered() == Seq::<u8>::empty(),
        ensures
            match old(self).ending() {
                Some(t) => r matches Ok(out) && out@ == t.all && final(self).wf() && final(
                self).done() && final(self).input() == old(self).input() && final(
                self).dictionary() == old(self).dictionary(),
                None => r matches Err(e) && e == Error::Malformed,
            },
    {
        let mut out: Vec<u8> = Vec::new();
        let mut chunk: Vec<u8> = vec![0u8; 4096];
        loop
            invariant
                self.wf(),
                self.input() == old(self).input(),
                self.dictionary() == old(self).dictionary(),
                out@ == self.delivered(),
                chunk@.len() == 4096,
            decreases self.budget(),
        {
            match self.read(chunk.as_mut_slice()) {
                Err(e) => {
                    return Err(e);
                },
                Ok(n) => {
                    if n == 0 {
                        proof {
                            self.lemma_delivered();
                            assert(out@ + chunk@.take(0) =~= out@);
                        }
                        return Ok(out);
                    }
                    out.extend_from_slice(&chunk.as_slice()[0..n]);
                    assert(out@ =~= self.delivered());
                },
            }
        }
    }
}

/// The state of a decoder whose dictionary may be larger than the encoder's.
pub open spec fn state_with(g: Chunked, p: Properties, dict: int) -> Chunked {
    Chunked {
        props: match g.props {
            Some(_) => Some(Properties { dict_size: dict as u32, ..p }),
            None => None,
        },
        ..g
    }
}

/// Whether every decoder with a large enough dictionary gets through `body`,
/// whatever follows it, to the state `g`.
#[verifier::opaque]
pub open spec fn leads(body: Seq<u8>, p: Properties, g: Chunked) -> bool {
    forall|tail: Seq<u8>, dict: int|
        #![trigger decoded(body + tail, dict, start_state())]
        p.dict_size <= dict && 4096 <= dict <= 0x4000_0000 ==> decoded(body + tail, dict, start_state())
            == decoded(body + tail, dict, state_with(g, p, dict))
}

/// Whether `more`, after `body`, is one chunk that takes a decoder from `g` to
/// `h`.
pub open spec fn chunk_leads(
    body: Seq<u8>,
    more: Seq<u8>,
    p: Properties,
    g: Chunked,
    h: Chunked,
) -> bool {
    forall|tail: Seq<u8>, dict: int|
        p.dict_size <= dict && 4096 <= dict <= 0x4000_0000 ==> #[trigger] chunk(
            body + more + tail,
            dict,
            state_with(g, p, dict),
        ) == Chunk::Next(state_with(h, p, dict))
}

proof fn lemma_leads_more(body: Seq<u8>, more: Seq<u8>, p: Properties, g: Chunked, h: Chunked)
    requires
        leads(body, p, g),
        chunk_leads(body, more, p, g, h),
        g.pos == body.len(),
        h.pos == body.len() + more.len(),
        more.len() > 0,
    ensures
        leads(body + more, p, h),
{
    reveal(leads);
    assert forall|tail: Seq<u8>, dict: int|
        #![trigger decoded((body + more) + tail, dict, start_state())]
        p.dict_size <= dict && 4096 <= dict <= 0x4000_0000 implies decoded(
        (body + more) + tail,
        dict,
        start_state(),
    ) == decoded((body + more) + tail, dict, state_with(h, p, dict)) by {
        assert(body + more + tail =~= body + (more + tail));
        assert(decoded(body + (more + tail), dict, start_state()) == decoded(
            body + (more + tail),
            dict,
            state_with(g, p, dict),
        ));
        assert(chunk(body + more + tail, dict, state_with(g, p, dict)) == Chunk::Next(
            state_with(h, p, dict),
        ));
    }
}

proof fn lemma_stored_leads(body: Seq<u8>, payload: Seq<u8>, p: Properties, g: Chunked)
    requires
        g.pos == body.len(),
        1 <= payload.len() <= 0x1_0000,
        g.all.len() <= MAX_TOTAL,
        !g.started ==> g == (Chunked { pos: g.pos, all: g.all, ..start_state() }) && g.all.len()
            == 0,
    ensures
        ({
            let control: u8 = if g.started {
                2
            } else {
                1
            };
            let len = payload.len() - 1;
            let more = seq![control, (len / 256) as u8, (len % 256) as u8] + payload;
            chunk_leads(
                body,
                more,
                p,
                g,
                Chunked {
                    pos: g.pos + more.len(),
                    all: g.all + payload,
                    after_stored: true,
                    started: true,
                    ..g
                },
            )
        }),
{
    let control: u8 = if g.started {
        2
    } else {
        1
    };
    let len = payload.len() - 1;
    let more = seq![control, (len / 256) as u8, (len % 256) as u8] + payload;
    let h = Chunked {
        pos: g.pos + more.len(),
        all: g.all + payload,
        after_stored: true,
        started: true,
        ..g
    };
    assert forall|tail: Seq<u8>, dict: int|
        p.dict_size <= dict && 4096 <= dict <= 0x4000_0000 implies #[trigger] chunk(
        body + more + tail,
        dict,
        state_with(g, p, dict),
    ) == Chunk::Next(state_with(h, p, dict)) by {
        let data = body + more + tail;
        let at = g.pos;
        assert(data[at] == more[0]);
        assert(data[at + 1] == more[1]);
        assert(data[at + 2] == more[2]);
        assert(be16(data, at + 1) == len);
        assert(data.subrange(at + 3, at + 3 + payload.len()) =~= payload);
        let s = state_with(g, p, dict);
        if let Chunk::Next(t) = chunk(data, dict, s) {
            assert(t =~= state_with(h, p, dict));
        }
    }
}

/// The bytes of a compressed chunk.
pub open spec fn packed_bytes(reset: int, unpacked: int, props: u8, packed: Seq<u8>) -> Seq<u8> {
    let size = unpacked - 1;
    let stored = packed.len() - 1;
    let head = seq![
        (128 + 32 * reset) as u8,
        (size / 256) as u8,
        (size % 256) as u8,
        (stored / 256) as u8,
        (stored % 256) as u8,
    ];
    if reset >= 2 {
        head.push(props) + packed
    } else {
        head + packed
    }
}

#[verifier::rlimit(40)]
#[verifier::spinoff_prover]
proof fn lemma_packed_leads(
    body: Seq<u8>,
    packed: Seq<u8>,
    p: Properties,
    g: Chunked,
    reset: int,
    m0: Mods,
    m1: Mods,
    e1: Enc,
    next: Seq<u8>,
    props: u8,
)
    requires
        syntax::props_ok(p),
        props == p.lc + 9 * (p.lp + 5 * p.pb),
        g.pos == body.len(),
        g.start == 0,
        5 <= packed.len() <= 0x1_0000,
        g.all.len() < next.len() <= g.all.len() + 0x8000,
        g.all.len() <= MAX_TOTAL,
        reset == 3 <==> !g.started,
        reset == 3 ==> g.all.len() == 0,
        reset == 0 || reset == 2 || reset == 3,
        reset == 0 ==> g.mods == Some(m0) && g.props is Some,
        reset != 0 ==> m0 == syntax::fresh_mods(p),
        forall|tail: Seq<u8>| #[trigger] range_encoder::accepts(packed + tail, e1),
        encode::carries(
            p,
            Enc { n: 1, low: 0, range: 0xffff_ffff },
            m0,
            e1,
            m1,
            g.all,
            next,
        ),
    ensures
        ({
            let more = packed_bytes(reset, next.len() - g.all.len(), props, packed);
            chunk_leads(
                body,
                more,
                p,
                g,
                Chunked {
                    pos: g.pos + more.len(),
                    mods: Some(m1),
                    props: Some(p),
                    all: next,
                    start: 0,
                    started: true,
                    after_stored: false,
                },
            )
        }),
{
    let unpacked = next.len() - g.all.len();
    let more = packed_bytes(reset, unpacked, props, packed);
    let h = Chunked {
        pos: g.pos + more.len(),
        mods: Some(m1),
        props: Some(p),
        all: next,
        start: 0,
        started: true,
        after_stored: false,
    };
    let e0 = Enc { n: 1, low: 0, range: 0xffff_ffff };
    assert(packed + Seq::<u8>::empty() =~= packed);
    assert(range_encoder::accepts(packed + Seq::<u8>::empty(), e1));
    let c1 = range_encoder::coder_for(packed, e1);
    let s0 = encode::lz_of(m0, range_encoder::coder_for(packed, e0), g.all);
    let s1 = encode::lz_of(m1, c1, next);
    let limit = next.len() as int;
    assert(syntax::run(packed, p, s0, limit) == Ending::Limit(s1)
        && range_encoder::accepts(packed, e0)) by {
        reveal(encode::carries);
        assert(syntax::run(packed, p, s0, limit) == syntax::run(packed, p, s1, limit));
    }
    range_encoder::lemma_start(packed);
    assert forall|tail: Seq<u8>, dict: int|
        p.dict_size <= dict && 4096 <= dict <= 0x4000_0000 implies #[trigger] chunk(
        body + more + tail,
        dict,
        state_with(g, p, dict),
    ) == Chunk::Next(state_with(h, p, dict)) by {
        let data = body + more + tail;
        let at = g.pos;
        let q = Properties { dict_size: dict as u32, ..p };
        let s = state_with(g, p, dict);
        assert(forall|i: int| 0 <= i < 5 ==> data[at + i] == #[trigger] more[i]);
        assert(data[at] == more[0]);
        assert(data[at + 1] == more[1]);
        assert(data[at + 2] == more[2]);
        assert(data[at + 3] == more[3]);
        assert(data[at + 4] == more[4]);
        assert(be16(data, at + 1) == unpacked - 1);
        assert(be16(data, at + 3) == packed.len() - 1);
        let control = data[at] as int;
        assert(control == 128 + 32 * reset);
        assert((control / 32) % 4 == reset && control % 32 == 0);
        let from = at + if reset >= 2 {
            6int
        } else {
            5
        };
        assert(section_of(data, from, packed.len() as int) =~= packed);
        if reset >= 2 {
            assert(data[at + 5] == more[5] == props);
            lemma_props_back(p, props, dict);
        }
        syntax::lemma_run_wider(packed, p, q, s0, limit);
        assert(s.all.skip(0) =~= g.all);
        assert(syntax::fresh_mods(p) == syntax::fresh_mods(q));
        assert(s.all.take(0) + next =~= next);
        assert(s1.hist == next);
        assert(syntax::mods_of(s1) =~= m1);
        if let Chunk::Next(t) = chunk(data, dict, s) {
            assert(t =~= state_with(h, p, dict));
        }
    }
}

/// A properties byte stands for the parameters that it was made from.
pub proof fn lemma_props_back(p: Properties, byte: u8, dict: int)
    requires
        syntax::props_ok(p),
        byte == p.lc + 9 * (p.lp + 5 * p.pb),
        4096 <= dict <= 0x4000_0000,
    ensures
        syntax::props_from(byte as int, dict) == Some(Properties { dict_size: dict as u32, ..p }),
{
}

/// How much goes into one chunk.
pub const CHUNK: usize = 32_768;

/// The most bytes that a compressed chunk takes.
pub const MAX_PACKED: usize = 65_536;

const RESERVE: usize = 274;

/// What a writer of chunks has done and knows.
pub struct Chunks {
    /// The chunks.
    pub body: Seq<u8>,
    /// The model.
    pub mods: Mods,
    /// The places that were remembered.
    pub places: Places,
    /// Whether there is no chunk yet.
    pub first: bool,
    /// Whether the model is new.
    pub fresh: bool,
}

/// One more chunk: compressed where that is shorter, else stored.
pub open spec fn chunk_coded(
    p: Properties,
    tries: usize,
    all: Seq<u8>,
    from: int,
    to: int,
    c: Chunks,
) -> Chunks {
    let s = encode::span_coded(
        p,
        tries,
        all,
        from,
        to,
        0,
        Span {
            coded: Coded { enc: Enc { n: 1, low: 0, range: 0xffff_ffff }, mods: c.mods },
            places: c.places,
        },
    );
    let packed = range_encoder::flushed(s.coded.enc);
    let n = to - from;
    if packed.len() <= MAX_PACKED && packed.len() < n {
        let reset = if c.first {
            3int
        } else if c.fresh {
            2
        } else {
            0
        };
        Chunks {
            body: c.body + packed_bytes(
                reset,
                n,
                (p.lc + 9 * (p.lp + 5 * p.pb)) as u8,
                packed,
            ),
            mods: s.coded.mods,
            places: s.places,
            first: false,
            fresh: false,
        }
    } else {
        let control = if c.first {
            1u8
        } else {
            2u8
        };
        Chunks {
            body: c.body + (seq![control, ((n - 1) / 256) as u8, ((n - 1) % 256) as u8]
                + all.subrange(from, to)),
            mods: syntax::fresh_mods(p),
            places: s.places,
            first: false,
            fresh: true,
        }
    }
}

/// After the first `k` chunks of the data, with room for `links` places.
pub open spec fn upto(p: Properties, tries: usize, links: nat, all: Seq<u8>, k: nat) -> Chunks
    decreases k,
{
    if k == 0 {
        Chunks {
            body: Seq::empty(),
            mods: syntax::fresh_mods(p),
            places: matching::no_places(HASH_SIZE as nat, links),
            first: true,
            fresh: true,
        }
    } else {
        chunk_coded(
            p,
            tries,
            all,
            (k - 1) * CHUNK,
            k * CHUNK,
            upto(p, tries, links, all, (k - 1) as nat),
        )
    }
}

/// After all of the data.
pub open spec fn throughout(p: Properties, tries: usize, links: nat, all: Seq<u8>) -> Chunks {
    let k = all.len() / CHUNK as nat;
    if k * CHUNK == all.len() {
        upto(p, tries, links, all, k)
    } else {
        chunk_coded(
            p,
            tries,
            all,
            (k * CHUNK) as int,
            all.len() as int,
            upto(p, tries, links, all, k),
        )
    }
}

/// The stream of the data. An input of about `expected` bytes is reckoned
/// with.
pub open spec fn stream_of(p: Properties, tries: usize, expected: int, all: Seq<u8>) -> Seq<u8> {
    throughout(p, tries, encode::span_for(expected, p.dict_size as int), all).body.push(0u8)
}

/// Chunks that are followed by enough data stay the same with more of it.
proof fn lemma_upto_more(
    p: Properties,
    tries: usize,
    links: nat,
    all: Seq<u8>,
    more: Seq<u8>,
    k: nat,
)
    requires
        k == 0 || k * CHUNK + 273 <= all.len(),
    ensures
        upto(p, tries, links, all + more, k) == upto(p, tries, links, all, k),
    decreases k,
{
    if k > 0 {
        lemma_upto_more(p, tries, links, all, more, (k - 1) as nat);
        let c = upto(p, tries, links, all, (k - 1) as nat);
        encode::lemma_span_more(
            p,
            tries,
            all,
            more,
            (k - 1) * CHUNK,
            k * CHUNK,
            0,
            Span {
                coded: Coded { enc: Enc { n: 1, low: 0, range: 0xffff_ffff }, mods: c.mods },
                places: c.places,
            },
        );
        assert((all + more).subrange((k - 1) * CHUNK, k * CHUNK) =~= all.subrange(
            (k - 1) * CHUNK,
            k * CHUNK,
        ));
    }
}

/// A stream of chunks written as its input arrives.
pub struct Writer {
    out: Vec<u8>,
    encoder: Encoder,
    finder: Finder,
    window: Sliding,
    props: Properties,
    props_byte: u8,
    at: usize,
    first: bool,
    fresh_state: bool,
    before: Ghost<Seq<u8>>,
    reached: Ghost<Chunked>,
    expected: Ghost<int>,
}

/// Whether `body` is a stream of the data `d`: whatever follows it, every
/// decoder with at least this dictionary reads it, and no byte beyond it.
pub open spec fn is_stream(body: Seq<u8>, dict_size: int, d: Seq<u8>) -> bool {
    forall|tail: Seq<u8>, dict: int|
        #![trigger decoded(body + tail, dict, start_state())]
        dict_size <= dict
            && 4096 <= dict <= 0x4000_0000 ==> (decoded(body + tail, dict, start_state()) matches Some(
            t,
        ) && t.all == d && t.pos == body.len())
}

impl Writer {
    /// What was there before the stream.
    pub closed spec fn before(&self) -> Seq<u8> {
        self.before@
    }

    /// All data taken so far.
    pub closed spec fn taken(&self) -> Seq<u8> {
        self.window.all()
    }

    /// The size of the dictionary.
    pub closed spec fn dictionary(&self) -> int {
        self.props.dict_size as int
    }

    /// The parameters of the chunks.
    pub closed spec fn properties(&self) -> Properties {
        self.props
    }

    /// How many places are looked at.
    pub closed spec fn depth(&self) -> usize {
        self.finder.tries()
    }

    /// How much data is reckoned with.
    pub closed spec fn expected(&self) -> int {
        self.expected@
    }

    spec fn links(&self) -> nat {
        encode::span_for(self.expected@, self.props.dict_size as int)
    }

    spec fn now(&self) -> Chunks {
        Chunks {
            body: self.out@.skip(self.before@.len() as int),
            mods: self.encoder.mods(),
            places: self.finder.places(),
            first: self.first,
            fresh: self.fresh_state,
        }
    }

    /// Whole chunks were written, and each before enough data.
    spec fn even(&self) -> bool {
        &&& self.at % CHUNK == 0
        &&& self.at > 0 ==> self.at + 274 <= self.window.all().len()
        &&& self.now() == upto(
            self.props,
            self.depth(),
            self.links(),
            self.window.all(),
            (self.at / CHUNK) as nat,
        )
    }

    /// What is written so far is read as the data that was encoded.
    pub closed spec fn wf(&self) -> bool {
        &&& self.holds()
        &&& self.even()
    }

    /// The same, whatever was written last.
    spec fn holds(&self) -> bool {
        let body = self.out@.skip(self.before@.len() as int);
        let g = self.reached@;
        &&& self.before@.is_prefix_of(self.out@)
        &&& self.finder.wf()
        &&& self.window.wf()
        &&& self.at <= self.window.all().len()
        &&& self.window.all().len() <= MAX_TOTAL
        &&& self.encoder.wf(self.at as int)
        &&& self.encoder.properties() == self.props
        &&& syntax::props_ok(self.props)
        &&& self.props_byte == self.props.lc + 9 * (self.props.lp + 5 * self.props.pb)
        &&& self.window.first() == 0 || self.at - self.window.first() >= self.props.dict_size
        &&& leads(body, self.props, g)
        &&& g.pos == body.len()
        &&& body.len() <= 7 * self.at
        &&& g.all == self.window.all().take(self.at as int)
        &&& g.start == 0
        &&& g.started == !self.first
        &&& self.first ==> g == start_state() && self.at == 0 && self.fresh_state
        &&& self.fresh_state ==> self.encoder.mods() == syntax::fresh_mods(self.props)
        &&& !self.fresh_state ==> g.mods == Some(self.encoder.mods()) && g.props is Some
    }

    /// Start a stream after what `out` holds.
    pub fn new(out: Vec<u8>, props: Properties, depth: usize, expected: usize) -> (r: Self)
        requires
            syntax::props_ok(props),
        ensures
            r.wf(),
            r.before() == out@,
            r.dictionary() == props.dict_size,
            r.taken() == Seq::<u8>::empty(),
            r.properties() == props,
            r.depth() == depth,
            r.expected() == expected,
    {
        let dict: usize = props.dict_size as usize;
        let ghost before = out@;
        let r: Writer = Writer {
            out,
            encoder: Encoder::new(props),
            finder: Finder::new(expected, dict, depth),
            window: Sliding::new(dict + MATCH_MAX_LEN as usize),
            props,
            props_byte: properties_byte(props),
            at: 0,
            first: true,
            fresh_state: true,
            before: Ghost(before),
            reached: Ghost(start_state()),
            expected: Ghost(expected as int),
        };
        proof {
            reveal(leads);
            assert(r.out@.take(before.len() as int) =~= before);
            assert(r.out@.skip(before.len() as int) =~= Seq::<u8>::empty());
            assert(r.window.all().take(0) =~= Seq::<u8>::empty());
            assert forall|dict: int| state_with(start_state(), props, dict) == start_state() by {
                assert(state_with(start_state(), props, dict) =~= start_state());
            }
            assert(r.encoder.wf(0));
        }
        r
    }

    /// Hand over more input, encoding whatever has become complete.
    pub fn push(&mut self, bytes: &[u8])
        requires
            old(self).wf(),
            old(self).taken().len() + bytes@.len() <= MAX_TOTAL,
            old(self).taken().len() + bytes@.len() <= usize::MAX,
        ensures
            final(self).wf(),
            final(self).before() == old(self).before(),
            final(self).dictionary() == old(self).dictionary(),
            final(self).taken() == old(self).taken() + bytes@,
            final(self).properties() == old(self).properties(),
            final(self).depth() == old(self).depth(),
            final(self).expected() == old(self).expected(),
    {
        let ghost done = self.window.all().take(self.at as int);
        let ghost before = self.window.all();
        self.window.push(bytes);
        assert(self.window.all().take(self.at as int) =~= done);
        proof {
            lemma_upto_more(
                self.props,
                self.depth(),
                self.links(),
                before,
                bytes@,
                (self.at / CHUNK) as nat,
            );
        }
        self.drain(false);
    }

    /// Encode what is left, mark the end and give back everything written.
    /// What follows the start decodes to what was taken. It is the same however
    /// that was cut into pushes.
    pub fn finish(self) -> (r: Vec<u8>)
        requires
            self.wf(),
        ensures
            self.before().is_prefix_of(r@),
            is_stream(r@.skip(self.before().len() as int), self.dictionary(), self.taken()),
            r@.len() <= self.before().len() + 7 * self.taken().len() + 1,
            r@ == self.before() + stream_of(
                self.properties(),
                self.depth(),
                self.expected(),
                self.taken(),
            ),
    {
        let mut this: Writer = self;
        this.drain(true);
        let ghost body = this.out@.skip(this.before@.len() as int);
        let ghost g = this.reached@;
        let ghost p = this.props;
        let ghost all = this.window.all();
        let mut out: Vec<u8> = this.out;
        out.push(CONTROL_END);
        proof {
            let b = self.before@;
            let whole = body.push(CONTROL_END);
            assert(out@.skip(b.len() as int) =~= whole);
            assert(out@.take(b.len() as int) =~= b);
            assert(all.take(all.len() as int) =~= all);
            assert(out@ =~= b + whole);
            reveal(leads);
            assert forall|tail: Seq<u8>, dict: int|
                #![trigger decoded(whole + tail, dict, start_state())]
                p.dict_size <= dict && 4096 <= dict <= 0x4000_0000 implies (decoded(
                whole + tail,
                dict,
                start_state(),
            ) matches Some(t) && t.all == all && t.pos == whole.len()) by {
                let data = whole + tail;
                assert(data =~= body + (seq![CONTROL_END] + tail));
                assert(decoded(body + (seq![CONTROL_END] + tail), dict, start_state()) == decoded(
                    data,
                    dict,
                    state_with(g, p, dict),
                ));
                assert(data[body.len() as int] == 0);
            }
        }
        out
    }

    fn drain(&mut self, last: bool)
        requires
            old(self).wf(),
        ensures
            final(self).holds(),
            !last ==> final(self).even(),
            final(self).before() == old(self).before(),
            final(self).taken() == old(self).taken(),
            final(self).props == old(self).props,
            final(self).depth() == old(self).depth(),
            final(self).expected == old(self).expected,
            last ==> final(self).at == final(self).window.all().len() && final(self).now()
                == throughout(
                old(self).props,
                old(self).depth(),
                old(self).links(),
                old(self).taken(),
            ),
    {
        loop
            invariant_except_break
                self.holds(),
                self.before() == old(self).before(),
                self.taken() == old(self).taken(),
                self.props == old(self).props,
                self.depth() == old(self).depth(),
                self.expected == old(self).expected,
                !last ==> self.even(),
                last ==> self.at == self.window.all().len() && self.now() == throughout(
                    self.props,
                    self.depth(),
                    self.links(),
                    self.window.all(),
                ) || self.at % CHUNK == 0 && self.now() == upto(
                    self.props,
                    self.depth(),
                    self.links(),
                    self.window.all(),
                    (self.at / CHUNK) as nat,
                ),
            ensures
                self.holds(),
                !last ==> self.even(),
                self.before() == old(self).before(),
                self.taken() == old(self).taken(),
                self.props == old(self).props,
                self.depth() == old(self).depth(),
                self.expected == old(self).expected,
                last ==> self.at == self.window.all().len() && self.now() == throughout(
                    self.props,
                    self.depth(),
                    self.links(),
                    self.window.all(),
                ),
            decreases self.window.all().len() - self.at,
        {
            let available: usize = self.window.end() - self.at;
            let take: usize = if last {
                if available < CHUNK {
                    available
                } else {
                    CHUNK
                }
            } else if available >= CHUNK + RESERVE {
                CHUNK
            } else {
                0
            };
            proof {
                vstd::arithmetic::div_mod::lemma_fundamental_div_mod(self.at as int, CHUNK as int);
            }
            if take == 0 {
                break;
            }
            self.chunk(take);
        }
        let keep: usize = self.props.dict_size as usize + MATCH_MAX_LEN as usize;
        self.window.retain(self.at, keep);
    }

    #[verifier::rlimit(60)]
    #[verifier::spinoff_prover]
    fn chunk(&mut self, unpacked: usize)
        requires
            old(self).holds(),
            1 <= unpacked <= CHUNK,
            old(self).at + unpacked <= old(self).window.all().len(),
        ensures
            final(self).holds(),
            final(self).depth() == old(self).depth(),
            final(self).expected == old(self).expected,
            final(self).now() == chunk_coded(
                old(self).props,
                old(self).depth(),
                old(self).taken(),
                old(self).at as int,
                old(self).at + unpacked,
                old(self).now(),
            ),
            final(self).before() == old(self).before(),
            final(self).taken() == old(self).taken(),
            final(self).props == old(self).props,
            final(self).at == old(self).at + unpacked,
    {
        let props: Properties = self.props;
        let from: usize = self.at;
        proof {
            self.window.lemma_wf();
        }
        let end: usize = from + unpacked;
        let ghost all = self.window.all();
        let ghost body = self.out@.skip(self.before@.len() as int);
        let ghost g = self.reached@;
        let ghost m0 = self.encoder.mods();
        let ghost out0 = self.out@;
        let feed: Feed = self.window.feed();
        proof {
            feed.lemma_wf();
        }
        let (packed, Ghost(e1)) = self.encoder.encode_range(&feed, from, end, &mut self.finder);
        if packed.len() <= MAX_PACKED && packed.len() < unpacked {
            let reset: u8 = if self.first {
                3
            } else if self.fresh_state {
                2
            } else {
                0
            };
            let size: usize = unpacked - 1;
            let stored: usize = packed.len() - 1;
            self.out.push(128 + 32 * reset);
            self.out.push((size / 256) as u8);
            self.out.push((size % 256) as u8);
            self.out.push((stored / 256) as u8);
            self.out.push((stored % 256) as u8);
            if reset >= 2 {
                self.out.push(self.props_byte);
            }
            self.out.extend_from_slice(packed.as_slice());
            self.fresh_state = false;
            let ghost m1 = self.encoder.mods();
            let ghost more = packed_bytes(
                reset as int,
                unpacked as int,
                self.props_byte,
                packed@,
            );
            let ghost h = Chunked {
                pos: g.pos + more.len(),
                mods: Some(m1),
                props: Some(props),
                all: all.take(end as int),
                start: 0,
                started: true,
                after_stored: false,
            };
            proof {
                lemma_packed_leads(
                    body,
                    packed@,
                    props,
                    g,
                    reset as int,
                    m0,
                    m1,
                    e1,
                    all.take(end as int),
                    self.props_byte,
                );
                lemma_leads_more(body, more, props, g, h);
                assert(self.out@ =~= out0 + more);
                assert(self.out@.skip(self.before@.len() as int) =~= body + more);
                assert(self.out@.take(self.before@.len() as int) =~= out0.take(
                    self.before@.len() as int,
                ));
            }
            self.reached = Ghost(h);
        } else {
            let control: u8 = if self.first {
                CONTROL_STORED_RESET
            } else {
                CONTROL_STORED
            };
            self.out.push(control);
            self.out.push(((unpacked - 1) / 256) as u8);
            self.out.push(((unpacked - 1) % 256) as u8);
            self.out.extend_from_slice(feed.slice(from, end));
            let ghost payload = all.subrange(from as int, end as int);
            let ghost len = unpacked - 1;
            let ghost more = seq![control, (len / 256) as u8, (len % 256) as u8] + payload;
            let ghost h = Chunked {
                pos: g.pos + more.len(),
                all: g.all + payload,
                after_stored: true,
                started: true,
                ..g
            };
            proof {
                lemma_stored_leads(body, payload, props, g);
                lemma_leads_more(body, more, props, g, h);
                assert(g.all + payload =~= all.take(end as int));
                assert(self.out@ =~= out0 + more);
                assert(self.out@.skip(self.before@.len() as int) =~= body + more);
                assert(self.out@.take(self.before@.len() as int) =~= out0.take(
                    self.before@.len() as int,
                ));
            }
            self.reached = Ghost(h);
            self.encoder = Encoder::new(props);
            self.fresh_state = true;
            assert(self.encoder.wf(end as int));
        }
        self.first = false;
        self.at = end;
    }
}

/// Compress into a stream of chunks. Every decoder with at least this
/// dictionary gets the data back.
pub fn compress(data: &[u8], props: Properties, depth: usize) -> (r: Vec<u8>)
    requires
        syntax::props_ok(props),
        data@.len() <= MAX_TOTAL,
    ensures
        is_stream(r@, props.dict_size as int, data@),
        r@.len() <= 7 * data@.len() + 1,
        r@ == stream_of(props, depth, data@.len() as int, data@),
{
    let mut writer: Writer = Writer::new(
        Vec::with_capacity(data.len() / 3 + 64),
        props,
        depth,
        data.len(),
    );
    writer.push(data);
    assert(Seq::<u8>::empty() + data@ =~= data@);
    let r: Vec<u8> = writer.finish();
    assert(r@.skip(0) =~= r@);
    assert(r@ =~= stream_of(props, depth, data@.len() as int, data@));
    r
}

/// What is compressed decodes to the data.
pub proof fn lemma_round_trip(body: Seq<u8>, dict_size: int, dict: int, d: Seq<u8>)
    requires
        is_stream(body, dict_size, d),
        dict_size <= dict,
        4096 <= dict <= 0x4000_0000,
    ensures
        stream(body, dict) == Some(d),
{
    assert(body + Seq::<u8>::empty() =~= body);
    assert(decoded(body + Seq::<u8>::empty(), dict, start_state()) is Some);
}

} // verus!
