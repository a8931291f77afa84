//! A raw LZMA stream that ends with a marker, written as its input arrives.
use crate::codecs::lzma::encode;
use crate::codecs::lzma::encode::{
    Coded, Encoder, Finder, RangeEncoder, Span, HASH_SIZE, MATCH_MAX_LEN,
};
use crate::codecs::lzma::range;
use crate::codecs::lzma::range_encoder;
use crate::codecs::lzma::range_encoder::Enc;
use crate::codecs::lzma::syntax;
use crate::codecs::lzma::syntax::{Ending, Properties, MAX_TOTAL};
use crate::codecs::matching;
use crate::codecs::sliding::{Feed, Sliding};
use vstd::prelude::*;

verus! {

/// Whether `body` is a raw stream of the data `d` that ends with a marker:
/// whatever follows it, a decoder reads it, and no byte beyond it.
pub open spec fn is_marked(body: Seq<u8>, p: Properties, d: Seq<u8>) -> bool {
    body.len() >= 5 && forall|tail: Seq<u8>| #[trigger]
        syntax::stream_ending(body + tail, p, None) matches Ending::Marker(t) && t.hist == d
            && t.dec.coder.pos == body.len()
}

/// Encodes as much of its input as has become complete.
pub(crate) struct Marked {
    coder: RangeEncoder,
    encoder: Encoder,
    finder: Finder,
    window: Sliding,
    props: Properties,
    at: usize,
}

/// How much is encoded in one go.
pub const CHUNK: usize = 32_768;

/// After the first `k` stretches of the data.
pub open spec fn upto(p: Properties, tries: usize, all: Seq<u8>, k: nat) -> Span
    decreases k,
{
    if k == 0 {
        Span {
            coded: Coded {
                enc: Enc { n: 1, low: 0, range: 0xffff_ffff },
                mods: syntax::fresh_mods(p),
            },
            places: matching::no_places(
                HASH_SIZE as nat,
                encode::span_for(p.dict_size as int, p.dict_size as int),
            ),
        }
    } else {
        encode::span_coded(
            p,
            tries,
            all,
            (k - 1) * CHUNK,
            k * CHUNK,
            0,
            upto(p, tries, all, (k - 1) as nat),
        )
    }
}

/// After all of the data.
pub open spec fn throughout(p: Properties, tries: usize, all: Seq<u8>) -> Span {
    let k = all.len() / CHUNK as nat;
    if k * CHUNK == all.len() {
        upto(p, tries, all, k)
    } else {
        encode::span_coded(
            p,
            tries,
            all,
            (k * CHUNK) as int,
            all.len() as int,
            0,
            upto(p, tries, all, k),
        )
    }
}

/// The raw stream of the data, with its marker.
pub open spec fn stream_of(p: Properties, tries: usize, all: Seq<u8>) -> Seq<u8> {
    range_encoder::flushed(
        encode::marker_coded(p, throughout(p, tries, all).coded, all.len() as int),
    )
}

/// Stretches that are followed by enough data stay the same with more of it.
proof fn lemma_upto_more(p: Properties, tries: usize, all: Seq<u8>, more: Seq<u8>, k: nat)
    requires
        k == 0 || k * CHUNK + 273 <= all.len(),
    ensures
        upto(p, tries, all + more, k) == upto(p, tries, all, k),
    decreases k,
{
    if k > 0 {
        lemma_upto_more(p, tries, all, more, (k - 1) as nat);
        encode::lemma_span_more(
            p,
            tries,
            all,
            more,
            (k - 1) * CHUNK,
            k * CHUNK,
            0,
            upto(p, tries, all, (k - 1) as nat),
        );
    }
}

impl Marked {
    /// All data taken so far.
    pub closed spec fn taken(&self) -> Seq<u8> {
        self.window.all()
    }

    /// The parameters of the stream.
    pub closed spec fn properties(&self) -> Properties {
        self.props
    }

    /// How many places are looked at.
    pub closed spec fn depth(&self) -> usize {
        self.finder.tries()
    }

    spec fn now(&self) -> Span {
        Span { coded: self.encoder.coded(self.coder.enc()), places: self.finder.places() }
    }

    /// Whole stretches were encoded, and each before enough data.
    spec fn even(&self) -> bool {
        &&& self.at % CHUNK == 0
        &&& self.at > 0 ==> self.at + 274 <= self.window.all().len()
        &&& self.now() == upto(
            self.props,
            self.depth(),
            self.window.all(),
            (self.at / CHUNK) as nat,
        )
    }

    /// What is written so far is read as the data that was encoded.
    pub closed spec fn wf(&self) -> bool {
        &&& self.holds()
        &&& self.even()
    }

    /// The same, whatever was encoded last.
    spec fn holds(&self) -> bool {
        &&& self.coder.wf()
        &&& self.finder.wf()
        &&& self.window.wf()
        &&& self.at <= self.window.all().len()
        &&& self.window.all().len() <= MAX_TOTAL
        &&& self.encoder.wf(self.at as int)
        &&& self.encoder.properties() == self.props
        &&& syntax::props_ok(self.props)
        &&& self.window.first() == 0 || self.at - self.window.first() >= self.props.dict_size
        &&& encode::carries(
            self.props,
            Enc { n: 1, low: 0, range: 0xffff_ffff },
            syntax::fresh_mods(self.props),
            self.coder.enc(),
            self.encoder.mods(),
            Seq::empty(),
            self.window.all().take(self.at as int),
        )
    }

    /// Start a stream.
    pub fn new(props: Properties, depth: usize) -> (r: Self)
        requires
            syntax::props_ok(props),
        ensures
            r.wf(),
            r.properties() == props,
            r.taken() == Seq::<u8>::empty(),
            r.depth() == depth,
    {
        let span: usize = props.dict_size as usize;
        let r: Marked = Marked {
            coder: RangeEncoder::new(),
            encoder: Encoder::new(props),
            finder: Finder::new(span, span, depth),
            window: Sliding::new(span + MATCH_MAX_LEN as usize),
            props,
            at: 0,
        };
        proof {
            assert(r.window.all().take(0) =~= Seq::<u8>::empty());
            encode::lemma_carries_nothing(
                props,
                r.coder.enc(),
                r.encoder.mods(),
                Seq::empty(),
            );
            assert(r.encoder.wf(0));
        }
        r
    }

    /// Hand over more input, encoding whatever has become complete.
    pub fn push(&mut self, bytes: &[u8])
        requires
            old(self).wf(),
            old(self).taken().len() + bytes@.len() <= MAX_TOTAL,
            old(self).taken().len() + bytes@.len() <= usize::MAX,
        ensures
            final(self).wf(),
            final(self).properties() == old(self).properties(),
            final(self).taken() == old(self).taken() + bytes@,
            final(self).depth() == old(self).depth(),
    {
        let ghost done = self.window.all().take(self.at as int);
        let ghost before = self.window.all();
        self.window.push(bytes);
        assert(self.window.all().take(self.at as int) =~= done);
        proof {
            lemma_upto_more(
                self.props,
                self.depth(),
                before,
                bytes@,
                (self.at / CHUNK) as nat,
            );
        }
        self.drain(false);
    }

    /// How much was taken.
    pub fn len(&self) -> (r: usize)
        requires
            self.wf(),
        ensures
            r == self.taken().len(),
    {
        self.window.end()
    }

    /// Encode what is left and mark the end.
    pub fn finish(self) -> (body: Vec<u8>)
        requires
            self.wf(),
        ensures
            is_marked(body@, self.properties(), self.taken()),
            body@ == stream_of(self.properties(), self.depth(), self.taken()),
    {
        let mut this: Marked = self;
        this.drain(true);
        let at: usize = this.at;
        let ghost e1 = this.coder.enc();
        let ghost m1 = this.encoder.mods();
        let ghost p = this.props;
        let ghost all = this.window.all();
        this.encoder.encode_end_marker(at, &mut this.coder);
        let ghost e2 = this.coder.enc();
        let body: Vec<u8> = this.coder.finish();
        proof {
            reveal(encode::carries);
            assert(all.take(at as int) =~= all);
            let e0 = Enc { n: 1, low: 0, range: 0xffff_ffff };
            assert forall|tail: Seq<u8>| #[trigger]
                syntax::stream_ending(body@ + tail, p, None) matches Ending::Marker(t) && t.hist
                    == all && t.dec.coder.pos == body@.len() by {
                let data = body@ + tail;
                assert(range_encoder::accepts(data, e2));
                let s0 = encode::lz_of(
                    syntax::fresh_mods(p),
                    range_encoder::coder_for(data, e0),
                    Seq::empty(),
                );
                let s1 = encode::lz_of(m1, range_encoder::coder_for(data, e1), all);
                let limit = 0x1_0000_0000_0000_0000int;
                assert(range_encoder::accepts(data, e1));
                assert(syntax::run(data, p, s0, limit) == syntax::run(data, p, s1, limit));
                range_encoder::lemma_start(data);
                assert(s0 =~= syntax::fresh(range::start_coder(data), p, Seq::empty(), 0));
                assert(syntax::step(data, p, s1) is Marker);
            }
        }
        body
    }

    fn drain(&mut self, last: bool)
        requires
            old(self).wf(),
        ensures
            final(self).holds(),
            !last ==> final(self).even(),
            final(self).taken() == old(self).taken(),
            final(self).props == old(self).props,
            final(self).depth() == old(self).depth(),
            last ==> final(self).at == final(self).window.all().len() && final(self).now()
                == throughout(old(self).props, old(self).depth(), old(self).taken()),
    {
        proof {
            if last && self.at == self.window.all().len() {
                vstd::arithmetic::div_mod::lemma_fundamental_div_mod(
                    self.at as int,
                    CHUNK as int,
                );
            }
        }
        let reserve: usize = if last {
            0
        } else {
            MATCH_MAX_LEN as usize + 1
        };
        loop
            invariant_except_break
                self.holds(),
                self.taken() == old(self).taken(),
                self.props == old(self).props,
                self.depth() == old(self).depth(),
                last ==> reserve == 0,
                !last ==> reserve == 274 && self.even(),
                last ==> self.at == self.window.all().len() && self.now() == throughout(
                    self.props,
                    self.depth(),
                    self.window.all(),
                ) || self.at % CHUNK == 0 && self.now() == upto(
                    self.props,
                    self.depth(),
                    self.window.all(),
                    (self.at / CHUNK) as nat,
                ),
            ensures
                self.holds(),
                !last ==> self.even(),
                self.taken() == old(self).taken(),
                self.props == old(self).props,
                self.depth() == old(self).depth(),
                last ==> self.at == self.window.all().len() && self.now() == throughout(
                    self.props,
                    self.depth(),
                    self.window.all(),
                ),
            decreases self.window.all().len() - self.at,
        {
            let available: usize = self.window.end() - self.at;
            let usable: usize = if available > reserve {
                available - reserve
            } else {
                0
            };
            if usable == 0 || (!last && usable < CHUNK) {
                proof {
                    vstd::arithmetic::div_mod::lemma_fundamental_div_mod(
                        self.at as int,
                        CHUNK as int,
                    );
                }
                break;
            }
            proof {
                vstd::arithmetic::div_mod::lemma_fundamental_div_mod(self.at as int, CHUNK as int);
            }
            let end: usize = self.at + if usable < CHUNK {
                usable
            } else {
                CHUNK
            };
            let ghost e1 = self.coder.enc();
            let ghost m1 = self.encoder.mods();
            let ghost all = self.window.all();
            let ghost from = self.at as int;
            let feed: Feed = self.window.feed();
            self.encoder.encode_span(&feed, self.at, end, &mut self.finder, &mut self.coder);
            proof {
                encode::lemma_carries_trans(
                    self.props,
                    Enc { n: 1, low: 0, range: 0xffff_ffff },
                    syntax::fresh_mods(self.props),
                    e1,
                    m1,
                    self.coder.enc(),
                    self.encoder.mods(),
                    Seq::empty(),
                    all.take(from),
                    all.take(end as int),
                );
            }
            self.at = end;
        }
        let keep: usize = self.props.dict_size as usize + MATCH_MAX_LEN as usize;
        self.window.retain(self.at, keep);
    }
}

} // verus!
