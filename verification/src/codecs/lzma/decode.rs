//! Reading raw LZMA.
use crate::codecs::lzma::syntax;
use crate::codecs::lzma::syntax::{
    Ending, Lz, Mods, Outcome, IS_MATCH, IS_REP, IS_REP0_LONG, IS_REP_G0, IS_REP_G1, IS_REP_G2, LEN,
    LITERAL, LITERAL_SIZE, MAX_TOTAL, POS_ALIGN, POS_SLOT, POS_SPECIAL, REP_LEN,
};
pub use crate::codecs::lzma::syntax::Properties;
use crate::codecs::lzma::range;
use crate::codecs::lzma::range::{probs, Coder, Dec, Prob, RangeDecoder};
use crate::codecs::lzma::window::Window;
use crate::utils::bits;
use crate::utils::bytes;
use crate::utils::bytes::get_le32;
use crate::utils::error::{Error, Result};
use vstd::arithmetic::power2::*;
use vstd::prelude::*;

verus! {

/// The shortest match.
pub const MATCH_MIN_LEN: u32 = 2;

const OUT_CHUNK: u64 = 65_536;

const MAX_DICT: u32 = 0x4000_0000;

impl Properties {
    /// The parameters that a properties byte and a dictionary size stand for.
    pub fn from_byte(byte: u8, dict_size: u32) -> (r: Result<Self>)
        ensures
            match syntax::props_from(byte as int, dict_size as int) {
                Some(p) => r == Ok::<Self, Error>(p) && syntax::props_ok(p),
                None => r == Err::<Self, Error>(Error::Malformed),
            },
    {
        if byte >= 225 {
            return Err(Error::Malformed);
        }
        let value: u32 = byte as u32;
        let lc: u32 = value % 9;
        let rest: u32 = value / 9;
        let lp: u32 = rest % 5;
        let pb: u32 = rest / 5;
        if dict_size > MAX_DICT {
            return Err(Error::Malformed);
        }
        Ok(
            Properties {
                lc,
                lp,
                pb,
                dict_size: if dict_size > 4096 {
                    dict_size
                } else {
                    4096
                },
            },
        )
    }

    /// The same from the five bytes of a header.
    pub fn from_bytes(bytes: [u8; 5]) -> (r: Result<Self>)
        ensures
            match syntax::props_from(bytes@[0] as int, bytes::le(bytes@, 1, 4) as int) {
                Some(p) => r == Ok::<Self, Error>(p) && syntax::props_ok(p),
                None => r == Err::<Self, Error>(Error::Malformed),
            },
    {
        let dict: u32 = get_le32(bytes.as_slice(), 1);
        Properties::from_byte(bytes[0], dict)
    }
}

/// Why decoding stopped.
#[derive(Debug, Clone, Copy, PartialEq, Eq, Structural)]
pub enum Stop {
    /// Enough was produced.
    Limit,
    /// The end marker was found.
    Marker,
}

/// The model and the recent distances.
pub struct LzmaCore {
    props: Properties,
    model: Vec<Prob>,
    state: usize,
    reps: [u32; 4],
}

/// How many probabilities a model has.
pub(crate) fn model_size(props: Properties) -> (r: usize)
    requires
        syntax::props_ok(props),
    ensures
        r == syntax::model_len(props),
        r <= 0x40_0000,
{
    proof {
        lemma2_to64();
        lemma_pow2_strictly_increases((props.lc + props.lp) as nat, 13);
    }
    LITERAL + LITERAL_SIZE * bits::power_of_two(props.lc + props.lp) as usize
}

impl LzmaCore {
    /// The parameters.
    pub closed spec fn properties(&self) -> Properties {
        self.props
    }

    /// The model and the recent distances.
    pub closed spec fn mods(&self) -> Mods {
        Mods { probs: self.model@, state: self.state as int, reps: self.reps@ }
    }

    /// The whole state of decoding, with a coder and a dictionary.
    pub open spec fn lz(&self, c: Coder, hist: Seq<u8>, total: int) -> Lz {
        syntax::lz_with(self.mods(), c, hist, total)
    }

    /// The model has the right size, and the distances are in range.
    pub closed spec fn wf(&self) -> bool {
        &&& syntax::props_ok(self.props)
        &&& range::probs_ok(self.model@)
        &&& self.model@.len() == syntax::model_len(self.props)
        &&& self.state < 12
        &&& forall|i: int| 0 <= i < 4 ==> #[trigger] self.reps@[i] < self.props.dict_size
    }

    /// A model that has seen nothing.
    pub fn new(props: Properties) -> (r: Self)
        requires
            syntax::props_ok(props),
        ensures
            r.wf(),
            r.properties() == props,
            r.mods() == syntax::fresh_mods(props),
    {
        let model: Vec<Prob> = probs(model_size(props));
        let r: LzmaCore = LzmaCore { props, model, state: 0, reps: [0u32; 4] };
        proof {
            assert(r.model@ =~= syntax::fresh_probs(props));
            assert(r.reps@ =~= seq![0u32, 0, 0, 0]);
        }
        r
    }

    /// Forget everything seen.
    pub fn reset(&mut self, props: Properties)
        requires
            syntax::props_ok(props),
        ensures
            final(self).wf(),
            final(self).properties() == props,
            final(self).mods() == syntax::fresh_mods(props),
    {
        *self = LzmaCore::new(props);
    }

    /// The state of decoding with this decoder and this window.
    pub open spec fn at(&self, rc: &RangeDecoder, window: &Window) -> Lz {
        self.lz(rc.coder(), window.dictionary(), window.all().len() as int)
    }

    /// Decode until `limit` bytes are produced in all, or the end marker is
    /// found.
    pub fn decode(&mut self, rc: &mut RangeDecoder, window: &mut Window, limit: u64) -> (r: Result<
        Stop,
    >)
        requires
            old(self).wf(),
            old(rc).wf(),
            old(window).wf(),
            old(window).kept() >= old(self).properties().dict_size,
        ensures
            match syntax::run(
                old(rc).data(),
                old(self).properties(),
                old(self).at(old(rc), old(window)),
                limit as int,
            ) {
                Ending::Limit(t) => r == Ok::<Stop, Error>(Stop::Limit) && final(self).at(
                    final(rc),
                    final(window),
                ) == t,
                Ending::Marker(t) => r == Ok::<Stop, Error>(Stop::Marker) && final(self).at(
                    final(rc),
                    final(window),
                ) == t,
                Ending::Bad => r == Err::<Stop, Error>(Error::Malformed),
            },
            r is Ok ==> {
                &&& final(self).wf()
                &&& final(self).properties() == old(self).properties()
                &&& final(rc).wf()
                &&& final(rc).data() == old(rc).data()
                &&& final(window).wf()
                &&& final(window).kept() == old(window).kept()
                &&& final(window).delivered() == old(window).delivered()
                &&& final(window).all().len() - final(window).unread() == old(window).all().len()
                    - old(window).unread()
                &&& final(window).all().take(old(window).all().len() as int) == old(window).all()
                &&& final(window).all().len() <= if old(window).all().len() > limit + 272 {
                    old(window).all().len() as int
                } else {
                    limit + 272
                }
            },
    {
        let ghost data = rc.data();
        let ghost p = self.props;
        let ghost target = syntax::run(data, p, self.at(rc, window), limit as int);
        assert(window.all().take(window.all().len() as int) =~= window.all());
        while window.total() < limit
            invariant
                self.wf(),
                rc.wf(),
                window.wf(),
                window.kept() == old(window).kept(),
                window.kept() >= p.dict_size,
                self.props == p,
                p == old(self).properties(),
                rc.data() == data,
                data == old(rc).data(),
                syntax::run(data, p, self.at(rc, window), limit as int) == target,
                target == syntax::run(
                    old(rc).data(),
                    old(self).properties(),
                    old(self).at(old(rc), old(window)),
                    limit as int,
                ),
                window.delivered() == old(window).delivered(),
                window.all().len() - window.unread() == old(window).all().len() - old(
                    window,
                ).unread(),
                old(window).all().len() <= window.all().len(),
                window.all().take(old(window).all().len() as int) == old(window).all(),
                window.all().len() <= if old(window).all().len() > limit + 272 {
                    old(window).all().len() as int
                } else {
                    limit + 272
                },
            decreases limit + 273 - window.all().len(),
        {
            let ghost s = self.at(rc, window);
            let ghost before = window.all();
            proof {
                syntax::lemma_step_grows(data, p, s);
            }
            match self.symbol(rc, window) {
                Ok(None) => {},
                Ok(Some(stop)) => {
                    assert(window.all().take(old(window).all().len() as int) =~= window.all().take(
                        before.len() as int,
                    ).take(old(window).all().len() as int));
                    return Ok(stop);
                },
                Err(e) => {
                    return Err(e);
                },
            }
            proof {
                assert(window.all().take(old(window).all().len() as int) =~= window.all().take(
                    before.len() as int,
                ).take(old(window).all().len() as int));
            }
        }
        Ok(Stop::Limit)
    }

    /// Decode one symbol.
    fn symbol(&mut self, rc: &mut RangeDecoder, window: &mut Window) -> (r: Result<Option<Stop>>)
        requires
            old(self).wf(),
            old(rc).wf(),
            old(window).wf(),
            old(window).kept() >= old(self).props.dict_size,
        ensures
            match syntax::step(
                old(rc).data(),
                old(self).props,
                old(self).at(old(rc), old(window)),
            ) {
                Outcome::Next(t) => r == Ok::<Option<Stop>, Error>(None) && final(self).at(
                    final(rc),
                    final(window),
                ) == t,
                Outcome::Marker(t) => r == Ok::<Option<Stop>, Error>(Some(Stop::Marker))
                    && final(self).at(final(rc), final(window)) == t,
                Outcome::Bad => r == Err::<Option<Stop>, Error>(Error::Malformed),
            },
            r is Ok ==> final(self).wf() && final(self).props == old(self).props
                && final(rc).wf() && final(rc).data() == old(rc).data() && grown(
                *old(window),
                *final(window),
            ),
    {
        proof {
            reveal(syntax::step);
            lemma2_to64();
            if self.props.pb < 4 {
                lemma_pow2_strictly_increases(self.props.pb as nat, 4);
            }
            lemma_pow2_pos(self.props.pb as nat);
            lemma_pow2_pos((self.props.lc + self.props.lp) as nat);
        }
        if window.total() > MAX_TOTAL {
            return Err(Error::Malformed);
        }
        let pos_state: usize = (window.total() % bits::power_of_two(self.props.pb)) as usize;
        if rc.slot(&mut self.model, IS_MATCH + 16 * self.state + pos_state) == 0 {
            return match self.literal(rc, window) {
                Ok(_) => Ok(None),
                Err(e) => Err(e),
            };
        }
        if rc.slot(&mut self.model, IS_REP + self.state) != 0 {
            match self.repeated(rc, window, pos_state) {
                Ok(_) => Ok(None),
                Err(e) => Err(e),
            }
        } else {
            self.fresh_match(rc, window, pos_state)
        }
    }

    fn literal(&mut self, rc: &mut RangeDecoder, window: &mut Window) -> (r: Result<()>)
        requires
            old(self).wf(),
            old(rc).wf(),
            old(window).wf(),
            old(window).kept() >= old(self).props.dict_size,
            old(window).all().len() <= MAX_TOTAL,
        ensures
            match syntax::literal(
                old(rc).data(),
                old(self).props,
                old(self).at(old(rc), old(window)),
            ) {
                Outcome::Next(t) => r is Ok && final(self).at(final(rc), final(window)) == t,
                Outcome::Marker(t) => false,
                Outcome::Bad => r == Err::<(), Error>(Error::Malformed),
            },
            r is Ok ==> final(self).wf() && final(self).props == old(self).props
                && final(rc).wf() && final(rc).data() == old(rc).data() && grown(
                *old(window),
                *final(window),
            ),
    {
        let lc: u32 = self.props.lc;
        let lp: u32 = self.props.lp;
        let ghost data = rc.data();
        let ghost s0 = self.at(rc, window);
        let previous: u8 = window.last();
        proof {
            lemma_pow2_pos(lp as nat);
        }
        let low_bits: u64 = window.total() % bits::power_of_two(lp);
        proof {
            window.lemma_reach();
            syntax::lemma_literal_base(self.props, window.all().len() as int, previous as int);
            lemma2_to64();
            lemma_pow2_pos(lp as nat);
            if lp < 4 {
                lemma_pow2_strictly_increases(lp as nat, 4);
            }
            if lc < 8 {
                lemma_pow2_strictly_increases(lc as nat, 8);
            }
            assert(low_bits * pow2(lc as nat) <= 16 * 256) by (nonlinear_arith)
                requires
                    low_bits <= 16,
                    pow2(lc as nat) <= 256,
            ;
        }
        let context: usize = (low_bits * bits::power_of_two(lc)) as usize + bits::shift_right(
            previous as u64,
            8 - lc,
        ) as usize;
        let base: usize = LITERAL + LITERAL_SIZE * context;
        assert(base == syntax::literal_base(self.props, s0.total, syntax::previous_byte(s0.hist)));
        let mut matched: u32 = 0;
        let follow: bool = self.state >= 7;
        let ghost m: Option<int> = None;
        if follow {
            match window.back(self.reps[0] + 1) {
                Ok(b) => {
                    matched = 256 + b as u32;
                    proof {
                        m = Some(b as int);
                    }
                },
                Err(e) => {
                    return Err(e);
                },
            }
        }
        let symbol: u32 = Self::literal_bits(
            rc,
            &mut self.model,
            base,
            follow,
            matched,
        );
        window.push((symbol - 256) as u8);
        self.state = if self.state < 4 {
            0
        } else if self.state < 10 {
            self.state - 3
        } else {
            self.state - 6
        };
        proof {
            assert(window.all().take(old(window).all().len() as int) =~= old(window).all());
        }
        Ok(())
    }

    /// The bits of a literal, with a one in front.
    fn literal_bits(
        rc: &mut RangeDecoder,
        model: &mut Vec<Prob>,
        base: usize,
        follow: bool,
        matched: u32,
    ) -> (symbol: u32)
        requires
            old(rc).wf(),
            range::probs_ok(old(model)@),
            base + 0x300 <= old(model)@.len(),
            follow ==> 256 <= matched < 512,
        ensures
            final(rc).wf(),
            final(rc).data() == old(rc).data(),
            range::probs_ok(final(model)@),
            final(model)@.len() == old(model)@.len(),
            256 <= symbol < 512,
            (symbol as int, (Dec { coder: final(rc).coder(), probs: final(model)@ }))
                == syntax::literal_walked(
                old(rc).data(),
                Dec { coder: old(rc).coder(), probs: old(model)@ },
                base as int,
                if follow {
                    Some(matched - 256)
                } else {
                    None
                },
                8,
            ),
    {
        let ghost data = rc.data();
        let ghost d0 = Dec { coder: rc.coder(), probs: model@ };
        let ghost m: Option<int> = if follow {
            Some(matched - 256)
        } else {
            None
        };
        let len: usize = model.len();
        let mut symbol: u32 = 1;
        let mut k: u32 = 0;
        proof {
            lemma2_to64();
        }
        while k < 8
            invariant
                k <= 8,
                rc.wf(),
                rc.data() == data,
                data == old(rc).data(),
                range::probs_ok(model@),
                model.len() == len,
                len == old(model)@.len(),
                base + 0x300 <= len,
                follow ==> 256 <= matched < 512,
                m == if follow {
                    Some(matched - 256)
                } else {
                    None::<int>
                },
                d0 == (Dec { coder: old(rc).coder(), probs: old(model)@ }),
                pow2(k as nat) <= symbol < 2 * pow2(k as nat),
                (symbol as int, (Dec { coder: rc.coder(), probs: model@ }))
                    == syntax::literal_walked(data, d0, base as int, m, k as nat),
            decreases 8 - k,
        {
            proof {
                lemma2_to64();
                lemma_pow2_unfold((k + 1) as nat);
                if k < 7 {
                    lemma_pow2_strictly_increases(k as nat, 7);
                }
                lemma_pow2_pos((8 - k) as nat);
            }
            let mut at: usize = base + symbol as usize;
            if follow && bits::shift_right(matched as u64, 8 - k) == symbol as u64 {
                let next: u64 = bits::shift_right(matched as u64, 7 - k) % 2;
                at = base + 256 * (1 + next as usize) + symbol as usize;
            }
            assert(at == syntax::literal_slot(base as int, m, symbol as int, k as nat));
            symbol = 2 * symbol + rc.slot(model, at);
            k = k + 1;
        }
        symbol
    }

    #[verifier::rlimit(60)]
    #[verifier::spinoff_prover]
    fn repeated(&mut self, rc: &mut RangeDecoder, window: &mut Window, pos_state: usize) -> (r:
        Result<()>)
        requires
            old(self).wf(),
            old(rc).wf(),
            old(window).wf(),
            old(window).kept() >= old(self).props.dict_size,
            old(window).all().len() <= MAX_TOTAL,
            pos_state < 16,
        ensures
            match syntax::repeated(
                old(rc).data(),
                old(self).at(old(rc), old(window)),
                pos_state as int,
            ) {
                Outcome::Next(t) => r is Ok && final(self).at(final(rc), final(window)) == t,
                Outcome::Marker(t) => false,
                Outcome::Bad => r == Err::<(), Error>(Error::Malformed),
            },
            r is Ok ==> final(self).wf() && final(self).props == old(self).props
                && final(rc).wf() && final(rc).data() == old(rc).data() && grown(
                *old(window),
                *final(window),
            ),
    {
        let ghost s0 = self.at(rc, window);
        let ghost data = rc.data();
        proof {
            lemma_pow2_pos((self.props.lc + self.props.lp) as nat);
            window.lemma_reach();
        }
        if window.is_empty() {
            return Err(Error::Malformed);
        }
        let r0: u32 = self.reps[0];
        let r1: u32 = self.reps[1];
        let r2: u32 = self.reps[2];
        let r3: u32 = self.reps[3];
        assert(r0 < self.props.dict_size && r1 < self.props.dict_size && r2 < self.props.dict_size
            && r3 < self.props.dict_size);
        if rc.slot(&mut self.model, IS_REP_G0 + self.state) == 0 {
            if rc.slot(&mut self.model, IS_REP0_LONG + 16 * self.state + pos_state) == 0 {
                match window.back(r0 + 1) {
                    Ok(b) => {
                        window.push(b);
                    },
                    Err(e) => {
                        return Err(e);
                    },
                }
                self.state = if self.state < 7 {
                    9
                } else {
                    11
                };
                assert(window.all().take(old(window).all().len() as int) =~= old(window).all());
                return Ok(());
            }
            assert(self.reps@ =~= s0.reps);
        } else if rc.slot(&mut self.model, IS_REP_G1 + self.state) == 0 {
            self.reps = [r1, r0, r2, r3];
            assert(self.reps@ =~= seq![s0.reps[1], s0.reps[0], s0.reps[2], s0.reps[3]]);
        } else if rc.slot(&mut self.model, IS_REP_G2 + self.state) == 0 {
            self.reps = [r2, r0, r1, r3];
            assert(self.reps@ =~= seq![s0.reps[2], s0.reps[0], s0.reps[1], s0.reps[3]]);
        } else {
            self.reps = [r3, r0, r1, r2];
            assert(self.reps@ =~= seq![s0.reps[3], s0.reps[0], s0.reps[1], s0.reps[2]]);
        }
        let ghost d = Dec { coder: rc.coder(), probs: self.model@ };
        proof {
            syntax::lemma_length(data, d, 1333, pos_state as int);
        }
        let len: u32 = Self::length(rc, &mut self.model, REP_LEN, pos_state);
        self.state = if self.state < 7 {
            8
        } else {
            11
        };
        let ghost here = self.lz(rc.coder(), window.dictionary(), window.all().len() as int);
        assert(syntax::repeated(data, s0, pos_state as int) == syntax::matched(here, len as int));
        self.copy(window, len)
    }

    fn copy(&mut self, window: &mut Window, len: u32) -> (r: Result<()>)
        requires
            old(self).wf(),
            old(window).wf(),
            old(window).kept() >= old(self).props.dict_size,
            old(window).all().len() <= MAX_TOTAL,
            len <= 271,
        ensures
            *final(self) == *old(self),
            forall|c: Coder|
                match #[trigger] syntax::matched(
                    old(self).lz(c, old(window).dictionary(), old(window).all().len() as int),
                    len as int,
                ) {
                    Outcome::Next(t) => r is Ok && t == old(self).lz(
                        c,
                        final(window).dictionary(),
                        final(window).all().len() as int,
                    ),
                    Outcome::Marker(t) => false,
                    Outcome::Bad => r == Err::<(), Error>(Error::Malformed),
                },
            r is Ok ==> grown(*old(window), *final(window)),
    {
        proof {
            window.lemma_reach();
            assert(self.reps@[0] < self.props.dict_size);
            crate::utils::lz::lemma_copied_prefix(
                window.all(),
                self.reps@[0] as int + 1,
                (len + 2) as nat,
            );
        }
        window.copy_match(self.reps[0] + 1, len + MATCH_MIN_LEN)
    }

    #[verifier::rlimit(60)]
    #[verifier::spinoff_prover]
    fn fresh_match(&mut self, rc: &mut RangeDecoder, window: &mut Window, pos_state: usize) -> (r:
        Result<Option<Stop>>)
        requires
            old(self).wf(),
            old(rc).wf(),
            old(window).wf(),
            old(window).kept() >= old(self).props.dict_size,
            old(window).all().len() <= MAX_TOTAL,
            pos_state < 16,
        ensures
            match syntax::fresh_match(
                old(rc).data(),
                old(self).props,
                old(self).at(old(rc), old(window)),
                pos_state as int,
            ) {
                Outcome::Next(t) => r == Ok::<Option<Stop>, Error>(None) && final(self).at(
                    final(rc),
                    final(window),
                ) == t,
                Outcome::Marker(t) => r == Ok::<Option<Stop>, Error>(Some(Stop::Marker))
                    && final(self).at(final(rc), final(window)) == t,
                Outcome::Bad => r == Err::<Option<Stop>, Error>(Error::Malformed),
            },
            r is Ok ==> final(self).wf() && final(self).props == old(self).props
                && final(rc).wf() && final(rc).data() == old(rc).data() && grown(
                *old(window),
                *final(window),
            ),
    {
        let ghost s0 = self.at(rc, window);
        let ghost data = rc.data();
        let r0: u32 = self.reps[0];
        let r1: u32 = self.reps[1];
        let r2: u32 = self.reps[2];
        proof {
            lemma_pow2_pos((self.props.lc + self.props.lp) as nat);
            assert(r0 < self.props.dict_size && r1 < self.props.dict_size && r2
                < self.props.dict_size);
            syntax::lemma_length(data, s0.dec, 819, pos_state as int);
        }
        let len: u32 = Self::length(rc, &mut self.model, LEN, pos_state);
        self.state = if self.state < 7 {
            7
        } else {
            10
        };
        let distance: u32 = Self::distance(rc, &mut self.model, len);
        if distance == 0xffff_ffff {
            self.reps = [r0, r0, r1, r2];
            assert(self.reps@ =~= seq![r0, r0, r1, r2]);
            assert(window.all().take(window.all().len() as int) =~= window.all());
            return Ok(Some(Stop::Marker));
        }
        if distance >= self.props.dict_size {
            return Err(Error::Malformed);
        }
        self.reps = [distance, r0, r1, r2];
        assert(self.reps@ =~= seq![distance, r0, r1, r2]);
        let ghost here = self.lz(rc.coder(), window.dictionary(), window.all().len() as int);
        assert(syntax::fresh_match(data, self.props, s0, pos_state as int) == syntax::matched(
            here,
            len as int,
        ));
        match self.copy(window, len) {
            Ok(_) => Ok(None),
            Err(e) => Err(e),
        }
    }

    fn length(rc: &mut RangeDecoder, model: &mut Vec<Prob>, base: usize, pos_state: usize) -> (r:
        u32)
        requires
            old(rc).wf(),
            range::probs_ok(old(model)@),
            base + 514 <= old(model).len(),
            pos_state < 16,
        ensures
            final(rc).wf(),
            final(rc).data() == old(rc).data(),
            range::probs_ok(final(model)@),
            final(model)@.len() == old(model)@.len(),
            (r as int, (Dec { coder: final(rc).coder(), probs: final(model)@ })) == syntax::length(
                old(rc).data(),
                Dec { coder: old(rc).coder(), probs: old(model)@ },
                base as int,
                pos_state as int,
            ),
            r <= 271,
    {
        proof {
            reveal(syntax::length);
        }
        proof {
            lemma2_to64();
        }
        if rc.slot(model, base) == 0 {
            return rc.tree(model, base + 2 + 8 * pos_state, 3);
        }
        if rc.slot(model, base + 1) == 0 {
            return 8 + rc.tree(model, base + 130 + 8 * pos_state, 3);
        }
        16 + rc.tree(model, base + 258, 8)
    }

    fn distance(rc: &mut RangeDecoder, model: &mut Vec<Prob>, len: u32) -> (r: u32)
        requires
            old(rc).wf(),
            range::probs_ok(old(model)@),
            1847 <= old(model)@.len(),
        ensures
            final(rc).wf(),
            final(rc).data() == old(rc).data(),
            range::probs_ok(final(model)@),
            final(model)@.len() == old(model)@.len(),
            (r as int, (Dec { coder: final(rc).coder(), probs: final(model)@ }))
                == syntax::distance(
                old(rc).data(),
                Dec { coder: old(rc).coder(), probs: old(model)@ },
                len as int,
            ),
    {
        proof {
            reveal(syntax::distance);
        }
        let len_state: usize = if len < 3 {
            len as usize
        } else {
            3
        };
        proof {
            lemma2_to64();
        }
        let slot: u32 = rc.tree(model, POS_SLOT + 64 * len_state, 6);
        if slot < 4 {
            return slot;
        }
        let width: u32 = slot / 2 - 1;
        proof {
            syntax::lemma_slot_span(slot as int);
        }
        let base: u32 = (2 + slot % 2) * bits::power_of_two(width) as u32;
        if slot < 14 {
            base + rc.tree_reverse(model, POS_SPECIAL + (base - slot) as usize, width)
        } else {
            let high: u32 = rc.direct_bits(width - 4);
            let low: u32 = rc.tree_reverse(model, POS_ALIGN, 4);
            proof {
                syntax::lemma_slot_room(slot as int, high as int, low as int);
            }
            base + 16 * high + low
        }
    }
}

/// What decoding does to a window: it only adds to what was produced.
spec fn grown(a: Window, b: Window) -> bool {
    &&& b.wf()
    &&& b.kept() == a.kept()
    &&& b.delivered() == a.delivered()
    &&& b.all().len() - b.unread() == a.all().len() - a.unread()
    &&& b.all().len() >= a.all().len()
    &&& b.all().take(a.all().len() as int) == a.all()
}

/// Decodes a raw LZMA stream piece by piece.
pub struct LzmaDecoder {
    rc: RangeDecoder,
    core: LzmaCore,
    window: Window,
    expected: Option<u64>,
    finished: bool,
}

impl LzmaDecoder {
    /// The bytes it decodes.
    pub closed spec fn input(&self) -> Seq<u8> {
        self.rc.data()
    }

    /// The parameters of the stream.
    pub closed spec fn properties(&self) -> Properties {
        self.core.properties()
    }

    /// How much output is expected.
    pub closed spec fn wanted(&self) -> Option<u64> {
        self.expected
    }

    /// What the whole stream decodes to.
    pub open spec fn stream(&self) -> Option<Seq<u8>> {
        syntax::stream(self.input(), self.properties(), self.wanted())
    }

    /// What the whole stream holds, or where it cannot be decoded to its end,
    /// what it holds before the fault.
    pub open spec fn held(&self) -> Seq<u8> {
        syntax::held(self.input(), self.properties(), self.wanted())
    }

    /// How the whole stream ends.
    pub open spec fn ending(&self) -> Ending {
        syntax::stream_ending(self.input(), self.properties(), self.wanted())
    }

    /// What was read so far.
    pub closed spec fn delivered(&self) -> Seq<u8> {
        self.window.delivered()
    }

    /// Whether the end of the stream was reached and everything was read.
    pub closed spec fn done(&self) -> bool {
        self.finished && self.window.unread() == 0
    }

    /// Where the range decoder stands.
    pub closed spec fn coder(&self) -> Coder {
        self.rc.coder()
    }

    /// The decoder stands somewhere in the stream that it was given.
    pub closed spec fn wf(&self) -> bool {
        &&& self.rc.wf()
        &&& self.core.wf()
        &&& self.window.wf()
        &&& self.window.kept() >= self.core.properties().dict_size
        &&& self.rc.data().len() >= 5
        &&& self.window.dictionary() == self.window.all()
        &&& if self.finished {
            ||| self.ending() == Ending::Limit(self.core.at(&self.rc, &self.window))
            ||| self.ending() == Ending::Marker(self.core.at(&self.rc, &self.window))
        } else {
            self.ending() == syntax::run(
                self.rc.data(),
                self.core.properties(),
                self.core.at(&self.rc, &self.window),
                syntax::limit_of(self.expected),
            )
        }
        &&& self.held() == if self.finished {
            self.window.all()
        } else {
            syntax::reached(
                self.rc.data(),
                self.core.properties(),
                self.core.at(&self.rc, &self.window),
                syntax::limit_of(self.expected),
            )
        }
    }

    /// How much reading is left at most.
    pub closed spec fn budget(&self) -> nat {
        if self.window.all().len() > 0x1_0000_0000_0000_0000 {
            0
        } else {
            (2 * (0x1_0000_0000_0000_0000 - self.window.all().len()) + self.window.unread()) as nat
        }
    }

    /// What was read is a start of what the stream decodes to; at the end it
    /// is all of it.
    pub proof fn lemma_delivered(&self)
        requires
            self.wf(),
        ensures
            self.stream() matches Some(all) ==> self.delivered().is_prefix_of(all) && self.held()
                == all,
            self.delivered().is_prefix_of(self.held()),
            self.done() ==> self.stream() == Some(self.delivered()),
            self.delivered().len() <= u64::MAX,
            0 <= self.coder().pos,
            self.done() ==> match self.ending() {
                Ending::Limit(t) => t.dec.coder == self.coder(),
                Ending::Marker(t) => t.dec.coder == self.coder(),
                Ending::Bad => false,
            },
    {
        let s = self.core.at(&self.rc, &self.window);
        self.window.lemma_reach();
        self.rc.lemma_wf();
        syntax::lemma_run_extends(
            self.rc.data(),
            self.core.properties(),
            s,
            syntax::limit_of(self.expected),
        );
        let out = self.window.all();
        let h = self.held();
        assert(out.take(out.len() as int) =~= out);
        assert(self.delivered() =~= h.take(out.len() as int).take(self.delivered().len() as int));
        assert(self.delivered() =~= h.take(self.delivered().len() as int));
        if let Some(all) = self.stream() {
            assert(out.is_prefix_of(all)) by {
                if self.finished {
                    assert(out.take(out.len() as int) =~= out);
                }
            }
            assert(self.delivered() =~= all.take(self.delivered().len() as int));
        }
        if self.done() {
            assert(self.delivered() =~= out);
        }
    }

    /// Bytes of the compressed input the stream actually used.
    ///
    /// A container with a trailer, such as lzip, needs this to find it.
    pub fn consumed(&self) -> (r: usize)
        requires
            self.wf(),
        ensures
            r == if self.coder().pos <= self.input().len() {
                self.coder().pos
            } else {
                self.input().len() as int
            },
    {
        self.rc.consumed()
    }

    /// The input back along with the bytes the stream did not use.
    pub fn into_parts(self) -> (r: (Vec<u8>, Vec<u8>))
        requires
            self.wf(),
        ensures
            r.0@ == self.input(),
            r.1@ == self.input().skip(
                if self.coder().pos <= self.input().len() {
                    self.coder().pos
                } else {
                    self.input().len() as int
                },
            ),
    {
        self.rc.into_parts()
    }

    /// A decoder of the raw stream `inner`. It fails where that is too short
    /// to start.
    pub fn new(inner: Vec<u8>, props: Properties, expected: Option<u64>) -> (r: Result<Self>)
        requires
            syntax::props_ok(props),
        ensures
            r is Ok <==> inner@.len() >= 5,
            r matches Ok(d) ==> d.wf() && d.input() == inner@ && d.properties() == props
                && d.wanted() == expected && d.delivered() == Seq::<u8>::empty(),
            r matches Err(e) ==> e == Error::Malformed,
    {
        match RangeDecoder::new(inner) {
            Err(e) => Err(e),
            Ok(rc) => {
                let d: LzmaDecoder = LzmaDecoder {
                    rc,
                    core: LzmaCore::new(props),
                    window: Window::new(props.dict_size as usize),
                    expected,
                    finished: false,
                };
                assert(d.window.delivered() =~= Seq::<u8>::empty());
                Ok(d)
            },
        }
    }

    /// Decode some more. It makes progress or reaches the end.
    fn produce(&mut self) -> (r: Result<()>)
        requires
            old(self).wf(),
            !old(self).finished,
            old(self).window.unread() == 0,
        ensures
            r is Ok ==> {
                &&& final(self).wf()
                &&& final(self).input() == old(self).input()
                &&& final(self).properties() == old(self).properties()
                &&& final(self).wanted() == old(self).wanted()
                &&& final(self).delivered() == old(self).delivered()
                &&& final(self).budget() <= old(self).budget()
                &&& final(self).finished || (final(self).window.unread() > 0 && final(self).budget()
                    < old(self).budget())
            },
            r matches Err(e) ==> e == Error::Malformed && old(self).stream() is None,
    {
        self.window.drain();
        let ghost data = self.rc.data();
        let ghost p = self.core.properties();
        let ghost s = self.core.at(&self.rc, &self.window);
        assert(self.window.delivered() == old(self).window.delivered());
        let total: u64 = self.window.total();
        let mut limit: u64 = 0;
        match self.expected {
            Some(want) => {
                if total >= want {
                    self.finished = true;
                    return Ok(());
                }
                limit = if want - total < OUT_CHUNK {
                    want
                } else {
                    total + OUT_CHUNK
                };
            },
            None => {
                limit = if total < 0xffff_ffff_ffff_ffff - OUT_CHUNK {
                    total + OUT_CHUNK
                } else {
                    0xffff_ffff_ffff_ffff
                };
                if total == 0xffff_ffff_ffff_ffff {
                    proof {
                        assert(self.stream() is None) by {
                            syntax::lemma_run_bounded(data, p, s);
                            reveal(syntax::step);
                        }
                    }
                    return Err(Error::Malformed);
                }
            },
        }
        proof {
            syntax::lemma_run_resume(
                data,
                p,
                s,
                limit as int,
                syntax::limit_of(self.expected),
            );
            syntax::lemma_run_extends(data, p, s, limit as int);
            lemma_run_reaches(data, p, s, limit as int);
        }
        match self.core.decode(&mut self.rc, &mut self.window, limit) {
            Err(e) => Err(e),
            Ok(stop) => {
                if stop == Stop::Marker {
                    self.finished = true;
                }
                proof {
                    self.window.lemma_reach();
                    assert(self.window.dictionary() =~= self.window.all());
                }
                Ok(())
            },
        }
    }

    /// Read the next bytes of the output into `buf`. Nothing is read only at
    /// the end of the stream.
    pub fn read(&mut self, buf: &mut [u8]) -> (r: Result<usize>)
        requires
            old(self).wf(),
        ensures
            final(buf)@.len() == old(buf)@.len(),
            r matches Ok(n) ==> {
                &&& final(self).wf()
                &&& final(self).input() == old(self).input()
                &&& final(self).properties() == old(self).properties()
                &&& final(self).wanted() == old(self).wanted()
                &&& n <= old(buf)@.len()
                &&& final(self).delivered() == old(self).delivered() + final(buf)@.take(n as int)
                &&& final(buf)@.skip(n as int) == old(buf)@.skip(n as int)
                &&& n == 0 && old(buf)@.len() > 0 ==> final(self).done()
                &&& n > 0 ==> final(self).budget() < old(self).budget()
            },
            r matches Err(e) ==> e == Error::Malformed && old(self).stream() is None && old(
                self,
            ).delivered().is_prefix_of(old(self).held()),
    {
        if buf.len() == 0 {
            assert(buf@.take(0) =~= Seq::<u8>::empty());
            return Ok(0);
        }
        proof {
            self.lemma_delivered();
        }
        if self.window.pending() == 0 && !self.finished {
            if let Err(e) = self.produce() {
                return Err(e);
            }
        }
        proof {
            self.window.lemma_reach();
        }
        let n: usize = self.window.take(buf);
        Ok(n)
    }

    /// Everything that is left.
    pub fn read_to_end(&mut self) -> (r: Result<Vec<u8>>)
        requires
            old(self).wf(),
            old(self).delivered() == Seq::<u8>::empty(),
        ensures
            match old(self).stream() {
                Some(all) => r matches Ok(out) && out@ == all && final(self).wf() && final(
                self).done() && final(self).input() == old(self).input() && final(
                self).properties() == old(self).properties() && final(self).wanted() == old(
                self).wanted(),
                None => r matches Err(e) && e == Error::Malformed,
            },
    {
        let mut out: Vec<u8> = Vec::new();
        let mut chunk: Vec<u8> = vec![0u8; 4096];
        loop
            invariant
                self.wf(),
                self.input() == old(self).input(),
                self.properties() == old(self).properties(),
                self.wanted() == old(self).wanted(),
                out@ == self.delivered(),
                chunk@.len() == 4096,
            decreases self.budget(),
        {
            match self.read(chunk.as_mut_slice()) {
                Err(e) => {
                    return Err(e);
                },
                Ok(n) => {
                    if n == 0 {
                        proof {
                            self.lemma_delivered();
                            assert(out@ + chunk@.take(0) =~= out@);
                        }
                        return Ok(out);
                    }
                    out.extend_from_slice(&chunk.as_slice()[0..n]);
                    assert(out@ =~= self.delivered());
                },
            }
        }
    }
}

/// Decoding up to a limit reaches it.
proof fn lemma_run_reaches(
    data: Seq<u8>,
    p: Properties,
    s: Lz,
    limit: int,
)
    ensures
        syntax::run(data, p, s, limit) matches Ending::Limit(t) ==> t.total >= limit,
    decreases limit + 273 - s.total,
{
    if s.total < limit {
        syntax::lemma_step_grows(data, p, s);
        if let Outcome::Next(t) = syntax::step(data, p, s) {
            lemma_run_reaches(data, p, t, limit);
        }
    }
}

} // verus!
