//! Writing raw LZMA.
use crate::codecs::lzma::decode::model_size;
use crate::codecs::lzma::range;
use crate::codecs::lzma::range::{probs, Coder, Dec, Prob};
use crate::codecs::lzma::range_encoder;
use crate::codecs::lzma::range_encoder::{Enc, Put};
pub use crate::codecs::lzma::range_encoder::RangeEncoder;
use crate::codecs::lzma::syntax;
use crate::codecs::lzma::syntax::{
    Ending, Lz, Mods, Outcome, Properties, IS_MATCH, IS_REP, IS_REP0_LONG, IS_REP_G0, IS_REP_G1,
    IS_REP_G2, LEN, LITERAL, LITERAL_SIZE, MAX_TOTAL, POS_ALIGN, POS_SLOT, POS_SPECIAL, REP_LEN,
};
use crate::codecs::matching;
use crate::codecs::matching::{Places, NO_PLACE};
use crate::codecs::sliding::Feed;
use crate::codecs::Level;
use crate::utils::bits;
use crate::utils::lz;
use vstd::arithmetic::power2::*;
use vstd::prelude::*;

verus! {

/// The shortest match.
pub const MATCH_MIN_LEN: u32 = 2;

/// The longest match.
pub const MATCH_MAX_LEN: u32 = 273;

pub const HASH_SIZE: usize = 262_144;

/// How fast the search gives up on a stretch that keeps yielding literals.
///
/// After enough literals in a row the encoder searches only every other
/// position, then every third, and so on, which is what keeps incompressible
/// input from costing a full hash chain walk per byte. Any match resets it.
const SKIP_SPAN: usize = 64;

/// The decoder's state that goes with it.
pub open spec fn lz_of(m: Mods, c: Coder, hist: Seq<u8>) -> Lz {
    syntax::lz_with(m, c, hist, hist.len() as int)
}

/// Whether what was written between two states is read as one symbol that
/// takes the dictionary from `hist` to `next`.
#[verifier::opaque]
pub open spec fn steps(
    p: Properties,
    e0: Enc,
    m0: Mods,
    e1: Enc,
    m1: Mods,
    hist: Seq<u8>,
    next: Seq<u8>,
) -> bool {
    forall|data: Seq<u8>| #[trigger]
        range_encoder::accepts(data, e1) ==> range_encoder::accepts(data, e0) && syntax::step(
            data,
            p,
            lz_of(m0, range_encoder::coder_for(data, e0), hist),
        ) == Outcome::Next(lz_of(m1, range_encoder::coder_for(data, e1), next))
}

/// Whether what was written between two states is read as the bytes that take
/// the dictionary from `hist` to `next`.
#[verifier::opaque]
pub open spec fn carries(
    p: Properties,
    e0: Enc,
    m0: Mods,
    e1: Enc,
    m1: Mods,
    hist: Seq<u8>,
    next: Seq<u8>,
) -> bool {
    forall|data: Seq<u8>, limit: int|
        #![trigger range_encoder::accepts(data, e1), syntax::run(data, p, lz_of(m0, range_encoder::coder_for(data, e0), hist), limit)]
        range_encoder::accepts(data, e1) && limit >= next.len() ==> range_encoder::accepts(data, e0)
            && syntax::run(
            data,
            p,
            lz_of(m0, range_encoder::coder_for(data, e0), hist),
            limit,
        ) == syntax::run(
            data,
            p,
            lz_of(m1, range_encoder::coder_for(data, e1), next),
            limit,
        )
}

/// Nothing written reads as nothing.
pub proof fn lemma_carries_nothing(p: Properties, e: Enc, m: Mods, hist: Seq<u8>)
    ensures
        carries(p, e, m, e, m, hist, hist),
{
    reveal(carries);
}

/// One more symbol.
pub proof fn lemma_carries_step(
    p: Properties,
    e0: Enc,
    m0: Mods,
    e1: Enc,
    m1: Mods,
    e2: Enc,
    m2: Mods,
    hist: Seq<u8>,
    mid: Seq<u8>,
    next: Seq<u8>,
)
    requires
        carries(p, e0, m0, e1, m1, hist, mid),
        steps(p, e1, m1, e2, m2, mid, next),
        mid.len() < next.len(),
    ensures
        carries(p, e0, m0, e2, m2, hist, next),
{
    reveal(carries);
    reveal(steps);
    assert forall|data: Seq<u8>, limit: int|
        #![trigger range_encoder::accepts(data, e2), syntax::run(data, p, lz_of(m0, range_encoder::coder_for(data, e0), hist), limit)]
        range_encoder::accepts(data, e2) && limit >= next.len() implies range_encoder::accepts(
        data,
        e0,
    ) && syntax::run(data, p, lz_of(m0, range_encoder::coder_for(data, e0), hist), limit)
        == syntax::run(data, p, lz_of(m2, range_encoder::coder_for(data, e2), next), limit) by {
        let s = lz_of(m1, range_encoder::coder_for(data, e1), mid);
        let t = lz_of(m2, range_encoder::coder_for(data, e2), next);
        assert(range_encoder::accepts(data, e1));
        syntax::lemma_run_step(data, p, s, t, limit);
    }
}

/// A stream written in stretches: two that follow one another, the second
/// going on where the first left the coder and the model, are one stretch
/// that adds the bytes of both.
pub proof fn lemma_carries_trans(
    p: Properties,
    e0: Enc,
    m0: Mods,
    e1: Enc,
    m1: Mods,
    e2: Enc,
    m2: Mods,
    hist: Seq<u8>,
    mid: Seq<u8>,
    next: Seq<u8>,
)
    requires
        carries(p, e0, m0, e1, m1, hist, mid),
        carries(p, e1, m1, e2, m2, mid, next),
        mid.len() <= next.len(),
    ensures
        carries(p, e0, m0, e2, m2, hist, next),
{
    reveal(carries);
    assert forall|data: Seq<u8>, limit: int|
        #![trigger range_encoder::accepts(data, e2), syntax::run(data, p, lz_of(m0, range_encoder::coder_for(data, e0), hist), limit)]
        range_encoder::accepts(data, e2) && limit >= next.len() implies range_encoder::accepts(
        data,
        e0,
    ) && syntax::run(data, p, lz_of(m0, range_encoder::coder_for(data, e0), hist), limit)
        == syntax::run(data, p, lz_of(m2, range_encoder::coder_for(data, e2), next), limit) by {
        let s = lz_of(m1, range_encoder::coder_for(data, e1), mid);
        assert(syntax::run(data, p, s, limit) == syntax::run(
            data,
            p,
            lz_of(m2, range_encoder::coder_for(data, e2), next),
            limit,
        ));
        assert(range_encoder::accepts(data, e1));
    }
}

/// The hash of the four bytes at `at`.
pub open spec fn hash_at(all: Seq<u8>, at: int) -> int {
    let quad = all[at] + 256 * all[at + 1] + 65536 * all[at + 2] + 0x100_0000 * all[at + 3];
    ((quad as u32).wrapping_mul(2_654_435_761) / 16384) as int
}

/// How many places an input of `len` bytes with a dictionary of `window`
/// bytes is worth, rounded down to a power of two.
pub open spec fn span_for(len: int, window: int) -> nat {
    let most = if window > 1 {
        window
    } else {
        1
    };
    let wanted = if len < 1 {
        1
    } else if len > most {
        most
    } else {
        len
    };
    pow2(bits::log2(wanted as nat))
}

/// Finds earlier places where the same four bytes stand.
pub struct Finder {
    head: Vec<u32>,
    chain: Vec<u32>,
    depth: usize,
}

impl Finder {
    /// The tables have their sizes.
    pub closed spec fn wf(&self) -> bool {
        self.head@.len() == HASH_SIZE && self.chain@.len() > 0
    }

    /// The places that were remembered.
    pub closed spec fn places(&self) -> Places {
        Places { heads: self.head@, links: self.chain@ }
    }

    /// How many places are looked at.
    pub closed spec fn tries(&self) -> usize {
        self.depth
    }

    /// A finder for an input of `len` bytes with a dictionary of `window`.
    pub fn new(len: usize, window: usize, depth: usize) -> (r: Self)
        ensures
            r.wf(),
            r.places() == matching::no_places(
                HASH_SIZE as nat,
                span_for(len as int, window as int),
            ),
            r.tries() == depth,
    {
        let most: usize = if window > 1 {
            window
        } else {
            1
        };
        let wanted: usize = if len < 1 {
            1
        } else if len > most {
            most
        } else {
            len
        };
        let mut span: usize = 1;
        let ghost mut k: nat = 0;
        proof {
            lemma2_to64();
        }
        while span <= wanted / 2
            invariant
                1 <= span,
                wanted >= 1,
                span <= wanted,
                span == pow2(k),
            decreases wanted - span,
        {
            proof {
                lemma_pow2_unfold(k + 1);
                k = k + 1;
            }
            span = span * 2;
        }
        proof {
            lemma_pow2_unfold(k + 1);
            bits::lemma_log2_unique(wanted as nat, k);
        }
        let head: Vec<u32> = vec![NO_PLACE; HASH_SIZE];
        let chain: Vec<u32> = vec![NO_PLACE; span];
        let r: Finder = Finder { head, chain, depth };
        assert(r.places().heads =~= Seq::new(HASH_SIZE as nat, |i: int| NO_PLACE));
        assert(r.places().links =~= Seq::new(span as nat, |i: int| NO_PLACE));
        r
    }

    fn hash(feed: &Feed, at: usize) -> (r: usize)
        requires
            feed.wf(),
            feed.first() <= at,
            at + 4 <= feed.all().len(),
        ensures
            r < HASH_SIZE,
            r == hash_at(feed.all(), at as int),
    {
        proof {
            feed.lemma_wf();
        }
        let quad: u32 = feed.get(at) as u32 + 256 * (feed.get(at + 1) as u32) + 65536 * (feed.get(
            at + 2,
        ) as u32) + 0x100_0000 * (feed.get(at + 3) as u32);
        (quad.wrapping_mul(2_654_435_761) / 16384) as usize
    }

    /// Remember a position.
    pub fn insert(&mut self, feed: &Feed, at: usize)
        requires
            old(self).wf(),
            feed.wf(),
            feed.first() <= at,
        ensures
            final(self).wf(),
            final(self).tries() == old(self).tries(),
            final(self).places() == if at + 4 <= feed.all().len() {
                matching::remembered(
                    old(self).places(),
                    hash_at(feed.all(), at as int),
                    at as int,
                )
            } else {
                old(self).places()
            },
    {
        if at >= feed.end() || feed.end() - at < 4 {
            return;
        }
        let slot: usize = Self::hash(feed, at);
        let span: usize = self.chain.len();
        self.chain[at % span] = self.head[slot];
        self.head[slot] = (at as u64 % 0x1_0000_0000) as u32;
    }

    fn longest(&self, feed: &Feed, at: usize, window: usize, best_already: u32) -> (r: Option<
        (u32, u32),
    >)
        requires
            self.wf(),
            feed.wf(),
            feed.first() <= at <= feed.all().len(),
            window <= 0x4000_0000,
        ensures
            r matches Some((dist, len)) ==> 1 <= dist <= window && dist <= at - feed.first() && 2
                <= len <= 273 && best_already < len && at + len <= feed.all().len() && agree(
                feed.all(),
                at - dist,
                at as int,
                len as int,
            ),
            r == longest_of(
                self.places(),
                self.tries(),
                feed.all(),
                feed.first(),
                at as int,
                window as int,
                best_already,
            ),
    {
        if feed.end() - at < 4 {
            return None;
        }
        let limit: usize = if feed.end() - at < 273 {
            feed.end() - at
        } else {
            273
        };
        let mut best_len: usize = if best_already > 1 {
            best_already as usize
        } else {
            1
        };
        if best_len >= limit {
            return None;
        }
        let mut best_dist: u32 = 0;
        let reach: usize = if window < self.chain.len() {
            window
        } else {
            self.chain.len()
        };
        let mut oldest: usize = if at > reach {
            at - reach
        } else {
            0
        };
        if oldest < feed.base() {
            oldest = feed.base();
        }
        let mut candidate: u32 = self.head[Self::hash(feed, at)];
        let mut tries: usize = self.depth;
        let span: usize = self.chain.len();
        let ghost found = matching::walked(
            self.chain@,
            feed.all(),
            oldest as int,
            at as int,
            limit as int,
            candidate,
            tries as nat,
            (best_len as int, 0int),
        );
        while candidate != NO_PLACE && tries > 0
            invariant
                found == matching::walked(
                    self.chain@,
                    feed.all(),
                    oldest as int,
                    at as int,
                    limit as int,
                    candidate,
                    tries as nat,
                    (best_len as int, best_dist as int),
                ),
                self.wf(),
                span == self.chain@.len(),
                feed.wf(),
                feed.first() <= oldest <= at,
                at - oldest <= window <= 0x4000_0000,
                at + limit <= feed.all().len(),
                4 <= limit <= 273,
                1 <= best_len,
                best_already <= best_len,
                best_len <= limit,
                best_len == limit ==> best_dist > 0,
                best_dist > 0 ==> best_dist <= window && best_dist <= at - feed.first() && 2
                    <= best_len && best_already < best_len && agree(
                    feed.all(),
                    at - best_dist,
                    at as int,
                    best_len as int,
                ),
            ensures
                found == (best_len as int, best_dist as int),
            decreases tries,
        {
            let pos: usize = candidate as usize;
            if pos < oldest || pos >= at || best_len >= limit {
                break;
            }
            proof {
                feed.lemma_wf();
            }
            let ghost agreed = matching::common(feed.all(), pos as int, at as int, 0, limit as int);
            proof {
                matching::lemma_common(feed.all(), pos as int, at as int, 0, limit as int);
                if agreed > best_len {
                    assert(feed.all()[pos + best_len] == feed.all()[at + best_len]);
                }
            }
            tries = tries - 1;
            candidate = self.chain[pos % span];
            if feed.get(pos + best_len) == feed.get(at + best_len) {
                let mut len: usize = 0;
                while len < limit && feed.get(pos + len) == feed.get(at + len)
                    invariant
                        feed.wf(),
                        feed.first() <= pos < at,
                        at + limit <= feed.all().len(),
                        feed.all().len() <= usize::MAX,
                        len <= limit,
                        agree(feed.all(), pos as int, at as int, len as int),
                        agreed == matching::common(
                            feed.all(),
                            pos as int,
                            at as int,
                            len as int,
                            limit as int,
                        ),
                    decreases limit - len,
                {
                    len = len + 1;
                }
                if len > best_len {
                    best_len = len;
                    best_dist = (at - pos) as u32;
                }
            }
        }
        if best_dist == 0 {
            None
        } else {
            Some((best_dist, best_len as u32))
        }
    }
}

/// The longest match at `at` that a finder knows of, with its distance, where
/// it is longer than `floor`.
pub open spec fn longest_of(
    p: Places,
    tries: usize,
    all: Seq<u8>,
    first: int,
    at: int,
    window: int,
    floor: u32,
) -> Option<(u32, u32)> {
    let limit = if all.len() - at < 273 {
        all.len() - at
    } else {
        273
    };
    let floor_len = if floor > 1 {
        floor as int
    } else {
        1
    };
    let reach = if window < p.links.len() {
        window
    } else {
        p.links.len() as int
    };
    let back = if at > reach {
        at - reach
    } else {
        0
    };
    let oldest = if back < first {
        first
    } else {
        back
    };
    if limit < 4 || floor_len >= limit {
        None
    } else {
        let (len, dist) = matching::walked(
            p.links,
            all,
            oldest,
            at,
            limit,
            p.heads[hash_at(all, at)],
            tries as nat,
            (floor_len, 0int),
        );
        if dist == 0 {
            None
        } else {
            Some((dist as u32, len as u32))
        }
    }
}

/// Whether the data at `a` and at `b` agree in `n` bytes.
spec fn agree(data: Seq<u8>, a: int, b: int, n: int) -> bool {
    forall|k: int| 0 <= k < n ==> data[a + k] == #[trigger] data[b + k]
}

/// A number's highest two bits and how many follow, `width` bits having been
/// left out.
spec fn slot_from(x: nat, width: nat) -> nat
    decreases x,
{
    if x < 4 {
        2 * width + x
    } else {
        slot_from(x / 2, width + 1)
    }
}

/// The slot of a distance: its highest two bits and how many follow.
fn pos_slot_of(dist: u32) -> (r: u32)
    ensures
        r < 64,
        r == slot_from(dist as nat, 0),
        dist < 4 ==> r == dist,
        dist >= 4 ==> {
            let width = (r / 2 - 1) as nat;
            let base = (2 + r as int % 2) * pow2(width);
            r >= 4 && base <= dist < base + pow2(width)
        },
{
    if dist < 4 {
        return dist;
    }
    let mut x: u32 = dist;
    let mut width: u32 = 0;
    proof {
        lemma2_to64();
        assert(dist as nat / 1 == dist);
    }
    while x >= 4
        invariant
            slot_from(x as nat, width as nat) == slot_from(dist as nat, 0),
            x == dist as nat / pow2(width as nat),
            x >= 2,
            dist >= 4,
            width <= 30,
            dist >= x * pow2(width as nat),
        decreases x,
    {
        proof {
            lemma_pow2_unfold((width + 1) as nat);
            lemma_pow2_pos(width as nat);
            vstd::arithmetic::div_mod::lemma_div_denominator(
                dist as int,
                pow2(width as nat) as int,
                2,
            );
            vstd::arithmetic::mul::lemma_mul_is_commutative(pow2(width as nat) as int, 2);
            let w = pow2(width as nat) as int;
            assert((x / 2) * (2 * w) <= x * w) by (nonlinear_arith)
                requires
                    w >= 0,
                    2 * (x / 2) <= x,
            ;
            if width >= 30 {
                lemma2_to64();
                assert(x * w >= 4 * 0x4000_0000) by (nonlinear_arith)
                    requires
                        x >= 4,
                        w >= 0x4000_0000,
                ;
            }
        }
        x = x / 2;
        width = width + 1;
    }
    proof {
        let w = pow2(width as nat) as int;
        lemma_pow2_pos(width as nat);
        vstd::arithmetic::div_mod::lemma_fundamental_div_mod(dist as int, w);
        vstd::arithmetic::div_mod::lemma_mod_bound(dist as int, w);
        assert(w * x == x * w) by (nonlinear_arith);
        let r = 2 * width + x;
        assert(r / 2 - 1 == width && 2 + r % 2 == x);
    }
    2 * width + x
}

/// How long the match at `at` is that reaches `distance` bytes back.
pub open spec fn repeat_at(all: Seq<u8>, first: int, at: int, distance: int) -> int {
    if distance == 0 || distance > at - first {
        0
    } else {
        matching::common(
            all,
            at - distance,
            at,
            0,
            if all.len() - at < 273 {
                all.len() - at
            } else {
                273
            },
        )
    }
}

fn match_length(feed: &Feed, at: usize, distance: usize) -> (r: u32)
    requires
        feed.wf(),
        feed.first() <= at <= feed.all().len(),
    ensures
        r <= 273,
        r > 0 ==> 1 <= distance <= at - feed.first() && at + r <= feed.all().len() && agree(
            feed.all(),
            at - distance,
            at as int,
            r as int,
        ),
        r == repeat_at(feed.all(), feed.first(), at as int, distance as int),
{
    if distance == 0 || distance > at - feed.base() {
        return 0;
    }
    let limit: usize = if feed.end() - at < 273 {
        feed.end() - at
    } else {
        273
    };
    let from: usize = at - distance;
    let mut len: usize = 0;
    while len < limit && feed.get(from + len) == feed.get(at + len)
        invariant
            matching::common(feed.all(), from as int, at as int, len as int, limit as int)
                == matching::common(feed.all(), from as int, at as int, 0, limit as int),
            feed.wf(),
            feed.first() <= from < at,
            at + limit <= feed.all().len(),
            feed.all().len() <= usize::MAX,
            limit <= 273,
            len <= limit,
            agree(feed.all(), from as int, at as int, len as int),
        decreases limit - len,
    {
        len = len + 1;
    }
    len as u32
}

/// A match: how far back, less one, how long, and which of the recent
/// distances it is.
#[derive(Debug, Clone, Copy)]
struct Match {
    dist_code: u32,
    len: u32,
    rep: Option<usize>,
}

/// How long a match is, if there is one.
spec fn len_of(m: Option<Match>) -> u32 {
    match m {
        Some(x) => x.len,
        None => 0,
    }
}

/// The longest match at one of the recent distances from the `i`-th on, or
/// `best` where none is longer.
spec fn best_repeat(
    all: Seq<u8>,
    first: int,
    at: int,
    reps: Seq<u32>,
    i: int,
    best: Option<Match>,
) -> Option<Match>
    decreases 4 - i,
{
    if i < 0 || i >= 4 {
        best
    } else {
        let len = repeat_at(all, first, at, reps[i] + 1) as u32;
        best_repeat(
            all,
            first,
            at,
            reps,
            i + 1,
            if len >= MATCH_MIN_LEN && len > len_of(best) {
                Some(Match { dist_code: reps[i], len, rep: Some(i as usize) })
            } else {
                best
            },
        )
    }
}

/// The longest match: at a recent distance, or one that the finder knows of
/// and that is longer.
spec fn best_match(
    all: Seq<u8>,
    first: int,
    at: int,
    reps: Seq<u32>,
    window: int,
    p: Places,
    tries: usize,
) -> Option<Match> {
    let best = best_repeat(all, first, at, reps, 0, None);
    match longest_of(p, tries, all, first, at, window, len_of(best)) {
        Some((distance, len)) => if len >= MATCH_MIN_LEN && len > len_of(best) {
            Some(Match { dist_code: (distance - 1) as u32, len, rep: None })
        } else {
            best
        },
        None => best,
    }
}

/// What was written so far and what the decoder will know.
pub struct Coded {
    pub enc: Enc,
    pub mods: Mods,
}

/// The same, without the state and the recent distances.
spec fn put_of(c: Coded) -> Put {
    Put { enc: c.enc, probs: c.mods.probs }
}

/// After the length of a match.
#[verifier::opaque]
spec fn put_length(o: Put, base: int, symbol: nat, pos_state: int) -> Put {
    if symbol < 8 {
        range_encoder::put_tree(
            range_encoder::put_slot(o, base, 0),
            base + 2 + 8 * pos_state,
            pow2(3) + symbol,
            3,
        )
    } else if symbol < 16 {
        range_encoder::put_tree(
            range_encoder::put_slot(range_encoder::put_slot(o, base, 1), base + 1, 0),
            base + 130 + 8 * pos_state,
            pow2(3) + (symbol - 8) as nat,
            3,
        )
    } else {
        range_encoder::put_tree(
            range_encoder::put_slot(range_encoder::put_slot(o, base, 1), base + 1, 1),
            base + 258,
            pow2(8) + (symbol - 16) as nat,
            8,
        )
    }
}

/// After the distance of a match.
#[verifier::opaque]
spec fn put_distance(o: Put, dist_code: nat, len_symbol: nat) -> Put {
    let len_state: int = if len_symbol < 3 {
        len_symbol as int
    } else {
        3
    };
    let slot = slot_from(dist_code, 0);
    let named = range_encoder::put_tree(o, POS_SLOT + 64 * len_state, pow2(6) + slot, 6);
    if slot < 4 {
        named
    } else {
        let width = (slot / 2 - 1) as nat;
        let base = (2 + slot % 2) * pow2(width);
        let rest = (dist_code - base) as nat;
        if slot < 14 {
            range_encoder::put_reverse(named, POS_SPECIAL + (base - slot), 1, rest, width)
        } else {
            range_encoder::put_reverse(
                Put {
                    enc: range_encoder::put_direct(named.enc, rest / 16, (width - 4) as nat),
                    probs: named.probs,
                },
                POS_ALIGN as int,
                1,
                rest % 16,
                4,
            )
        }
    }
}

/// After the last `left` bits of a literal. `full` is the literal with a one
/// before it.
#[verifier::opaque]
spec fn put_literal(o: Put, base: int, matched: Option<int>, full: nat, left: nat) -> Put
    decreases left,
{
    if left == 0 {
        o
    } else {
        let m = (left - 1) as nat;
        put_literal(
            range_encoder::put_slot(
                o,
                syntax::literal_slot(
                    base,
                    matched,
                    (full / pow2(left)) as int,
                    (8 - left) as nat,
                ),
                (full / pow2(m)) as int % 2,
            ),
            base,
            matched,
            full,
            m,
        )
    }
}

/// After the byte at `at`.
#[verifier::opaque]
spec fn literal_coded(p: Properties, c: Coded, all: Seq<u8>, at: int) -> Coded {
    let pos_state = at % pow2(p.pb as nat) as int;
    let state = c.mods.state;
    let told = range_encoder::put_slot(put_of(c), IS_MATCH + 16 * state + pos_state, 0);
    let previous = if at == 0 {
        0
    } else {
        all[at - 1] as int
    };
    let matched = if state >= 7 && c.mods.reps[0] < at {
        Some(all[at - c.mods.reps[0] - 1] as int)
    } else {
        None
    };
    let o = put_literal(
        told,
        syntax::literal_base(p, at, previous),
        matched,
        (256 + all[at]) as nat,
        8,
    );
    Coded {
        enc: o.enc,
        mods: Mods {
            probs: o.probs,
            state: syntax::after_literal(state),
            reps: c.mods.reps,
        },
    }
}

/// After the number of a recent distance.
spec fn put_rep(o: Put, state: int, pos_state: int, index: usize) -> Put {
    let told = range_encoder::put_slot(o, IS_REP + state, 1);
    if index == 0 {
        range_encoder::put_slot(
            range_encoder::put_slot(told, IS_REP_G0 + state, 0),
            IS_REP0_LONG + 16 * state + pos_state,
            1,
        )
    } else {
        let later = range_encoder::put_slot(told, IS_REP_G0 + state, 1);
        if index == 1 {
            range_encoder::put_slot(later, IS_REP_G1 + state, 0)
        } else {
            range_encoder::put_slot(
                range_encoder::put_slot(later, IS_REP_G1 + state, 1),
                IS_REP_G2 + state,
                if index == 2 {
                    0
                } else {
                    1
                },
            )
        }
    }
}

/// The recent distances once one of them was used.
spec fn reps_used(r: Seq<u32>, index: usize) -> Seq<u32> {
    if index == 0 {
        r
    } else if index == 1 {
        seq![r[1], r[0], r[2], r[3]]
    } else if index == 2 {
        seq![r[2], r[0], r[1], r[3]]
    } else {
        seq![r[3], r[0], r[1], r[2]]
    }
}

/// After a match at `at`.
#[verifier::opaque]
spec fn match_coded(p: Properties, c: Coded, at: int, found: Match) -> Coded {
    let pos_state = at % pow2(p.pb as nat) as int;
    let state = c.mods.state;
    let len_symbol = (found.len - 2) as nat;
    let r = c.mods.reps;
    let told = range_encoder::put_slot(put_of(c), IS_MATCH + 16 * state + pos_state, 1);
    match found.rep {
        Some(index) => {
            let o = put_length(
                put_rep(told, state, pos_state, index),
                REP_LEN as int,
                len_symbol,
                pos_state,
            );
            Coded {
                enc: o.enc,
                mods: Mods {
                    probs: o.probs,
                    state: if state < 7 {
                        8
                    } else {
                        11
                    },
                    reps: reps_used(r, index),
                },
            }
        },
        None => {
            let o = put_distance(
                put_length(
                    range_encoder::put_slot(told, IS_REP + state, 0),
                    LEN as int,
                    len_symbol,
                    pos_state,
                ),
                found.dist_code as nat,
                len_symbol,
            );
            Coded {
                enc: o.enc,
                mods: Mods {
                    probs: o.probs,
                    state: if state < 7 {
                        7
                    } else {
                        10
                    },
                    reps: seq![found.dist_code, r[0], r[1], r[2]],
                },
            }
        },
    }
}

/// After the marker of the end.
pub closed spec fn marker_coded(p: Properties, c: Coded, at: int) -> Enc {
    let pos_state = at % pow2(p.pb as nat) as int;
    let state = c.mods.state;
    let told = range_encoder::put_slot(put_of(c), IS_MATCH + 16 * state + pos_state, 1);
    let new = range_encoder::put_slot(told, IS_REP + state, 0);
    put_distance(put_length(new, LEN as int, 0, pos_state), 0xffff_ffff, 0).enc
}

/// The places once `at` was remembered, if there is enough data.
spec fn placed(p: Places, all: Seq<u8>, at: int) -> Places {
    if at + 4 <= all.len() {
        matching::remembered(p, hash_at(all, at), at)
    } else {
        p
    }
}

/// The places once those from `at` up to `end` were remembered.
spec fn placed_all(p: Places, all: Seq<u8>, at: int, end: int) -> Places
    decreases end - at,
{
    if at >= end {
        p
    } else {
        placed_all(placed(p, all, at), all, at + 1, end)
    }
}

/// What an encoder has done and knows.
pub struct Span {
    pub coded: Coded,
    pub places: Places,
}

/// The match that is taken at `at`: the best there is, if the next place has
/// none that is longer by more than one, cut at `to`. After many bytes without
/// a match only some places are tried.
spec fn taken_at(
    p: Properties,
    tries: usize,
    all: Seq<u8>,
    at: int,
    to: int,
    barren: int,
    s: Span,
) -> Option<Match> {
    let reps = s.coded.mods.reps;
    let window = p.dict_size as int;
    let stride = barren / SKIP_SPAN as int;
    if stride != 0 && at % (1 + stride) != 0 {
        None
    } else {
        match best_match(all, 0, at, reps, window, s.places, tries) {
            None => None,
            Some(m) => {
                let next = best_match(
                    all,
                    0,
                    at + 1,
                    reps,
                    window,
                    placed(s.places, all, at),
                    tries,
                );
                let len = if m.len < to - at {
                    m.len as int
                } else {
                    to - at
                };
                if m.len < MATCH_MAX_LEN && at + 1 < to && len_of(next) > m.len + 1 {
                    None
                } else if len >= MATCH_MIN_LEN {
                    Some(Match { dist_code: m.dist_code, len: len as u32, rep: m.rep })
                } else {
                    None
                }
            },
        }
    }
}

/// After the data from `at` up to `to`, `barren` bytes before it having been
/// without a match.
pub closed spec fn span_coded(
    p: Properties,
    tries: usize,
    all: Seq<u8>,
    at: int,
    to: int,
    barren: int,
    s: Span,
) -> Span
    decreases to - at,
{
    if at >= to {
        s
    } else {
        match taken_at(p, tries, all, at, to, barren, s) {
            None => span_coded(
                p,
                tries,
                all,
                at + 1,
                to,
                barren + 1,
                Span {
                    coded: literal_coded(p, s.coded, all, at),
                    places: placed(s.places, all, at),
                },
            ),
            Some(m) => if m.len > 0 {
                span_coded(
                    p,
                    tries,
                    all,
                    at + m.len,
                    to,
                    0,
                    Span {
                        coded: match_coded(p, s.coded, at, m),
                        places: placed_all(
                            placed(s.places, all, at),
                            all,
                            at + 1,
                            at + m.len,
                        ),
                    },
                )
            } else {
                s
            },
        }
    }
}

/// The raw stream of the data, without a marker.
pub open spec fn raw_of(p: Properties, tries: usize, data: Seq<u8>) -> Seq<u8> {
    range_encoder::flushed(
        span_coded(
            p,
            tries,
            data,
            0,
            data.len() as int,
            0,
            Span {
                coded: Coded {
                    enc: Enc { n: 1, low: 0, range: 0xffff_ffff },
                    mods: syntax::fresh_mods(p),
                },
                places: matching::no_places(
                    HASH_SIZE as nat,
                    span_for(data.len() as int, p.dict_size as int),
                ),
            },
        ).coded.enc,
    )
}

/// Data further on than a match can reach does not show in the best match.
proof fn lemma_best_more(
    all: Seq<u8>,
    more: Seq<u8>,
    at: int,
    reps: Seq<u32>,
    window: int,
    p: Places,
    tries: usize,
)
    requires
        0 <= at,
        at + 273 <= all.len(),
    ensures
        best_match(all + more, 0, at, reps, window, p, tries) == best_match(
            all,
            0,
            at,
            reps,
            window,
            p,
            tries,
        ),
{
    let long = all + more;
    assert forall|d: int| 0 <= d implies #[trigger] repeat_at(long, 0, at, d) == repeat_at(
        all,
        0,
        at,
        d,
    ) by {
        if d != 0 && d <= at {
            matching::lemma_common_more(all, more, at - d, at, 0, 273);
        }
    }
    reveal_with_fuel(best_repeat, 5);
    assert(best_repeat(long, 0, at, reps, 0, None) == best_repeat(all, 0, at, reps, 0, None));
    let floor = len_of(best_repeat(all, 0, at, reps, 0, None));
    let floor_len = if floor > 1 {
        floor as int
    } else {
        1
    };
    let reach = if window < p.links.len() {
        window
    } else {
        p.links.len() as int
    };
    let back = if at > reach {
        at - reach
    } else {
        0
    };
    let oldest = if back < 0 {
        0
    } else {
        back
    };
    assert(hash_at(long, at) == hash_at(all, at));
    matching::lemma_walked_more(
        p.links,
        all,
        more,
        oldest,
        at,
        273,
        p.heads[hash_at(all, at)],
        tries as nat,
        (floor_len, 0int),
    );
}

proof fn lemma_placed_more(p: Places, all: Seq<u8>, more: Seq<u8>, at: int, end: int)
    requires
        0 <= at,
        end + 4 <= all.len(),
    ensures
        placed_all(p, all + more, at, end) == placed_all(p, all, at, end),
    decreases end - at,
{
    if at < end {
        assert(hash_at(all + more, at) == hash_at(all, at));
        lemma_placed_more(placed(p, all, at), all, more, at + 1, end);
    }
}

/// Data further on than a match can reach does not show in what is written.
#[verifier::spinoff_prover]
#[verifier::rlimit(40)]
pub proof fn lemma_span_more(
    p: Properties,
    tries: usize,
    all: Seq<u8>,
    more: Seq<u8>,
    at: int,
    to: int,
    barren: int,
    s: Span,
)
    requires
        0 <= at,
        to + 273 <= all.len(),
    ensures
        span_coded(p, tries, all + more, at, to, barren, s) == span_coded(
            p,
            tries,
            all,
            at,
            to,
            barren,
            s,
        ),
    decreases to - at,
{
    if at < to {
        let long = all + more;
        let reps = s.coded.mods.reps;
        let window = p.dict_size as int;
        let next = placed(s.places, all, at);
        assert(hash_at(long, at) == hash_at(all, at));
        assert(placed(s.places, long, at) == next);
        lemma_best_more(all, more, at, reps, window, s.places, tries);
        if at + 1 < to {
            lemma_best_more(all, more, at + 1, reps, window, next, tries);
        }
        let found = taken_at(p, tries, all, at, to, barren, s);
        assert(taken_at(p, tries, long, at, to, barren, s) == found);
        match found {
            None => {
                assert(literal_coded(p, s.coded, long, at) == literal_coded(p, s.coded, all, at))
                    by {
                    reveal(literal_coded);
                }
                lemma_span_more(
                    p,
                    tries,
                    all,
                    more,
                    at + 1,
                    to,
                    barren + 1,
                    Span { coded: literal_coded(p, s.coded, all, at), places: next },
                );
            },
            Some(m) => {
                if m.len > 0 {
                    lemma_placed_more(next, all, more, at + 1, at + m.len);
                    lemma_span_more(
                        p,
                        tries,
                        all,
                        more,
                        at + m.len,
                        to,
                        0,
                        Span {
                            coded: match_coded(p, s.coded, at, m),
                            places: placed_all(next, all, at + 1, at + m.len),
                        },
                    );
                }
            },
        }
    }
}

/// Data that was forgotten lies too far back to matter.
proof fn lemma_first(
    all: Seq<u8>,
    first: int,
    at: int,
    reps: Seq<u32>,
    window: int,
    p: Places,
    tries: usize,
)
    requires
        0 <= first <= at,
        first == 0 || at - first >= window,
        window > 0,
        p.links.len() > 0,
        forall|i: int| 0 <= i < 4 ==> #[trigger] reps[i] < window,
    ensures
        best_match(all, first, at, reps, window, p, tries) == best_match(
            all,
            0,
            at,
            reps,
            window,
            p,
            tries,
        ),
{
    assert forall|i: int| 0 <= i < 4 implies #[trigger] repeat_at(all, first, at, reps[i] + 1)
        == repeat_at(all, 0, at, reps[i] + 1) by {
        assert(reps[i] < window);
    }
    reveal_with_fuel(best_repeat, 5);
    assert(best_repeat(all, first, at, reps, 0, None) == best_repeat(all, 0, at, reps, 0, None));
}

/// Encodes symbols with an adaptive model.
pub struct Encoder {
    props: Properties,
    model: Vec<Prob>,
    state: usize,
    reps: [u32; 4],
}

impl Encoder {
    /// The parameters.
    pub closed spec fn properties(&self) -> Properties {
        self.props
    }

    /// What the decoder will know.
    pub closed spec fn mods(&self) -> Mods {
        Mods { probs: self.model@, state: self.state as int, reps: self.reps@ }
    }

    /// What was written to `e` and what the decoder will know.
    pub open spec fn coded(&self, e: Enc) -> Coded {
        Coded { enc: e, mods: self.mods() }
    }

    /// The model has the right size, and the distances are in range. `at` is
    /// how much was encoded.
    pub closed spec fn wf(&self, at: int) -> bool {
        &&& syntax::props_ok(self.props)
        &&& range::probs_ok(self.model@)
        &&& self.model@.len() == syntax::model_len(self.props)
        &&& self.state < 12
        &&& forall|i: int| 0 <= i < 4 ==> #[trigger] self.reps@[i] < self.props.dict_size
        &&& self.state >= 7 ==> self.reps@[0] < at
    }

    /// A model that has seen nothing.
    pub fn new(props: Properties) -> (r: Self)
        requires
            syntax::props_ok(props),
        ensures
            r.properties() == props,
            r.mods() == syntax::fresh_mods(props),
            forall|at: int| r.wf(at),
    {
        let model: Vec<Prob> = probs(model_size(props));
        let r: Encoder = Encoder { props, model, state: 0, reps: [0u32; 4] };
        proof {
            assert(r.model@ =~= syntax::fresh_probs(props));
            assert(r.reps@ =~= seq![0u32, 0, 0, 0]);
        }
        r
    }

    fn encode_length(
        rc: &mut RangeEncoder,
        model: &mut Vec<Prob>,
        base: usize,
        symbol: u32,
        pos_state: usize,
    )
        requires
            old(rc).wf(),
            range::probs_ok(old(model)@),
            base + 514 <= old(model).len(),
            symbol <= 271,
            pos_state < 16,
        ensures
            final(rc).wf(),
            range::probs_ok(final(model)@),
            final(model)@.len() == old(model)@.len(),
            (Put { enc: final(rc).enc(), probs: final(model)@ }) == put_length(
                Put { enc: old(rc).enc(), probs: old(model)@ },
                base as int,
                symbol as nat,
                pos_state as int,
            ),
            forall|data: Seq<u8>| #[trigger]
                range_encoder::accepts(data, final(rc).enc()) ==> range_encoder::accepts(
                    data,
                    old(rc).enc(),
                ) && syntax::length(
                    data,
                    Dec {
                        coder: range_encoder::coder_for(data, old(rc).enc()),
                        probs: old(model)@,
                    },
                    base as int,
                    pos_state as int,
                ) == (
                    symbol as int,
                    Dec {
                        coder: range_encoder::coder_for(data, final(rc).enc()),
                        probs: final(model)@,
                    },
                ),
    {
        proof {
            reveal(syntax::length);
            reveal(put_length);
            lemma2_to64();
        }
        if symbol < 8 {
            rc.slot(model, base, 0);
            rc.tree(model, base + 2 + 8 * pos_state, 3, symbol);
            return;
        }
        rc.slot(model, base, 1);
        if symbol < 16 {
            rc.slot(model, base + 1, 0);
            rc.tree(model, base + 130 + 8 * pos_state, 3, symbol - 8);
            return;
        }
        rc.slot(model, base + 1, 1);
        rc.tree(model, base + 258, 8, symbol - 16);
    }

    fn encode_distance(
        rc: &mut RangeEncoder,
        model: &mut Vec<Prob>,
        dist_code: u32,
        len_symbol: u32,
    )
        requires
            old(rc).wf(),
            range::probs_ok(old(model)@),
            1847 <= old(model)@.len(),
        ensures
            final(rc).wf(),
            range::probs_ok(final(model)@),
            final(model)@.len() == old(model)@.len(),
            (Put { enc: final(rc).enc(), probs: final(model)@ }) == put_distance(
                Put { enc: old(rc).enc(), probs: old(model)@ },
                dist_code as nat,
                len_symbol as nat,
            ),
            forall|data: Seq<u8>| #[trigger]
                range_encoder::accepts(data, final(rc).enc()) ==> range_encoder::accepts(
                    data,
                    old(rc).enc(),
                ) && syntax::distance(
                    data,
                    Dec {
                        coder: range_encoder::coder_for(data, old(rc).enc()),
                        probs: old(model)@,
                    },
                    len_symbol as int,
                ) == (
                    dist_code as int,
                    Dec {
                        coder: range_encoder::coder_for(data, final(rc).enc()),
                        probs: final(model)@,
                    },
                ),
    {
        let len_state: usize = if len_symbol < 3 {
            len_symbol as usize
        } else {
            3
        };
        let slot: u32 = pos_slot_of(dist_code);
        proof {
            reveal(syntax::distance);
            reveal(put_distance);
            lemma2_to64();
        }
        rc.tree(model, POS_SLOT + 64 * len_state, 6, slot);
        if slot < 4 {
            return;
        }
        let width: u32 = slot / 2 - 1;
        proof {
            syntax::lemma_slot_span(slot as int);
        }
        let base: u32 = (2 + slot % 2) * bits::power_of_two(width) as u32;
        let rest: u32 = dist_code - base;
        if slot < 14 {
            rc.tree_reverse(model, POS_SPECIAL + (base - slot) as usize, width, rest);
        } else {
            proof {
                assert(rest / 16 < pow2((width - 4) as nat));
            }
            rc.direct_bits(rest / 16, width - 4);
            rc.tree_reverse(model, POS_ALIGN, 4, rest % 16);
        }
    }

    fn literal_bits(
        rc: &mut RangeEncoder,
        model: &mut Vec<Prob>,
        base: usize,
        follow: bool,
        matched: u32,
        target: u8,
    )
        requires
            old(rc).wf(),
            range::probs_ok(old(model)@),
            base + 0x300 <= old(model)@.len(),
            follow ==> 256 <= matched < 512,
        ensures
            final(rc).wf(),
            range::probs_ok(final(model)@),
            final(model)@.len() == old(model)@.len(),
            (Put { enc: final(rc).enc(), probs: final(model)@ }) == put_literal(
                Put { enc: old(rc).enc(), probs: old(model)@ },
                base as int,
                if follow {
                    Some(matched - 256)
                } else {
                    None
                },
                (256 + target) as nat,
                8,
            ),
            forall|data: Seq<u8>| #[trigger]
                range_encoder::accepts(data, final(rc).enc()) ==> range_encoder::accepts(
                    data,
                    old(rc).enc(),
                ) && syntax::literal_walked(
                    data,
                    Dec {
                        coder: range_encoder::coder_for(data, old(rc).enc()),
                        probs: old(model)@,
                    },
                    base as int,
                    if follow {
                        Some(matched - 256)
                    } else {
                        None
                    },
                    8,
                ) == (
                    256 + target,
                    Dec {
                        coder: range_encoder::coder_for(data, final(rc).enc()),
                        probs: final(model)@,
                    },
                ),
    {
        let ghost e0 = rc.enc();
        let ghost p0 = model@;
        let ghost m: Option<int> = if follow {
            Some(matched - 256)
        } else {
            None
        };
        let len: usize = model.len();
        let full: u64 = 256 + target as u64;
        let mut symbol: u32 = 1;
        let mut k: u32 = 0;
        proof {
            reveal(put_literal);
            lemma2_to64();
            assert(full as nat / 256 == 1);
        }
        while k < 8
            invariant
                k <= 8,
                put_literal(
                    Put { enc: rc.enc(), probs: model@ },
                    base as int,
                    m,
                    full as nat,
                    (8 - k) as nat,
                ) == put_literal(Put { enc: e0, probs: p0 }, base as int, m, full as nat, 8),
                rc.wf(),
                range::probs_ok(model@),
                model.len() == len,
                p0 == old(model)@,
                e0 == old(rc).enc(),
                len == p0.len(),
                base + 0x300 <= len,
                follow ==> 256 <= matched < 512,
                m == if follow {
                    Some(matched - 256)
                } else {
                    None::<int>
                },
                full == 256 + target,
                symbol == full as nat / pow2((8 - k) as nat),
                pow2(k as nat) <= symbol < 2 * pow2(k as nat),
                forall|data: Seq<u8>| #[trigger]
                    range_encoder::accepts(data, rc.enc()) ==> range_encoder::accepts(data, e0)
                        && syntax::literal_walked(
                        data,
                        Dec { coder: range_encoder::coder_for(data, e0), probs: p0 },
                        base as int,
                        m,
                        k as nat,
                    ) == (
                        symbol as int,
                        Dec { coder: range_encoder::coder_for(data, rc.enc()), probs: model@ },
                    ),
            decreases 8 - k,
        {
            let left: u32 = 7 - k;
            proof {
                reveal(put_literal);
                lemma2_to64();
                lemma_pow2_unfold((k + 1) as nat);
                if k < 7 {
                    lemma_pow2_strictly_increases(k as nat, 7);
                }
                lemma_pow2_unfold((left + 1) as nat);
                lemma_pow2_pos(left as nat);
                vstd::arithmetic::div_mod::lemma_div_denominator(
                    full as int,
                    pow2(left as nat) as int,
                    2,
                );
                vstd::arithmetic::mul::lemma_mul_is_commutative(pow2(left as nat) as int, 2);
            }
            let mut at: usize = base + symbol as usize;
            if follow && bits::shift_right(matched as u64, 8 - k) == symbol as u64 {
                let next: u64 = bits::shift_right(matched as u64, 7 - k) % 2;
                at = base + 256 * (1 + next as usize) + symbol as usize;
            }
            assert(at == syntax::literal_slot(base as int, m, symbol as int, k as nat));
            let next: u32 = bits::shift_right(full, left) as u32;
            let ghost e = rc.enc();
            rc.slot(model, at, next % 2);
            proof {
                assert forall|data: Seq<u8>| #[trigger]
                    range_encoder::accepts(data, rc.enc()) implies range_encoder::accepts(data, e0)
                    && syntax::literal_walked(
                    data,
                    Dec { coder: range_encoder::coder_for(data, e0), probs: p0 },
                    base as int,
                    m,
                    (k + 1) as nat,
                ) == (
                    next as int,
                    Dec { coder: range_encoder::coder_for(data, rc.enc()), probs: model@ },
                ) by {
                    assert(range_encoder::accepts(data, e));
                }
            }
            symbol = next;
            k = k + 1;
        }
        assert(full as nat / 1 == full);
    }

    fn encode_literal(&mut self, rc: &mut RangeEncoder, feed: &Feed, at: usize)
        requires
            old(self).wf(at as int),
            old(rc).wf(),
            feed.wf(),
            at < feed.all().len(),
            at <= MAX_TOTAL,
            feed.first() == 0 || at - feed.first() >= old(self).props.dict_size,
        ensures
            final(self).wf(at + 1),
            final(self).props == old(self).props,
            final(rc).wf(),
            steps(
                old(self).props,
                old(rc).enc(),
                old(self).mods(),
                final(rc).enc(),
                final(self).mods(),
                feed.all().take(at as int),
                feed.all().take(at + 1),
            ),
            final(self).coded(final(rc).enc()) == literal_coded(
                old(self).props,
                old(self).coded(old(rc).enc()),
                feed.all(),
                at as int,
            ),
    {
        let lc: u32 = self.props.lc;
        let lp: u32 = self.props.lp;
        let pb: u32 = self.props.pb;
        let ghost hist = feed.all().take(at as int);
        let ghost m0 = self.mods();
        let ghost e0 = rc.enc();
        let ghost p = self.props;
        proof {
            feed.lemma_wf();
            lemma2_to64();
            lemma_pow2_pos(pb as nat);
            lemma_pow2_pos(lp as nat);
            lemma_pow2_pos((lc + lp) as nat);
            if pb < 4 {
                lemma_pow2_strictly_increases(pb as nat, 4);
            }
        }
        let pos_state: usize = (at as u64 % bits::power_of_two(pb)) as usize;
        rc.slot(&mut self.model, IS_MATCH + 16 * self.state + pos_state, 0);
        let ghost e1 = rc.enc();
        let previous: u8 = if at == 0 {
            0
        } else {
            feed.get(at - 1)
        };
        let low_bits: u64 = at as u64 % bits::power_of_two(lp);
        proof {
            syntax::lemma_literal_base(p, at as int, previous as int);
            if lp < 4 {
                lemma_pow2_strictly_increases(lp as nat, 4);
            }
            if lc < 8 {
                lemma_pow2_strictly_increases(lc as nat, 8);
            }
            assert(low_bits * pow2(lc as nat) <= 16 * 256) by (nonlinear_arith)
                requires
                    low_bits <= 16,
                    pow2(lc as nat) <= 256,
            ;
        }
        let context: usize = (low_bits * bits::power_of_two(lc)) as usize + bits::shift_right(
            previous as u64,
            8 - lc,
        ) as usize;
        let base: usize = LITERAL + LITERAL_SIZE * context;
        let target: u8 = feed.get(at);
        let follow: bool = self.state >= 7;
        let mut matched: u32 = 0;
        if follow {
            assert(self.reps@[0] < p.dict_size);
            matched = 256 + feed.get(at - (self.reps[0] as usize + 1)) as u32;
        }
        Self::literal_bits(rc, &mut self.model, base, follow, matched, target);
        self.state = Self::literal_state(self.state);
        proof {
            reveal(steps);
            reveal(syntax::step);
            let e2 = rc.enc();
            assert(hist.push(target) =~= feed.all().take(at + 1));
            assert(base == syntax::literal_base(p, at as int, syntax::previous_byte(hist)));
            reveal(literal_coded);
            assert(self.mods().reps == m0.reps);
            assert forall|data: Seq<u8>| #[trigger]
                range_encoder::accepts(data, e2) implies range_encoder::accepts(data, e0)
                && syntax::step(
                data,
                p,
                lz_of(m0, range_encoder::coder_for(data, e0), hist),
            ) == Outcome::Next(
                lz_of(
                    self.mods(),
                    range_encoder::coder_for(data, e2),
                    feed.all().take(at + 1),
                ),
            ) by {
                assert(range_encoder::accepts(data, e1));
            }
        }
    }

    fn literal_state(state: usize) -> (r: usize)
        requires
            state < 12,
        ensures
            r == syntax::after_literal(state as int),
            r < 7,
    {
        if state < 4 {
            0
        } else if state < 10 {
            state - 3
        } else {
            state - 6
        }
    }

    fn best_at(&self, feed: &Feed, at: usize, finder: &Finder) -> (r: Option<Match>)
        requires
            syntax::props_ok(self.props),
            forall|i: int| 0 <= i < 4 ==> #[trigger] self.reps@[i] < self.props.dict_size,
            feed.wf(),
            finder.wf(),
            feed.first() <= at <= feed.all().len(),
            feed.first() == 0 || at - feed.first() >= self.props.dict_size,
        ensures
            r matches Some(m) ==> self.usable(feed.all(), at as int, m),
            r == best_match(
                feed.all(),
                0,
                at as int,
                self.reps@,
                self.props.dict_size as int,
                finder.places(),
                finder.tries(),
            ),
    {
        let window: usize = self.props.dict_size as usize;
        let mut best: Option<Match> = None;
        let mut floor: u32 = 0;
        let mut i: usize = 0;
        while i < 4
            invariant
                i <= 4,
                feed.wf(),
                syntax::props_ok(self.props),
                forall|i: int| 0 <= i < 4 ==> #[trigger] self.reps@[i] < self.props.dict_size,
                feed.first() <= at <= feed.all().len(),
                best matches Some(m) ==> self.usable(feed.all(), at as int, m) && floor == m.len,
                best is None ==> floor == 0,
                best_repeat(feed.all(), feed.first(), at as int, self.reps@, i as int, best)
                    == best_repeat(feed.all(), feed.first(), at as int, self.reps@, 0, None),
            decreases 4 - i,
        {
            let rep: u32 = self.reps[i];
            proof {
                feed.lemma_wf();
                assert(self.reps@[i as int] < self.props.dict_size);
            }
            let len: u32 = match_length(feed, at, rep as usize + 1);
            if len >= MATCH_MIN_LEN && len > floor {
                best = Some(Match { dist_code: rep, len, rep: Some(i) });
                floor = len;
            }
            i = i + 1;
        }
        proof {
            feed.lemma_wf();
            lemma_first(
                feed.all(),
                feed.first(),
                at as int,
                self.reps@,
                window as int,
                finder.places(),
                finder.tries(),
            );
        }
        if let Some((distance, len)) = finder.longest(feed, at, window, floor) {
            if len >= MATCH_MIN_LEN && len > floor {
                best = Some(Match { dist_code: distance - 1, len, rep: None });
            }
        }
        best
    }

    /// A match that is there, and that the format can say.
    spec fn usable(&self, all: Seq<u8>, at: int, m: Match) -> bool {
        &&& 2 <= m.len <= 273
        &&& m.dist_code < self.props.dict_size
        &&& m.dist_code + 1 <= at
        &&& at + m.len <= all.len()
        &&& agree(all, at - m.dist_code - 1, at, m.len as int)
        &&& m.rep matches Some(i) ==> i < 4 && m.dist_code == self.reps@[i as int]
    }

    #[verifier::rlimit(60)]
    #[verifier::spinoff_prover]
    fn encode_match(&mut self, rc: &mut RangeEncoder, found: Match, at: usize, Ghost(all): Ghost<
        Seq<u8>,
    >)
        requires
            old(self).wf(at as int),
            old(rc).wf(),
            at < all.len(),
            at <= MAX_TOTAL,
            old(self).usable(all, at as int, found),
        ensures
            final(self).wf(at + found.len),
            final(self).props == old(self).props,
            final(rc).wf(),
            steps(
                old(self).props,
                old(rc).enc(),
                old(self).mods(),
                final(rc).enc(),
                final(self).mods(),
                all.take(at as int),
                all.take(at + found.len),
            ),
            final(self).coded(final(rc).enc()) == match_coded(
                old(self).props,
                old(self).coded(old(rc).enc()),
                at as int,
                found,
            ),
    {
        let pb: u32 = self.props.pb;
        let ghost hist = all.take(at as int);
        let ghost m0 = self.mods();
        let ghost e0 = rc.enc();
        let ghost p = self.props;
        proof {
            lemma2_to64();
            lemma_pow2_pos(pb as nat);
            lemma_pow2_pos((p.lc + p.lp) as nat);
            if pb < 4 {
                lemma_pow2_strictly_increases(pb as nat, 4);
            }
            reveal(match_coded);
            assert(self.reps@ =~= seq![self.reps[0], self.reps[1], self.reps[2], self.reps[3]]);
            let d = found.dist_code as int + 1;
            assert forall|k: int| at <= k < at + found.len implies #[trigger] all[k] == all[k
                - d] by {
                assert(all[(at - d) + (k - at)] == all[at + (k - at)]);
            }
            lz::lemma_copied_matches(all, at as int, d, found.len as nat);
        }
        let pos_state: usize = (at as u64 % bits::power_of_two(pb)) as usize;
        let state: usize = self.state;
        let len_symbol: u32 = found.len - MATCH_MIN_LEN;
        let r0: u32 = self.reps[0];
        let r1: u32 = self.reps[1];
        let r2: u32 = self.reps[2];
        let r3: u32 = self.reps[3];
        assert(r0 < p.dict_size && r1 < p.dict_size && r2 < p.dict_size && r3 < p.dict_size);
        rc.slot(&mut self.model, IS_MATCH + 16 * state + pos_state, 1);
        let ghost e1 = rc.enc();
        match found.rep {
            Some(index) => {
                rc.slot(&mut self.model, IS_REP + state, 1);
                let ghost e2 = rc.enc();
                let ghost mut e3 = rc.enc();
                let ghost mut e4 = rc.enc();
                if index == 0 {
                    rc.slot(&mut self.model, IS_REP_G0 + state, 0);
                    proof {
                        e3 = rc.enc();
                        e4 = rc.enc();
                    }
                    rc.slot(&mut self.model, IS_REP0_LONG + 16 * state + pos_state, 1);
                } else {
                    rc.slot(&mut self.model, IS_REP_G0 + state, 1);
                    proof {
                        e3 = rc.enc();
                        e4 = rc.enc();
                    }
                    if index == 1 {
                        rc.slot(&mut self.model, IS_REP_G1 + state, 0);
                        self.reps = [r1, r0, r2, r3];
                        assert(self.reps@ =~= seq![r1, r0, r2, r3]);
                    } else {
                        rc.slot(&mut self.model, IS_REP_G1 + state, 1);
                        proof {
                            e4 = rc.enc();
                        }
                        if index == 2 {
                            rc.slot(&mut self.model, IS_REP_G2 + state, 0);
                            self.reps = [r2, r0, r1, r3];
                            assert(self.reps@ =~= seq![r2, r0, r1, r3]);
                        } else {
                            rc.slot(&mut self.model, IS_REP_G2 + state, 1);
                            self.reps = [r3, r0, r1, r2];
                            assert(self.reps@ =~= seq![r3, r0, r1, r2]);
                        }
                    }
                }
                let ghost e5 = rc.enc();
                Self::encode_length(rc, &mut self.model, REP_LEN, len_symbol, pos_state);
                self.state = if state < 7 {
                    8
                } else {
                    11
                };
                proof {
                    reveal(steps);
                    reveal(syntax::step);
                    let e6 = rc.enc();
                    let m6 = self.mods();
                    assert forall|data: Seq<u8>| #[trigger]
                        range_encoder::accepts(data, e6) implies range_encoder::accepts(data, e0)
                        && syntax::step(
                        data,
                        p,
                        lz_of(m0, range_encoder::coder_for(data, e0), hist),
                    ) == Outcome::Next(
                        lz_of(
                            m6,
                            range_encoder::coder_for(data, e6),
                            all.take(at + found.len),
                        ),
                    ) by {
                        assert(range_encoder::accepts(data, e5));
                        assert(range_encoder::accepts(data, e4));
                        assert(range_encoder::accepts(data, e3));
                        assert(range_encoder::accepts(data, e2));
                        assert(range_encoder::accepts(data, e1));
                    }
                }
            },
            None => {
                rc.slot(&mut self.model, IS_REP + state, 0);
                let ghost e2 = rc.enc();
                Self::encode_length(rc, &mut self.model, LEN, len_symbol, pos_state);
                let ghost e3 = rc.enc();
                self.state = if state < 7 {
                    7
                } else {
                    10
                };
                Self::encode_distance(rc, &mut self.model, found.dist_code, len_symbol);
                self.reps = [found.dist_code, r0, r1, r2];
                assert(self.reps@ =~= seq![found.dist_code, r0, r1, r2]);
                proof {
                    reveal(steps);
                    reveal(syntax::step);
                    let e4 = rc.enc();
                    let m4 = self.mods();
                    assert forall|data: Seq<u8>| #[trigger]
                        range_encoder::accepts(data, e4) implies range_encoder::accepts(data, e0)
                        && syntax::step(
                        data,
                        p,
                        lz_of(m0, range_encoder::coder_for(data, e0), hist),
                    ) == Outcome::Next(
                        lz_of(
                            m4,
                            range_encoder::coder_for(data, e4),
                            all.take(at + found.len),
                        ),
                    ) by {
                        assert(range_encoder::accepts(data, e3));
                        assert(range_encoder::accepts(data, e2));
                        assert(range_encoder::accepts(data, e1));
                    }
                }
            },
        }
    }

    /// Compress `data` into a raw LZMA stream, without any container framing.
    pub fn encode(&mut self, data: &[u8], depth: usize) -> (r: Vec<u8>)
        requires
            old(self).mods() == syntax::fresh_mods(old(self).properties()),
            old(self).wf(0),
            data@.len() <= MAX_TOTAL,
        ensures
            is_stream(r@, old(self).properties(), data@),
            r@ == raw_of(old(self).properties(), depth, data@),
            data@.len() == 0 ==> r@ == seq![0u8, 0u8, 0u8, 0u8, 0u8],
    {
        let mut finder: Finder = Finder::new(data.len(), self.props.dict_size as usize, depth);
        let feed: Feed = Feed::whole(data);
        let ghost p = self.props;
        let (out, end): (Vec<u8>, Ghost<Enc>) = self.encode_range(
            &feed,
            0,
            data.len(),
            &mut finder,
        );
        proof {
            if data@.len() == 0 {
                range_encoder::lemma_number_zero(out@);
                assert(out@ =~= seq![0u8, 0u8, 0u8, 0u8, 0u8]);
            }
            assert(data@.take(0) =~= Seq::<u8>::empty());
            assert(data@.take(data@.len() as int) =~= data@);
            lemma_span_stream(p, end@, self.mods(), out@, data@);
        }
        out
    }

    /// Compress `feed[from..to]` as one range-coded stream.
    ///
    /// Matches may reach back before `from`, so successive calls share one
    /// dictionary; the model and rep distances carry over unless reset by the
    /// caller. This is what lets LZMA2 chunk without losing context.
    pub fn encode_range(&mut self, feed: &Feed, from: usize, to: usize, finder: &mut Finder) -> (r: (
        Vec<u8>,
        Ghost<Enc>,
    ))
        requires
            old(self).wf(from as int),
            feed.wf(),
            old(finder).wf(),
            from <= to <= feed.all().len(),
            to <= MAX_TOTAL,
            feed.first() == 0 || from - feed.first() >= old(self).properties().dict_size,
        ensures
            final(self).wf(to as int),
            final(self).properties() == old(self).properties(),
            final(finder).wf(),
            r.0@.len() == r.1@.n + 4,
            r.0@.len() >= 5,
            range_encoder::number(r.0@) == r.1@.low,
            r.0@ == range_encoder::flushed(r.1@),
            final(finder).tries() == old(finder).tries(),
            (Span { coded: final(self).coded(r.1@), places: final(finder).places() })
                == span_coded(
                old(self).properties(),
                old(finder).tries(),
                feed.all(),
                from as int,
                to as int,
                0,
                Span {
                    coded: old(self).coded(Enc { n: 1, low: 0, range: 0xffff_ffff }),
                    places: old(finder).places(),
                },
            ),
            from == to ==> r.1@ == (Enc { n: 1, low: 0, range: 0xffff_ffff }),
            forall|tail: Seq<u8>| #[trigger] range_encoder::accepts(r.0@ + tail, r.1@),
            carries(
                old(self).properties(),
                Enc { n: 1, low: 0, range: 0xffff_ffff },
                old(self).mods(),
                r.1@,
                final(self).mods(),
                feed.all().take(from as int),
                feed.all().take(to as int),
            ),
    {
        let mut rc: RangeEncoder = RangeEncoder::new();
        self.encode_span(feed, from, to, finder, &mut rc);
        let ghost end = rc.enc();
        proof {
            rc.lemma_wf();
        }
        (rc.finish(), Ghost(end))
    }

    /// Compress `feed[from..to]` into a range coder that outlives the call.
    ///
    /// A container that frames each chunk separately wants
    /// [`Encoder::encode_range`]; one long stream wants this, so the coder is
    /// flushed once at the end.
    pub fn encode_span(
        &mut self,
        feed: &Feed,
        from: usize,
        to: usize,
        finder: &mut Finder,
        rc: &mut RangeEncoder,
    )
        requires
            old(self).wf(from as int),
            old(rc).wf(),
            feed.wf(),
            old(finder).wf(),
            from <= to <= feed.all().len(),
            to <= MAX_TOTAL,
            feed.first() == 0 || from - feed.first() >= old(self).properties().dict_size,
        ensures
            final(self).wf(to as int),
            final(self).properties() == old(self).properties(),
            final(rc).wf(),
            final(finder).wf(),
            carries(
                old(self).properties(),
                old(rc).enc(),
                old(self).mods(),
                final(rc).enc(),
                final(self).mods(),
                feed.all().take(from as int),
                feed.all().take(to as int),
            ),
            from == to ==> final(rc).enc() == old(rc).enc(),
            final(finder).tries() == old(finder).tries(),
            (Span { coded: final(self).coded(final(rc).enc()), places: final(finder).places() })
                == span_coded(
                old(self).properties(),
                old(finder).tries(),
                feed.all(),
                from as int,
                to as int,
                0,
                Span { coded: old(self).coded(old(rc).enc()), places: old(finder).places() },
            ),
    {
        let ghost all = feed.all();
        let ghost p = self.props;
        let ghost e0 = rc.enc();
        let ghost m0 = self.mods();
        let ghost tries = finder.tries();
        let ghost whole = span_coded(
            p,
            tries,
            all,
            from as int,
            to as int,
            0,
            Span { coded: self.coded(rc.enc()), places: finder.places() },
        );
        let mut at: usize = from;
        let mut barren: usize = 0;
        proof {
            lemma_carries_nothing(p, e0, m0, all.take(from as int));
            feed.lemma_wf();
        }
        while at < to
            invariant
                self.wf(at as int),
                self.props == p,
                rc.wf(),
                feed.wf(),
                finder.wf(),
                all == feed.all(),
                from <= at <= to <= all.len(),
                all.len() <= usize::MAX,
                to <= MAX_TOTAL,
                barren <= at - from,
                feed.first() == 0 || from - feed.first() >= p.dict_size,
                0 <= feed.first(),
                feed.first() <= from,
                p == old(self).props,
                e0 == old(rc).enc(),
                m0 == old(self).mods(),
                at == from ==> rc.enc() == e0,
                finder.tries() == tries,
                whole == span_coded(
                    p,
                    tries,
                    all,
                    at as int,
                    to as int,
                    barren as int,
                    Span { coded: self.coded(rc.enc()), places: finder.places() },
                ),
                carries(
                    p,
                    e0,
                    m0,
                    rc.enc(),
                    self.mods(),
                    all.take(from as int),
                    all.take(at as int),
                ),
            decreases to - at,
        {
            let stride: usize = barren / SKIP_SPAN;
            let ghost s = Span { coded: self.coded(rc.enc()), places: finder.places() };
            let ghost next_places = placed(finder.places(), all, at as int);
            let mut chosen: Option<Match> = None;
            if stride == 0 || at % (1 + stride) == 0 {
                chosen = self.best_at(feed, at, finder);
            }
            finder.insert(feed, at);
            if let Some(current) = chosen {
                if current.len < MATCH_MAX_LEN && at + 1 < to {
                    if let Some(next) = self.best_at(feed, at + 1, finder) {
                        if next.len > current.len + 1 {
                            chosen = None;
                        }
                    }
                }
            }
            if let Some(current) = chosen {
                let room: usize = to - at;
                let len: u32 = if (current.len as usize) < room {
                    current.len
                } else {
                    room as u32
                };
                chosen = if len >= MATCH_MIN_LEN {
                    Some(Match { dist_code: current.dist_code, len, rep: current.rep })
                } else {
                    None
                };
            }
            let ghost e1 = rc.enc();
            let ghost m1 = self.mods();
            assert(chosen == taken_at(p, tries, all, at as int, to as int, barren as int, s));
            match chosen {
                None => {
                    self.encode_literal(rc, feed, at);
                    proof {
                        lemma_carries_step(
                            p,
                            e0,
                            m0,
                            e1,
                            m1,
                            rc.enc(),
                            self.mods(),
                            all.take(from as int),
                            all.take(at as int),
                            all.take(at + 1),
                        );
                    }
                    at = at + 1;
                    barren = barren + 1;
                },
                Some(found) => {
                    barren = 0;
                    self.encode_match(rc, found, at, Ghost(all));
                    proof {
                        lemma_carries_step(
                            p,
                            e0,
                            m0,
                            e1,
                            m1,
                            rc.enc(),
                            self.mods(),
                            all.take(from as int),
                            all.take(at as int),
                            all.take(at + found.len),
                        );
                    }
                    let end: usize = at + found.len as usize;
                    let mut k: usize = at + 1;
                    while k < end
                        invariant
                            finder.wf(),
                            finder.tries() == tries,
                            all == feed.all(),
                            placed_all(next_places, all, at + 1, end as int) == placed_all(
                                finder.places(),
                                all,
                                k as int,
                                end as int,
                            ),
                            feed.wf(),
                            feed.first() <= k,
                            k <= end <= usize::MAX,
                        decreases end - k,
                    {
                        finder.insert(feed, k);
                        k = k + 1;
                    }
                    at = end;
                },
            }
        }
    }

    /// Encode the marker that tells a decoder the stream ends here.
    ///
    /// A container that records the uncompressed size does not need it; one
    /// that writes the size as unknown does.
    pub fn encode_end_marker(&mut self, at: usize, rc: &mut RangeEncoder)
        requires
            old(self).wf(at as int),
            old(rc).wf(),
            at <= MAX_TOTAL,
        ensures
            final(rc).wf(),
            final(rc).enc() == marker_coded(
                old(self).properties(),
                old(self).coded(old(rc).enc()),
                at as int,
            ),
            forall|data: Seq<u8>, hist: Seq<u8>|
                #![trigger range_encoder::accepts(data, final(rc).enc()), lz_of(old(self).mods(), range_encoder::coder_for(data, old(rc).enc()), hist)]
                range_encoder::accepts(data, final(rc).enc()) && hist.len() == at
                    ==> range_encoder::accepts(data, old(rc).enc()) && (syntax::step(
                    data,
                    old(self).properties(),
                    lz_of(
                        old(self).mods(),
                        range_encoder::coder_for(data, old(rc).enc()),
                        hist,
                    ),
                ) matches Outcome::Marker(t) && t.hist == hist && t.dec.coder
                    == range_encoder::coder_for(data, final(rc).enc())),
    {
        let pb: u32 = self.props.pb;
        let ghost m0 = self.mods();
        let ghost e0 = rc.enc();
        let ghost p = self.props;
        proof {
            lemma2_to64();
            lemma_pow2_pos(pb as nat);
            lemma_pow2_pos((p.lc + p.lp) as nat);
            if pb < 4 {
                lemma_pow2_strictly_increases(pb as nat, 4);
            }
        }
        let pos_state: usize = (at as u64 % bits::power_of_two(pb)) as usize;
        rc.slot(&mut self.model, IS_MATCH + 16 * self.state + pos_state, 1);
        let ghost e1 = rc.enc();
        rc.slot(&mut self.model, IS_REP + self.state, 0);
        let ghost e2 = rc.enc();
        Self::encode_length(rc, &mut self.model, LEN, 0, pos_state);
        let ghost e3 = rc.enc();
        Self::encode_distance(rc, &mut self.model, 0xffff_ffff, 0);
        proof {
            reveal(syntax::step);
            let e4 = rc.enc();
            assert forall|data: Seq<u8>, hist: Seq<u8>|
                #![trigger range_encoder::accepts(data, e4), lz_of(m0, range_encoder::coder_for(data, e0), hist)]
                range_encoder::accepts(data, e4) && hist.len() == at implies range_encoder::accepts(
                data,
                e0,
            ) && (syntax::step(
                data,
                p,
                lz_of(m0, range_encoder::coder_for(data, e0), hist),
            ) matches Outcome::Marker(t) && t.hist == hist && t.dec.coder
                == range_encoder::coder_for(data, e4)) by {
                assert(range_encoder::accepts(data, e3));
                assert(range_encoder::accepts(data, e2));
                assert(range_encoder::accepts(data, e1));
            }
        }
    }
}

/// Whether `r` starts with a raw stream of the data `d`: whatever follows it,
/// a decoder that expects that much reads it, and no byte beyond `r`.
pub open spec fn is_stream(r: Seq<u8>, p: Properties, d: Seq<u8>) -> bool {
    r.len() >= 5 && forall|tail: Seq<u8>| #[trigger]
        syntax::run(
            r + tail,
            p,
            syntax::fresh(range::start_coder(r + tail), p, Seq::empty(), 0),
            d.len() as int,
        ) matches Ending::Limit(t) && t.hist == d && t.total == d.len() && t.dec.coder.pos
            <= r.len()
}

/// The encoder of a stream to which nothing was written.
pub open spec fn first_enc() -> Enc {
    Enc { n: 1, low: 0, range: 0xffff_ffff }
}

/// What was written from a fresh model up to the end of the data makes a
/// stream of it.
pub proof fn lemma_span_stream(p: Properties, e: Enc, m: Mods, r: Seq<u8>, d: Seq<u8>)
    requires
        carries(p, first_enc(), syntax::fresh_mods(p), e, m, Seq::empty(), d),
        r.len() >= 5,
        r.len() == e.n + 4,
        forall|tail: Seq<u8>| #[trigger] range_encoder::accepts(r + tail, e),
    ensures
        is_stream(r, p, d),
{
    reveal(carries);
    assert forall|tail: Seq<u8>| #[trigger]
        syntax::run(
            r + tail,
            p,
            syntax::fresh(range::start_coder(r + tail), p, Seq::empty(), 0),
            d.len() as int,
        ) matches Ending::Limit(t) && t.hist == d && t.total == d.len() && t.dec.coder.pos
            <= r.len() by {
        let all = r + tail;
        assert(range_encoder::accepts(all, e));
        let s = lz_of(
            syntax::fresh_mods(p),
            range_encoder::coder_for(all, first_enc()),
            Seq::empty(),
        );
        let t = syntax::run(all, p, s, d.len() as int);
        range_encoder::lemma_start(all);
        assert(s =~= syntax::fresh(range::start_coder(all), p, Seq::empty(), 0));
    }
}

/// Data that is encoded in two spans, the second going on where the first left
/// the coder and the model, makes a stream of all of it: where it was split
/// does not show to the decoder.
pub proof fn lemma_two_spans(
    p: Properties,
    e1: Enc,
    m1: Mods,
    e2: Enc,
    m2: Mods,
    r: Seq<u8>,
    d: Seq<u8>,
    k: int,
)
    requires
        0 <= k <= d.len(),
        carries(p, first_enc(), syntax::fresh_mods(p), e1, m1, d.take(0), d.take(k)),
        carries(p, e1, m1, e2, m2, d.take(k), d.take(d.len() as int)),
        r.len() >= 5,
        r.len() == e2.n + 4,
        forall|tail: Seq<u8>| #[trigger] range_encoder::accepts(r + tail, e2),
    ensures
        is_stream(r, p, d),
        d.len() <= u64::MAX ==> syntax::stream(r, p, Some(d.len() as u64)) == Some(d),
{
    assert(d.take(0) =~= Seq::<u8>::empty());
    assert(d.take(d.len() as int) =~= d);
    lemma_carries_trans(
        p,
        first_enc(),
        syntax::fresh_mods(p),
        e1,
        m1,
        e2,
        m2,
        Seq::empty(),
        d.take(k),
        d,
    );
    lemma_span_stream(p, e2, m2, r, d);
    if d.len() <= u64::MAX {
        lemma_read_back(r, p, d, Seq::empty());
        assert(r + Seq::<u8>::empty() =~= r);
    }
}

/// A stream of some data is read back by a decoder that expects that much,
/// whatever follows it.
pub proof fn lemma_read_back(r: Seq<u8>, p: Properties, d: Seq<u8>, tail: Seq<u8>)
    requires
        is_stream(r, p, d),
        d.len() <= u64::MAX,
    ensures
        syntax::stream(r + tail, p, Some(d.len() as u64)) == Some(d),
{
    assert(syntax::limit_of(Some(d.len() as u64)) == d.len());
    assert(syntax::run(
        r + tail,
        p,
        syntax::fresh(range::start_coder(r + tail), p, Seq::empty(), 0),
        d.len() as int,
    ) is Limit);
}

/// Choose a dictionary size, clamped to what the format and decoder accept.
pub fn dictionary_for(len: usize) -> (r: u32)
    ensures
        r == dictionary_of(len as int, Level::Default),
        4096 <= r <= 0x4000_0000,
{
    dictionary_at(len, Level::Default)
}

/// The largest dictionary of a level.
pub open spec fn dictionary_ceiling(level: Level) -> int {
    match level {
        Level::Stored | Level::Fast => 0x10_0000,
        Level::Default => 0x80_0000,
        Level::Best => 0x400_0000,
    }
}

/// The smallest power of two that is at least `n` and at least `from`.
pub open spec fn power_above(n: int, from: int) -> int
    decreases 2 * n - from,
{
    if from <= 0 || from >= n {
        from
    } else {
        power_above(n, 2 * from)
    }
}

/// The dictionary size for an input of `len` bytes: the next power of two,
/// from 64 KiB to what the level allows.
pub open spec fn dictionary_of(len: int, level: Level) -> int {
    power_above(
        if len < dictionary_ceiling(level) {
            len
        } else {
            dictionary_ceiling(level)
        },
        0x1_0000,
    )
}

/// Choose a dictionary size for a level, clamped to what the format accepts.
///
/// A larger dictionary finds more distant matches but costs four bytes of
/// match chain per byte it spans, so the level decides how much of that to
/// spend. The default matches what `xz -6` uses.
pub fn dictionary_at(len: usize, level: Level) -> (r: u32)
    ensures
        r == dictionary_of(len as int, level),
        0x1_0000 <= r <= dictionary_ceiling(level),
{
    let ceiling: usize = match level {
        Level::Stored | Level::Fast => 0x10_0000,
        Level::Default => 0x80_0000,
        Level::Best => 0x400_0000,
    };
    let most: usize = if len < ceiling {
        len
    } else {
        ceiling
    };
    let mut wanted: usize = 0x1_0000;
    while wanted < most
        invariant
            most <= ceiling,
            ceiling == 0x10_0000 || ceiling == 0x80_0000 || ceiling == 0x400_0000,
            wanted == 0x1_0000 || wanted == 0x2_0000 || wanted == 0x4_0000 || wanted == 0x8_0000
                || wanted == 0x10_0000 || wanted == 0x20_0000 || wanted == 0x40_0000 || wanted
                == 0x80_0000 || wanted == 0x100_0000 || wanted == 0x200_0000 || wanted
                == 0x400_0000,
            wanted <= ceiling,
            power_above(most as int, wanted as int) == power_above(most as int, 0x1_0000),
        decreases ceiling - wanted,
    {
        wanted = 2 * wanted;
    }
    wanted as u32
}

/// The properties byte of parameters.
pub fn properties_byte(props: Properties) -> (r: u8)
    requires
        syntax::props_ok(props),
    ensures
        r == props.lc + 9 * (props.lp + 5 * props.pb),
        r < 225,
{
    ((props.pb * 5 + props.lp) * 9 + props.lc) as u8
}

/// The default lc, lp and pb, with the dictionary size of `props`.
pub open spec fn with_defaults(props: Properties) -> Properties {
    Properties { lc: 3, lp: 0, pb: 2, dict_size: props.dict_size }
}

/// Compress into a raw LZMA stream using the default lc/lp/pb, whatever those
/// of `props` are, and its dictionary size.
pub fn compress_raw(data: &[u8], props: Properties, depth: usize) -> (r: Vec<u8>)
    requires
        1 <= props.dict_size <= 0x4000_0000,
        data@.len() <= MAX_TOTAL,
    ensures
        is_stream(r@, with_defaults(props), data@),
        r@ == raw_of(with_defaults(props), depth, data@),
        data@.len() == 0 ==> r@ == seq![0u8, 0u8, 0u8, 0u8, 0u8],
        syntax::stream(r@, with_defaults(props), Some(data@.len() as u64)) == Some(data@),
{
    let used: Properties = Properties { lc: 3, lp: 0, pb: 2, dict_size: props.dict_size };
    let mut encoder: Encoder = Encoder::new(used);
    assert(encoder.wf(0));
    let r: Vec<u8> = encoder.encode(data, depth);
    proof {
        lemma_read_back(r@, used, data@, Seq::empty());
        assert(r@ + Seq::<u8>::empty() =~= r@);
    }
    r
}

} // verus!
