//! The 64 bit xxHash.
use crate::utils::bytes;
use crate::utils::bytes::{get_le32, get_le64};
use vstd::prelude::*;

verus! {

pub const PRIME_1: u64 = 0x9E37_79B1_85EB_CA87;

pub const PRIME_2: u64 = 0xC2B2_AE3D_27D4_EB4F;

pub const PRIME_3: u64 = 0x1656_67B1_9E37_79F9;

pub const PRIME_4: u64 = 0x85EB_CA77_C2B2_AE63;

pub const PRIME_5: u64 = 0x27D4_EB2F_1656_67C5;

/// The four lanes.
#[derive(Debug, Clone, Copy)]
pub struct Lanes {
    pub a: u64,
    pub b: u64,
    pub c: u64,
    pub d: u64,
}

/// `x` turned left by `n` bits.
pub open spec fn turned(x: u64, n: u64) -> u64 {
    (x << n) | (x >> ((64 - n) as u64))
}

/// One lane with eight more bytes.
pub open spec fn mixed(lane: u64, input: u64) -> u64 {
    turned(lane.wrapping_add(input.wrapping_mul(PRIME_2)), 31).wrapping_mul(PRIME_1)
}

/// The lanes before any data.
pub open spec fn lanes_of(seed: u64) -> Lanes {
    Lanes {
        a: seed.wrapping_add(PRIME_1).wrapping_add(PRIME_2),
        b: seed.wrapping_add(PRIME_2),
        c: seed,
        d: seed.wrapping_sub(PRIME_1),
    }
}

/// The lanes with 32 more bytes.
pub open spec fn striped(l: Lanes, s: Seq<u8>) -> Lanes {
    Lanes {
        a: mixed(l.a, bytes::le(s, 0, 8) as u64),
        b: mixed(l.b, bytes::le(s, 8, 8) as u64),
        c: mixed(l.c, bytes::le(s, 16, 8) as u64),
        d: mixed(l.d, bytes::le(s, 24, 8) as u64),
    }
}

/// The lanes after as many whole stripes of `s` as there are, and what is
/// left over.
pub open spec fn absorbed(l: Lanes, s: Seq<u8>) -> (Lanes, Seq<u8>)
    decreases s.len(),
{
    if s.len() < 32 {
        (l, s)
    } else {
        absorbed(striped(l, s), s.skip(32))
    }
}

/// Fold one lane into the hash.
pub open spec fn merged(h: u64, lane: u64) -> u64 {
    (h ^ mixed(0, lane)).wrapping_mul(PRIME_1).wrapping_add(PRIME_4)
}

/// The hash of whole stripes.
pub open spec fn converged(l: Lanes) -> u64 {
    let h = turned(l.a, 1).wrapping_add(turned(l.b, 7)).wrapping_add(
        turned(l.c, 12),
    ).wrapping_add(turned(l.d, 18));
    merged(merged(merged(merged(h, l.a), l.b), l.c), l.d)
}

/// The hash with the bytes that fill no stripe.
pub open spec fn tailed(h: u64, s: Seq<u8>) -> u64
    decreases s.len(),
{
    if s.len() >= 8 {
        tailed(
            turned(h ^ mixed(0, bytes::le(s, 0, 8) as u64), 27).wrapping_mul(
                PRIME_1,
            ).wrapping_add(PRIME_4),
            s.skip(8),
        )
    } else if s.len() >= 4 {
        tailed(
            turned(h ^ (bytes::le(s, 0, 4) as u64).wrapping_mul(PRIME_1), 23).wrapping_mul(
                PRIME_2,
            ).wrapping_add(PRIME_3),
            s.skip(4),
        )
    } else if s.len() > 0 {
        tailed(
            turned(h ^ (s[0] as u64).wrapping_mul(PRIME_5), 11).wrapping_mul(PRIME_1),
            s.skip(1),
        )
    } else {
        h
    }
}

/// Spread every bit over the whole hash.
pub open spec fn scrambled(h: u64) -> u64 {
    let x = (h ^ (h >> 33u64)).wrapping_mul(PRIME_2);
    let y = (x ^ (x >> 29u64)).wrapping_mul(PRIME_3);
    y ^ (y >> 32u64)
}

/// The hash of `data`.
pub open spec fn xxh64(data: Seq<u8>, seed: u64) -> u64 {
    let (lanes, rest) = absorbed(lanes_of(seed), data);
    let h = if data.len() >= 32 {
        converged(lanes)
    } else {
        seed.wrapping_add(PRIME_5)
    };
    scrambled(tailed(h.wrapping_add(data.len() as u64), rest))
}

proof fn lemma_absorbed(l: Lanes, x: Seq<u8>, y: Seq<u8>)
    ensures
        absorbed(l, x + y) == absorbed(absorbed(l, x).0, absorbed(l, x).1 + y),
        absorbed(l, x).1.len() < 32,
    decreases x.len(),
{
    if x.len() >= 32 {
        lemma_absorbed(striped(l, x), x.skip(32), y);
        assert((x + y).skip(32) =~= x.skip(32) + y);
        lemma_le_front(x, y, 0);
        lemma_le_front(x, y, 8);
        lemma_le_front(x, y, 16);
        lemma_le_front(x, y, 24);
    }
}

proof fn lemma_le_front(x: Seq<u8>, y: Seq<u8>, at: int)
    requires
        0 <= at,
        at + 8 <= x.len(),
    ensures
        bytes::le(x + y, at, 8) == bytes::le(x, at, 8),
{
    reveal_with_fuel(bytes::le, 9);
}

fn turn(x: u64, n: u64) -> (r: u64)
    requires
        0 < n < 64,
    ensures
        r == turned(x, n),
{
    (x << n) | (x >> (64 - n))
}

fn mix(lane: u64, input: u64) -> (r: u64)
    ensures
        r == mixed(lane, input),
{
    turn(lane.wrapping_add(input.wrapping_mul(PRIME_2)), 31).wrapping_mul(PRIME_1)
}

fn merge(h: u64, lane: u64) -> (r: u64)
    ensures
        r == merged(h, lane),
{
    (h ^ mix(0, lane)).wrapping_mul(PRIME_1).wrapping_add(PRIME_4)
}

/// A hash of data that arrives in pieces.
#[derive(Clone)]
pub struct XxHash64 {
    seed: u64,
    lanes: Lanes,
    pending: Vec<u8>,
    total: u64,
    data: Ghost<Seq<u8>>,
}

impl XxHash64 {
    /// What it was made with.
    pub closed spec fn seed(&self) -> u64 {
        self.seed
    }

    /// What was hashed so far.
    pub closed spec fn data(&self) -> Seq<u8> {
        self.data@
    }

    /// The lanes have taken in every whole stripe.
    pub closed spec fn wf(&self) -> bool {
        &&& self.total == self.data@.len()
        &&& (self.lanes, self.pending@) == absorbed(lanes_of(self.seed), self.data@)
        &&& self.pending@.len() < 32
    }

    /// A hash of nothing.
    pub fn new(seed: u64) -> (r: Self)
        ensures
            r.wf(),
            r.seed() == seed,
            r.data() == Seq::<u8>::empty(),
    {
        let lanes: Lanes = Lanes {
            a: seed.wrapping_add(PRIME_1).wrapping_add(PRIME_2),
            b: seed.wrapping_add(PRIME_2),
            c: seed,
            d: seed.wrapping_sub(PRIME_1),
        };
        let r: XxHash64 = XxHash64 {
            seed,
            lanes,
            pending: Vec::new(),
            total: 0,
            data: Ghost(Seq::empty()),
        };
        assert(r.pending@ =~= Seq::<u8>::empty());
        r
    }

    /// Hash more data.
    pub fn update(&mut self, data: &[u8])
        requires
            old(self).wf(),
            old(self).data().len() + data@.len() <= u64::MAX,
        ensures
            final(self).wf(),
            final(self).seed() == old(self).seed(),
            final(self).data() == old(self).data() + data@,
    {
        let ghost whole = self.data@ + data@;
        proof {
            lemma_absorbed(lanes_of(self.seed), self.data@, data@);
        }
        self.pending.extend_from_slice(data);
        assert(self.pending@ =~= old(self).pending@ + data@);
        let mut lanes: Lanes = self.lanes;
        let mut at: usize = 0;
        assert(self.pending@.skip(0) =~= self.pending@);
        while self.pending.len() - at >= 32
            invariant
                at <= self.pending@.len(),
                absorbed(lanes_of(self.seed), whole) == absorbed(
                    lanes,
                    self.pending@.skip(at as int),
                ),
                self.seed == old(self).seed,
                self.total == old(self).total,
                self.data == old(self).data,
            decreases self.pending@.len() - at,
        {
            let ghost rest = self.pending@.skip(at as int);
            let s: &[u8] = &self.pending.as_slice()[at..self.pending.len()];
            assert(s@ =~= rest);
            lanes = Lanes {
                a: mix(lanes.a, get_le64(s, 0)),
                b: mix(lanes.b, get_le64(s, 8)),
                c: mix(lanes.c, get_le64(s, 16)),
                d: mix(lanes.d, get_le64(s, 24)),
            };
            at = at + 32;
            assert(self.pending@.skip(at as int) =~= rest.skip(32));
        }
        let mut left: Vec<u8> = Vec::with_capacity(32);
        left.extend_from_slice(&self.pending.as_slice()[at..self.pending.len()]);
        assert(left@ =~= self.pending@.skip(at as int));
        self.lanes = lanes;
        self.pending = left;
        self.total = self.total + data.len() as u64;
        self.data = Ghost(whole);
    }

    /// The hash of what was taken in.
    pub fn finish(&self) -> (r: u64)
        requires
            self.wf(),
        ensures
            r == xxh64(self.data(), self.seed()),
    {
        let l: Lanes = self.lanes;
        let mut h: u64 = if self.total >= 32 {
            let h: u64 = turn(l.a, 1).wrapping_add(turn(l.b, 7)).wrapping_add(
                turn(l.c, 12),
            ).wrapping_add(turn(l.d, 18));
            merge(merge(merge(merge(h, l.a), l.b), l.c), l.d)
        } else {
            self.seed.wrapping_add(PRIME_5)
        };
        h = h.wrapping_add(self.total);
        let ghost want = tailed(h, self.pending@);
        let mut at: usize = 0;
        assert(self.pending@.skip(0) =~= self.pending@);
        while at < self.pending.len()
            invariant
                at <= self.pending@.len(),
                want == tailed(h, self.pending@.skip(at as int)),
            decreases self.pending@.len() - at,
        {
            let ghost rest = self.pending@.skip(at as int);
            let s: &[u8] = &self.pending.as_slice()[at..self.pending.len()];
            assert(s@ =~= rest);
            if s.len() >= 8 {
                h = turn(h ^ mix(0, get_le64(s, 0)), 27).wrapping_mul(PRIME_1).wrapping_add(
                    PRIME_4,
                );
                at = at + 8;
                assert(self.pending@.skip(at as int) =~= rest.skip(8));
            } else if s.len() >= 4 {
                h = turn(h ^ (get_le32(s, 0) as u64).wrapping_mul(PRIME_1), 23).wrapping_mul(
                    PRIME_2,
                ).wrapping_add(PRIME_3);
                at = at + 4;
                assert(self.pending@.skip(at as int) =~= rest.skip(4));
            } else {
                h = turn(h ^ (s[0] as u64).wrapping_mul(PRIME_5), 11).wrapping_mul(PRIME_1);
                at = at + 1;
                assert(self.pending@.skip(at as int) =~= rest.skip(1));
            }
        }
        let x: u64 = (h ^ (h >> 33u64)).wrapping_mul(PRIME_2);
        let y: u64 = (x ^ (x >> 29u64)).wrapping_mul(PRIME_3);
        y ^ (y >> 32u64)
    }

    /// The hash of `data` with a seed of zero.
    pub fn hash(data: &[u8]) -> (r: u64)
        ensures
            r == xxh64(data@, 0),
    {
        let mut h: XxHash64 = XxHash64::new(0);
        assert(data.len() <= usize::MAX);
        h.update(data);
        assert(Seq::<u8>::empty() + data@ =~= data@);
        h.finish()
    }
}

} // verus!
