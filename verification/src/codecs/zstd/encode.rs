//! Writing Zstandard.
use crate::codecs::matching;
use crate::codecs::matching::{Places, NO_PLACE};
use crate::codecs::sliding::{Feed, Sliding};
use crate::codecs::zstd::layout;
use crate::codecs::zstd::pack;
use crate::codecs::zstd::pack::{compressed_body, Predefined, Sequence};
use crate::codecs::zstd::sequences;
use crate::utils::bits::{floor_log2, power_of_two};
use crate::utils::bytes;
use crate::utils::bytes::put_le;
use crate::utils::error;
use crate::utils::error::{Error, Result};
use crate::utils::lz;
use crate::utils::xxhash;
use crate::utils::xxhash::XxHash64;
use vstd::arithmetic::power2::*;
use vstd::prelude::*;

verus! {

pub const MAGIC: [u8; 4] = [0x28, 0xb5, 0x2f, 0xfd];

pub const BLOCK_MAX: usize = 131_072;

pub const RAW_BLOCK: u32 = 0;

pub const RLE_BLOCK: u32 = 1;

pub const COMPRESSED_BLOCK: u32 = 2;

/// How far back a match may reach, and so how much input a streaming writer
/// holds.
pub const WINDOW_SIZE: usize = 8_388_608;

pub const MIN_MATCH: usize = 3;

/// How fast the search gives up on a stretch that keeps yielding literals.
///
/// After enough misses in a row the encoder starts stepping over positions
/// rather than searching every one, which is what keeps incompressible input
/// from costing a full hash chain walk per byte. Any match resets it.
pub const SKIP_SPAN: usize = 64;

pub const HASH_SIZE: usize = 131_072;

pub const DEFAULT_DEPTH: usize = 32;

/// The most data that one frame takes.
pub const MAX_DATA: u64 = 0x7fff_ffff_ffff_ffff;

/// A block's header.
pub open spec fn block_head(kind: u32, size: nat, last: bool) -> Seq<u8> {
    bytes::le_bytes(
        (if last {
            1nat
        } else {
            0
        }) + kind as nat * 2 + size * 8,
        3,
    )
}

/// Whether `enc` is a block that takes a frame from `out` to `want`.
pub open spec fn is_block(
    enc: Seq<u8>,
    last: bool,
    window: nat,
    room: nat,
    out: Seq<u8>,
    want: Seq<u8>,
) -> bool {
    forall|before: Seq<u8>, tail: Seq<u8>, f: layout::Frame|
        f.done.out == out && f.header.window == window ==> match #[trigger] layout::block(
            before + enc + tail,
            before.len(),
            f,
            room,
        ) {
            Ok((g, q, l)) => g.done.out == want && g.header == f.header && q == before.len()
                + enc.len() && l == last,
            Err(_) => false,
        }
}

/// A block's header reads back.
proof fn lemma_head(data: Seq<u8>, pos: nat, kind: u32, size: nat, last: bool)
    requires
        kind <= 2,
        size <= BLOCK_MAX,
        pos + 3 <= data.len(),
        data.subrange(pos as int, pos as int + 3) == block_head(kind, size, last),
    ensures
        ({
            let v = bytes::le(data, pos as int, 3);
            &&& (v % 2 == 1) == last
            &&& v / 2 % 4 == kind
            &&& v / 8 == size
        }),
{
    let v = (if last {
        1nat
    } else {
        0
    }) + kind as nat * 2 + size * 8;
    assert(v < bytes::span(3)) by {
        reveal_with_fuel(bytes::span, 4);
    }
    bytes::lemma_le_round_trip(data, pos as int, v, 3);
}

/// A block with a body of so many bytes.
proof fn lemma_framed(before: Seq<u8>, kind: u32, size: nat, last: bool, body: Seq<u8>, tail: Seq<u8>)
    requires
        kind <= 2,
        size <= BLOCK_MAX,
        body.len() == if kind == 1 {
            1
        } else {
            size
        },
    ensures
        ({
            let enc = block_head(kind, size, last) + body;
            let data = before + enc + tail;
            let v = bytes::le(data, before.len() as int, 3);
            &&& enc.len() == 3 + body.len()
            &&& before.len() + 3 <= data.len()
            &&& (v % 2 == 1) == last
            &&& v / 2 % 4 == kind
            &&& v / 8 == size
            &&& layout::field(data, before.len() + 3, body.len()) == Ok::<(Seq<u8>, nat), Error>(
                (body, before.len() + enc.len()),
            )
        }),
{
    let h = block_head(kind, size, last);
    bytes::lemma_le_bytes_len(
        (if last {
            1nat
        } else {
            0
        }) + kind as nat * 2 + size * 8,
        3,
    );
    let enc = h + body;
    let data = before + enc + tail;
    let p = before.len() as int;
    assert(data.subrange(p, p + 3) =~= h);
    lemma_head(data, before.len(), kind, size, last);
    if body.len() > 0 {
        assert(data.subrange(p + 3, p + 3 + body.len()) =~= body);
    } else {
        assert(body =~= Seq::<u8>::empty());
    }
}

proof fn lemma_raw(body: Seq<u8>, last: bool, window: nat, room: nat, out: Seq<u8>)
    requires
        body.len() <= BLOCK_MAX,
        out.len() + body.len() <= room,
    ensures
        is_block(
            block_head(RAW_BLOCK, body.len(), last) + body,
            last,
            window,
            room,
            out,
            out + body,
        ),
{
    let enc = block_head(RAW_BLOCK, body.len(), last) + body;
    assert forall|before: Seq<u8>, tail: Seq<u8>, f: layout::Frame|
        f.done.out == out && f.header.window == window implies match #[trigger] layout::block(
        before + enc + tail,
        before.len(),
        f,
        room,
    ) {
        Ok((g, q, l)) => g.done.out == out + body && g.header == f.header && q == before.len()
            + enc.len() && l == last,
        Err(_) => false,
    } by {
        reveal(layout::block);
        lemma_framed(before, RAW_BLOCK, body.len(), last, body, tail);
    }
}

proof fn lemma_rle(byte: u8, n: nat, last: bool, window: nat, room: nat, out: Seq<u8>, body: Seq<u8>)
    requires
        n <= BLOCK_MAX,
        out.len() + n <= room,
        body == Seq::new(n, |i: int| byte),
    ensures
        is_block(
            block_head(RLE_BLOCK, n, last) + seq![byte],
            last,
            window,
            room,
            out,
            out + body,
        ),
{
    let enc = block_head(RLE_BLOCK, n, last) + seq![byte];
    assert forall|before: Seq<u8>, tail: Seq<u8>, f: layout::Frame|
        f.done.out == out && f.header.window == window implies match #[trigger] layout::block(
        before + enc + tail,
        before.len(),
        f,
        room,
    ) {
        Ok((g, q, l)) => g.done.out == out + body && g.header == f.header && q == before.len()
            + enc.len() && l == last,
        Err(_) => false,
    } by {
        reveal(layout::block);
        lemma_framed(before, RLE_BLOCK, n, last, seq![byte], tail);
        assert(Seq::new(n, |i: int| seq![byte][0]) =~= body);
    }
}

proof fn lemma_compressed(
    body: Seq<u8>,
    last: bool,
    window: nat,
    room: nat,
    out: Seq<u8>,
    want: Seq<u8>,
)
    requires
        body.len() <= BLOCK_MAX,
        pack::expands(body, window, room, out, want),
    ensures
        is_block(
            block_head(COMPRESSED_BLOCK, body.len(), last) + body,
            last,
            window,
            room,
            out,
            want,
        ),
{
    let enc = block_head(COMPRESSED_BLOCK, body.len(), last) + body;
    assert forall|before: Seq<u8>, tail: Seq<u8>, f: layout::Frame|
        f.done.out == out && f.header.window == window implies match #[trigger] layout::block(
        before + enc + tail,
        before.len(),
        f,
        room,
    ) {
        Ok((g, q, l)) => g.done.out == want && g.header == f.header && q == before.len()
            + enc.len() && l == last,
        Err(_) => false,
    } by {
        reveal(layout::block);
        lemma_framed(before, COMPRESSED_BLOCK, body.len(), last, body, tail);
        assert(layout::compressed(body, f, room) is Ok);
    }
}

fn write_block_header(out: &mut Vec<u8>, kind: u32, size: usize, last: bool)
    requires
        kind <= 2,
        size <= BLOCK_MAX,
    ensures
        final(out)@ == old(out)@ + block_head(kind, size as nat, last),
{
    let value: u64 = (if last {
        1
    } else {
        0
    }) + kind as u64 * 2 + size as u64 * 8;
    put_le(out, value, 3);
}

fn rle_byte(block: &[u8]) -> (r: Option<u8>)
    ensures
        r matches Some(b) ==> block@ == Seq::new(block@.len(), |i: int| b) && block@.len() > 0,
        r is None ==> block@.len() == 0 || exists|i: int|
            0 <= i < block@.len() && #[trigger] block@[i] != block@[0],
{
    if block.len() == 0 {
        return None;
    }
    let first: u8 = block[0];
    let mut i: usize = 1;
    while i < block.len()
        invariant
            1 <= i <= block.len(),
            first == block@[0],
            forall|k: int| 0 <= k < i ==> #[trigger] block@[k] == first,
        decreases block.len() - i,
    {
        if block[i] != first {
            return None;
        }
        i = i + 1;
    }
    assert(block@ =~= Seq::new(block@.len(), |i: int| first));
    Some(first)
}

/// Finds earlier occurrences of what comes next.
struct Finder {
    head: Vec<u32>,
    chain: Vec<u32>,
    depth: usize,
}

/// Whether the bytes at `at` stand `distance` bytes before it, too.
pub open spec fn matches_at(all: Seq<u8>, at: int, length: int, distance: int) -> bool {
    &&& 1 <= distance <= at
    &&& at + length <= all.len()
    &&& forall|k: int| at <= k < at + length ==> #[trigger] all[k] == all[k - distance]
}

/// The hash of the three bytes at `at`.
pub open spec fn hash_at(all: Seq<u8>, at: int) -> int {
    let value = all[at] + 256 * all[at + 1] + 65_536 * all[at + 2];
    ((value as u32).wrapping_mul(2_654_435_761) / 32_768) as int
}

/// How many places an input of `len` bytes is worth, rounded down to a power
/// of two.
pub open spec fn span_for(len: int) -> nat {
    let wanted = if len < 1 {
        1
    } else if len > WINDOW_SIZE {
        WINDOW_SIZE as int
    } else {
        len
    };
    pow2(crate::utils::bits::log2(wanted as nat))
}

/// The longest match at `at` that a finder knows of, with its distance, where
/// it is long enough to be one.
pub open spec fn longest_of(
    p: Places,
    tries: nat,
    all: Seq<u8>,
    at: int,
    limit: int,
) -> Option<(int, int)> {
    let (len, distance) = matching::walked(
        p.links,
        all,
        if at > p.links.len() {
            at - p.links.len()
        } else {
            0
        },
        at,
        limit,
        p.heads[hash_at(all, at)],
        tries,
        (0int, 0int),
    );
    if limit < MIN_MATCH || len < MIN_MATCH {
        None
    } else {
        Some((len, distance))
    }
}

/// The places after `at` was remembered, where enough bytes follow.
pub open spec fn placed(p: Places, all: Seq<u8>, at: int) -> Places {
    if at + MIN_MATCH <= all.len() {
        matching::remembered(p, hash_at(all, at), at)
    } else {
        p
    }
}

/// The places after `n` in a row were remembered.
pub open spec fn all_placed(p: Places, all: Seq<u8>, at: int, n: nat) -> Places
    decreases n,
{
    if n == 0 {
        p
    } else {
        placed(all_placed(p, all, at, (n - 1) as nat), all, at + n - 1)
    }
}

impl Finder {
    spec fn wf(&self) -> bool {
        &&& self.head@.len() == HASH_SIZE
        &&& 1 <= self.chain@.len() <= WINDOW_SIZE
    }

    /// The places that were remembered.
    spec fn places(&self) -> Places {
        Places { heads: self.head@, links: self.chain@ }
    }

    fn new(len: usize, depth: usize) -> (r: Self)
        ensures
            r.wf(),
            r.places() == matching::no_places(HASH_SIZE as nat, span_for(len as int)),
            r.depth == tries_for(depth),
    {
        let wanted: u32 = if len < 1 {
            1
        } else if len > WINDOW_SIZE {
            WINDOW_SIZE as u32
        } else {
            len as u32
        };
        proof {
            crate::utils::bits::lemma_log2(wanted as nat);
            lemma2_to64();
            lemma_pow2_pos(crate::utils::bits::log2(wanted as nat));
        }
        let span: usize = power_of_two(floor_log2(wanted)) as usize;
        let r: Finder = Finder {
            head: vec![NO_PLACE; HASH_SIZE],
            chain: vec![NO_PLACE; span],
            depth: if depth < 1 {
                1
            } else {
                depth
            },
        };
        assert(r.places().heads =~= Seq::new(HASH_SIZE as nat, |i: int| NO_PLACE));
        assert(r.places().links =~= Seq::new(span as nat, |i: int| NO_PLACE));
        r
    }

    fn hash(feed: &Feed<'_>, at: usize) -> (r: usize)
        requires
            feed.wf(),
            feed.first() <= at,
            at + MIN_MATCH <= feed.all().len(),
        ensures
            r < HASH_SIZE,
            r == hash_at(feed.all(), at as int),
    {
        proof {
            feed.lemma_wf();
        }
        let value: u32 = feed.get(at) as u32 + 256 * (feed.get(at + 1) as u32) + 65_536 * (feed.get(
            at + 2,
        ) as u32);
        (value.wrapping_mul(2_654_435_761) / 32_768) as usize
    }

    fn insert(&mut self, feed: &Feed<'_>, at: usize)
        requires
            old(self).wf(),
            feed.wf(),
            feed.first() <= at < feed.all().len(),
        ensures
            final(self).wf(),
            final(self).depth == old(self).depth,
            final(self).places() == placed(old(self).places(), feed.all(), at as int),
    {
        let end: usize = feed.end();
        if end - at < MIN_MATCH {
            return;
        }
        let slot: usize = Self::hash(feed, at);
        let cell: usize = at % self.chain.len();
        let previous: u32 = self.head[slot];
        self.chain.set(cell, previous);
        self.head.set(slot, (at as u64 % 0x1_0000_0000) as u32);
    }

    #[verifier::spinoff_prover]
    fn find(&self, feed: &Feed<'_>, at: usize, max_len: usize) -> (r: Option<(usize, usize)>)
        requires
            self.wf(),
            feed.wf(),
            feed.first() <= at,
            feed.first() == 0 || feed.first() + self.places().links.len() <= at,
            at + max_len <= feed.all().len(),
        ensures
            r matches Some((length, distance)) ==> MIN_MATCH <= length <= max_len && distance
                <= WINDOW_SIZE && matches_at(
                feed.all(),
                at as int,
                length as int,
                distance as int,
            ),
            match longest_of(
                self.places(),
                self.depth as nat,
                feed.all(),
                at as int,
                max_len as int,
            ) {
                Some((len, back)) => r matches Some((l, d)) && l == len && d == back,
                None => r is None,
            },
    {
        proof {
            feed.lemma_wf();
        }
        if max_len < MIN_MATCH {
            return None;
        }
        let span: usize = self.chain.len();
        let mut earliest: usize = if at > span {
            at - span
        } else {
            0
        };
        if feed.base() > earliest {
            earliest = feed.base();
        }
        let mut candidate: u32 = self.head[Self::hash(feed, at)];
        let mut tries: usize = self.depth;
        let mut best_len: usize = 0;
        let mut best_distance: usize = 0;
        let ghost found = matching::walked(
            self.chain@,
            feed.all(),
            earliest as int,
            at as int,
            max_len as int,
            candidate,
            tries as nat,
            (0int, 0int),
        );
        while candidate != NO_PLACE && tries > 0
            invariant
                found == matching::walked(
                    self.chain@,
                    feed.all(),
                    earliest as int,
                    at as int,
                    max_len as int,
                    candidate,
                    tries as nat,
                    (best_len as int, best_distance as int),
                ),
                self.wf(),
                feed.wf(),
                feed.first() <= at,
                at + max_len <= feed.all().len() <= usize::MAX,
                feed.first() <= earliest,
                at - earliest <= WINDOW_SIZE,
                best_len < max_len || tries == 0,
                best_len <= max_len,
                best_len > 0 ==> best_distance <= WINDOW_SIZE && matches_at(
                    feed.all(),
                    at as int,
                    best_len as int,
                    best_distance as int,
                ),
            decreases tries,
        {
            let position: usize = candidate as usize;
            if position < earliest || position >= at {
                tries = 0;
            } else {
                let ghost agreed = matching::common(
                    feed.all(),
                    position as int,
                    at as int,
                    0,
                    max_len as int,
                );
                proof {
                    matching::lemma_common(
                        feed.all(),
                        position as int,
                        at as int,
                        0,
                        max_len as int,
                    );
                    if agreed > best_len {
                        assert(feed.all()[position + best_len] == feed.all()[at + best_len]);
                    }
                }
                tries = tries - 1;
                let ghost left = tries as nat;
                if feed.get(position + best_len) == feed.get(at + best_len) {
                    let mut length: usize = 0;
                    while length < max_len && feed.get(position + length) == feed.get(at + length)
                        invariant
                            feed.wf(),
                            feed.first() <= position < at,
                            length <= max_len,
                            at + max_len <= feed.all().len() <= usize::MAX,
                            forall|k: int|
                                at <= k < at + length ==> #[trigger] feed.all()[k]
                                    == feed.all()[k - (at - position)],
                            agreed == matching::common(
                                feed.all(),
                                position as int,
                                at as int,
                                length as int,
                                max_len as int,
                            ),
                        decreases max_len - length,
                    {
                        length = length + 1;
                    }
                    if length > best_len {
                        best_len = length;
                        best_distance = at - position;
                        if length == max_len {
                            tries = 0;
                        }
                    }
                }
                candidate = self.chain[position % self.chain.len()];
                assert(found == matching::walked(
                    self.chain@,
                    feed.all(),
                    earliest as int,
                    at as int,
                    max_len as int,
                    candidate,
                    left,
                    (best_len as int, best_distance as int),
                ));
            }
        }
        if best_len >= MIN_MATCH {
            Some((best_len, best_distance))
        } else {
            None
        }
    }
}

/// Whether a match saves more than it costs.
pub open spec fn worth(length: int, distance: int) -> bool {
    if length == 3 {
        distance < 1024
    } else if length == 4 {
        distance < 65_536
    } else {
        true
    }
}

fn worth_coding(length: usize, distance: usize) -> (r: bool)
    ensures
        r == worth(length as int, distance as int),
{
    match length {
        3 => distance < 1024,
        4 => distance < 65_536,
        _ => true,
    }
}

/// How far the splitting of a block came: what was remembered, where it
/// stands, what was found, how many literals wait for a match, and how often
/// in a row none was found.
pub struct Split {
    pub places: Places,
    pub at: int,
    pub literals: Seq<u8>,
    pub qs: Seq<Sequence>,
    pub pending: nat,
    pub barren: nat,
}

/// The rest of a block that ends at `end`: where a match is found that is
/// worth it, it is taken; else some bytes are left as they are, the more the
/// longer none was found.
pub open spec fn split_on(depth: nat, all: Seq<u8>, end: int, s: Split) -> Split
    decreases end - s.at,
{
    if s.at >= end {
        s
    } else {
        let found = longest_of(s.places, depth, all, s.at, end - s.at);
        if found is Some && worth(found->Some_0.0, found->Some_0.1) {
            let (length, distance) = found->Some_0;
            if 1 <= length <= end - s.at {
                split_on(
                    depth,
                    all,
                    end,
                    Split {
                        places: all_placed(s.places, all, s.at, length as nat),
                        at: s.at + length,
                        literals: s.literals,
                        qs: s.qs.push(
                            Sequence {
                                literals: s.pending as u32,
                                length: length as u32,
                                distance: distance as u32,
                            },
                        ),
                        pending: 0,
                        barren: 0,
                    },
                )
            } else {
                s
            }
        } else {
            let stride = 1 + s.barren / SKIP_SPAN as nat;
            let n = if stride < end - s.at {
                stride as int
            } else {
                end - s.at
            };
            split_on(
                depth,
                all,
                end,
                Split {
                    places: all_placed(s.places, all, s.at, n as nat),
                    at: s.at + n,
                    literals: s.literals + all.subrange(s.at, s.at + n),
                    qs: s.qs,
                    pending: s.pending + n as nat,
                    barren: s.barren + 1,
                },
            )
        }
    }
}

/// The block that starts at `start`, split.
pub open spec fn split_of(p: Places, depth: nat, all: Seq<u8>, start: int) -> Split {
    split_on(
        depth,
        all,
        block_end(all, start),
        Split {
            places: p,
            at: start,
            literals: Seq::empty(),
            qs: Seq::empty(),
            pending: 0,
            barren: 0,
        },
    )
}

/// The literals and sequences of a block say its bytes.
spec fn tokens_say(
    tables: &Predefined,
    all: Seq<u8>,
    start: int,
    end: int,
    literals: Seq<u8>,
    qs: Seq<Sequence>,
    window: nat,
    room: nat,
) -> bool {
    pack::whole(tables.setting(literals, window, room), qs, all.take(start)) == Some(all.take(end))
}

/// Where the block that starts at `start` ends.
pub open spec fn block_end(all: Seq<u8>, start: int) -> int {
    if start + BLOCK_MAX < all.len() {
        start + BLOCK_MAX
    } else {
        all.len() as int
    }
}

/// Split a block into literals and sequences. It gives where the block ends.
#[verifier::rlimit(60)]
#[verifier::spinoff_prover]
fn tokenise(
    feed: &Feed<'_>,
    start: usize,
    finder: &mut Finder,
    literals: &mut Vec<u8>,
    qs: &mut Vec<Sequence>,
    tables: Ghost<&Predefined>,
    window: Ghost<nat>,
    room: Ghost<nat>,
) -> (end: usize)
    requires
        feed.wf(),
        feed.first() <= start < feed.all().len(),
        old(finder).wf(),
        feed.first() == 0 || feed.first() + old(finder).places().links.len() <= start,
        feed.all().len() <= room@,
        window@ >= WINDOW_SIZE || window@ >= feed.all().len(),
    ensures
        final(finder).wf(),
        final(finder).depth == old(finder).depth,
        ({
            let s = split_of(
                old(finder).places(),
                old(finder).depth as nat,
                feed.all(),
                start as int,
            );
            &&& final(finder).places() == s.places
            &&& final(literals)@ == s.literals
            &&& final(qs)@ == s.qs
        }),
        final(finder).places().links.len() == old(finder).places().links.len(),
        end == block_end(feed.all(), start as int),
        final(literals)@.len() <= BLOCK_MAX,
        final(qs)@.len() <= BLOCK_MAX / 3,
        pack::all_writable(final(qs)@),
        tokens_say(
            tables@,
            feed.all(),
            start as int,
            end as int,
            final(literals)@,
            final(qs)@,
            window@,
            room@,
        ),
{
    literals.clear();
    qs.clear();
    let mut at: usize = start;
    let mut pending: u32 = 0;
    let mut barren: usize = 0;
    let ghost all = feed.all();
    let ghost out = all.take(start as int);
    proof {
        feed.lemma_wf();
        assert(literals@ =~= Seq::<u8>::empty());
        assert(qs@ =~= Seq::<Sequence>::empty());
    }
    let stop: usize = feed.end();
    let ghost depth = finder.depth;
    let ghost span = finder.places().links.len();
    let ghost close = block_end(all, start as int);
    let ghost goal = split_of(finder.places(), depth as nat, all, start as int);
    while at < stop && at - start < BLOCK_MAX
        invariant
            finder.depth == depth,
            finder.places().links.len() == span,
            feed.first() == 0 || feed.first() + span <= start,
            close == block_end(all, start as int),
            goal == split_on(
                depth as nat,
                all,
                close,
                Split {
                    places: finder.places(),
                    at: at as int,
                    literals: literals@,
                    qs: qs@,
                    pending: pending as nat,
                    barren: barren as nat,
                },
            ),
            feed.wf(),
            all == feed.all(),
            stop == all.len() <= usize::MAX,
            feed.first() <= start <= at <= stop,
            at > start || start < stop,
            out == all.take(start as int),
            all.len() <= room@,
            window@ >= WINDOW_SIZE || window@ >= all.len(),
            finder.wf(),
            at - start <= BLOCK_MAX,
            barren <= at - start,
            literals@.len() + 3 * qs@.len() <= at - start,
            pack::all_writable(qs@),
            pending <= literals@.len(),
            pack::after(tables@.setting(literals@, window@, room@), qs@, out) == Some(
                (all.take(at - pending), (literals@.len() - pending) as nat),
            ),
            literals@.skip(literals@.len() - pending) == all.subrange(at - pending, at as int),
            start <= at - pending,
        decreases stop - at,
    {
        let room_left: usize = BLOCK_MAX - (at - start);
        let max_len: usize = if room_left < stop - at {
            room_left
        } else {
            stop - at
        };
        let ghost here = Split {
            places: finder.places(),
            at: at as int,
            literals: literals@,
            qs: qs@,
            pending: pending as nat,
            barren: barren as nat,
        };
        assert(max_len == close - at);
        let found: Option<(usize, usize)> = match finder.find(feed, at, max_len) {
            Some((length, distance)) => if worth_coding(length, distance) {
                Some((length, distance))
            } else {
                None
            },
            None => None,
        };
        match found {
            Some((length, distance)) => {
                let q: Sequence = Sequence {
                    literals: pending,
                    length: length as u32,
                    distance: distance as u32,
                };
                let ghost before = qs@;
                let ghost s = tables@.setting(literals@, window@, room@);
                qs.push(q);
                proof {
                    tables@.lemma_setting(literals@, window@, room@);
                    assert(qs@.drop_last() =~= before);
                    let used = (literals@.len() - pending) as nat;
                    let o = all.take(at - pending);
                    let with = o + literals@.subrange(used as int, (used + pending) as int);
                    assert(literals@.subrange(used as int, (used + pending) as int)
                        =~= literals@.skip(used as int));
                    assert(with =~= all.take(at as int));
                    lz::lemma_copied_matches(all, at as int, distance as int, length as nat);
                    assert(pack::after(s, qs@, out) == Some(
                        (all.take(at + length), literals@.len()),
                    ));
                }
                pending = 0;
                let mut step: usize = 0;
                while step < length
                    invariant
                        step <= length,
                        feed.wf(),
                        feed.first() <= at,
                        at + length <= feed.all().len() <= usize::MAX,
                        finder.wf(),
                        all == feed.all(),
                        finder.depth == depth,
                        finder.places().links.len() == span,
                        finder.places() == all_placed(here.places, all, at as int, step as nat),
                    decreases length - step,
                {
                    finder.insert(feed, at + step);
                    step = step + 1;
                }
                at = at + length;
                barren = 0;
                proof {
                    assert(goal == split_on(depth as nat, all, close, here));
                    assert(literals@.skip(literals@.len() as int) =~= all.subrange(
                        at as int,
                        at as int,
                    ));
                }
            },
            None => {
                let stride: usize = 1 + barren / SKIP_SPAN;
                let step: usize = if stride < max_len {
                    stride
                } else {
                    max_len
                };
                let from: usize = at;
                let mut k: usize = 0;
                assert(here.literals + all.subrange(from as int, from as int) =~= here.literals);
                while k < step
                    invariant
                        k <= step <= max_len,
                        feed.wf(),
                        all == feed.all(),
                        stop == all.len() <= usize::MAX,
                        feed.first() <= start <= from,
                        from + max_len <= stop,
                        from - start + max_len <= BLOCK_MAX,
                        at == from + k,
                        finder.wf(),
                        finder.depth == depth,
                        finder.places().links.len() == span,
                        finder.places() == all_placed(here.places, all, from as int, k as nat),
                        literals@ == here.literals + all.subrange(from as int, at as int),
                        pending == here.pending + k,
                        literals@.len() + 3 * qs@.len() <= at - start,
                        pending <= literals@.len(),
                        pack::after(tables@.setting(literals@, window@, room@), qs@, out) == Some(
                            (all.take(at - pending), (literals@.len() - pending) as nat),
                        ),
                        literals@.skip(literals@.len() - pending) == all.subrange(
                            at - pending,
                            at as int,
                        ),
                        start <= at - pending,
                    decreases step - k,
                {
                    let ghost before = literals@;
                    let ghost s = tables@.setting(before, window@, room@);
                    literals.push(feed.get(at));
                    finder.insert(feed, at);
                    proof {
                        assert(all.subrange(from as int, at + 1) =~= all.subrange(
                            from as int,
                            at as int,
                        ).push(all[at as int]));
                        assert(literals@ =~= here.literals + all.subrange(from as int, at + 1));
                        tables@.lemma_setting(before, window@, room@);
                        let t = tables@.setting(literals@, window@, room@);
                        assert(before =~= literals@.take(before.len() as int));
                        pack::lemma_after_more(s, t, qs@, out);
                        assert(literals@.skip(before.len() - pending) =~= all.subrange(
                            at - pending,
                            at + 1,
                        )) by {
                            let x = before.skip(before.len() - pending);
                            assert(literals@.skip(before.len() - pending) =~= x.push(all[at as int]));
                            assert(all.subrange(at - pending, at + 1) =~= all.subrange(
                                at - pending,
                                at as int,
                            ).push(all[at as int]));
                        }
                    }
                    pending = pending + 1;
                    at = at + 1;
                    k = k + 1;
                }
                barren = barren + 1;
                assert(goal == split_on(depth as nat, all, close, here));
            },
        }
    }
    proof {
        let s = tables@.setting(literals@, window@, room@);
        tables@.lemma_setting(literals@, window@, room@);
        assert(all.take(at - pending) + literals@.skip(literals@.len() - pending) =~= all.take(
            at as int,
        ));
    }
    at
}

/// Whether a block is one byte over and over.
pub open spec fn is_run(block: Seq<u8>) -> bool {
    block.len() > 0 && forall|i: int| 0 <= i < block.len() ==> #[trigger] block[i] == block[0]
}

/// The block that says one byte over and over.
pub open spec fn run_block(block: Seq<u8>, last: bool) -> Seq<u8> {
    block_head(RLE_BLOCK, block.len(), last) + seq![block[0]]
}

/// A block of which the literals and sequences are known: one byte over and
/// over is said as that, and the rest as it is where its body is no shorter.
pub open spec fn block_bytes(
    block: Seq<u8>,
    literals: Seq<u8>,
    qs: Seq<Sequence>,
    last: bool,
) -> Seq<u8> {
    let body = pack::body_of(literals, qs);
    if is_run(block) {
        run_block(block, last)
    } else if body.len() < block.len() {
        block_head(COMPRESSED_BLOCK, body.len(), last) + body
    } else {
        block_head(RAW_BLOCK, block.len(), last) + block
    }
}

/// Write one block. It gives the block.
#[verifier::spinoff_prover]
fn write_block(
    out: &mut Vec<u8>,
    block: &[u8],
    literals: &Vec<u8>,
    qs: &Vec<Sequence>,
    tables: &Predefined,
    last: bool,
    before: Ghost<Seq<u8>>,
    window: Ghost<nat>,
    room: Ghost<nat>,
) -> (r: Ghost<Seq<u8>>)
    requires
        tables.wf(),
        block.len() <= BLOCK_MAX,
        literals.len() <= BLOCK_MAX,
        qs.len() <= BLOCK_MAX / 3,
        pack::all_writable(qs@),
        before@.len() + block.len() <= room@,
        pack::whole(tables.setting(literals@, window@, room@), qs@, before@) == Some(
            before@ + block@,
        ),
    ensures
        final(out)@ == old(out)@ + r@,
        is_block(r@, last, window@, room@, before@, before@ + block@),
        r@ == block_bytes(block@, literals@, qs@, last),
{
    let ghost o = out@;
    match rle_byte(block) {
        Some(byte) => {
            write_block_header(out, RLE_BLOCK, block.len(), last);
            out.push(byte);
            proof {
                lemma_rle(byte, block@.len(), last, window@, room@, before@, block@);
                assert(out@ =~= o + (block_head(RLE_BLOCK, block@.len(), last) + seq![byte]));
                assert(byte == block@[0]);
            }
            Ghost(block_head(RLE_BLOCK, block@.len(), last) + seq![byte])
        },
        None => {
            let b: Vec<u8> = match compressed_body(literals, qs, tables, window, room, before) {
                Ok(b) => b,
                Err(_) => {
                    return write_raw(out, block, last, before, window, room);
                },
            };
            if b.len() < block.len() {
                write_block_header(out, COMPRESSED_BLOCK, b.len(), last);
                out.extend_from_slice(&b);
                proof {
                    lemma_compressed(b@, last, window@, room@, before@, before@ + block@);
                    assert(out@ =~= o + (block_head(COMPRESSED_BLOCK, b@.len(), last) + b@));
                }
                Ghost(block_head(COMPRESSED_BLOCK, b@.len(), last) + b@)
            } else {
                write_raw(out, block, last, before, window, room)
            }
        },
    }
}

/// Write one block as it is. It gives the block.
fn write_raw(
    out: &mut Vec<u8>,
    block: &[u8],
    last: bool,
    before: Ghost<Seq<u8>>,
    window: Ghost<nat>,
    room: Ghost<nat>,
) -> (r: Ghost<Seq<u8>>)
    requires
        block.len() <= BLOCK_MAX,
        before@.len() + block.len() <= room@,
    ensures
        final(out)@ == old(out)@ + r@,
        is_block(r@, last, window@, room@, before@, before@ + block@),
        r@ == block_head(RAW_BLOCK, block@.len(), last) + block@,
{
    let ghost o = out@;
    write_block_header(out, RAW_BLOCK, block.len(), last);
    out.extend_from_slice(block);
    proof {
        lemma_raw(block@, last, window@, room@, before@);
        assert(out@ =~= o + (block_head(RAW_BLOCK, block@.len(), last) + block@));
    }
    Ghost(block_head(RAW_BLOCK, block@.len(), last) + block@)
}

/// Encode the next block. It gives where that ends, and the block.
fn next_block(
    out: &mut Vec<u8>,
    feed: &Feed<'_>,
    at: usize,
    finder: &mut Finder,
    literals: &mut Vec<u8>,
    qs: &mut Vec<Sequence>,
    tables: &Predefined,
    closing: bool,
    window: Ghost<nat>,
    room: Ghost<nat>,
) -> (r: (usize, Ghost<Seq<u8>>))
    requires
        feed.wf(),
        feed.first() <= at < feed.all().len(),
        old(finder).wf(),
        feed.first() == 0 || feed.first() + old(finder).places().links.len() <= at,
        feed.all().len() <= room@,
        window@ >= WINDOW_SIZE || window@ >= feed.all().len(),
        tables.wf(),
    ensures
        final(finder).wf(),
        final(finder).depth == old(finder).depth,
        final(finder).places().links.len() == old(finder).places().links.len(),
        r.0 == block_end(feed.all(), at as int),
        ({
            let s = split_of(
                old(finder).places(),
                old(finder).depth as nat,
                feed.all(),
                at as int,
            );
            &&& final(finder).places() == s.places
            &&& r.1@ == block_bytes(
                feed.all().subrange(at as int, r.0 as int),
                s.literals,
                s.qs,
                closing && r.0 == feed.all().len(),
            )
        }),
        final(out)@ == old(out)@ + r.1@,
        is_block(
            r.1@,
            closing && r.0 == feed.all().len(),
            window@,
            room@,
            feed.all().take(at as int),
            feed.all().take(r.0 as int),
        ),
{
    proof {
        feed.lemma_wf();
    }
    let stop: usize = feed.end();
    let ghost before = feed.all().take(at as int);
    let end: usize = tokenise(feed, at, finder, literals, qs, Ghost(tables), window, room);
    let block: &[u8] = feed.slice(at, end);
    assert(before + block@ =~= feed.all().take(end as int));
    assert(block@ =~= feed.all().subrange(at as int, end as int));
    let enc: Ghost<Seq<u8>> = write_block(
        out,
        block,
        literals,
        qs,
        tables,
        closing && end == stop,
        Ghost(before),
        window,
        room,
    );
    (end, enc)
}

/// The blocks of some data from `at` on, where `p` was remembered before. The
/// last one says so if it is to close the frame.
pub open spec fn blocks_from(
    p: Places,
    depth: nat,
    data: Seq<u8>,
    at: int,
    closing: bool,
) -> Seq<u8>
    decreases data.len() - at,
{
    if at >= data.len() {
        Seq::empty()
    } else {
        let end = block_end(data, at);
        let s = split_of(p, depth, data, at);
        block_bytes(data.subrange(at, end), s.literals, s.qs, closing && end == data.len())
            + blocks_from(s.places, depth, data, end, closing)
    }
}

/// More data behind what is remembered changes nothing.
proof fn lemma_placed_more(p: Places, all: Seq<u8>, more: Seq<u8>, at: int, n: nat)
    requires
        0 <= at,
        at + n - 1 + MIN_MATCH <= all.len(),
    ensures
        all_placed(p, all + more, at, n) == all_placed(p, all, at, n),
    decreases n,
{
    if n > 0 {
        lemma_placed_more(p, all, more, at, (n - 1) as nat);
    }
}

/// More data behind a block changes nothing of how it is split.
proof fn lemma_split_more(depth: nat, all: Seq<u8>, more: Seq<u8>, end: int, s: Split)
    requires
        0 <= s.at,
        end + MIN_MATCH <= all.len(),
    ensures
        split_on(depth, all + more, end, s) == split_on(depth, all, end, s),
    decreases end - s.at,
{
    if s.at < end {
        let oldest: int = if s.at > s.places.links.len() {
            s.at - s.places.links.len()
        } else {
            0
        };
        matching::lemma_walked_more(
            s.places.links,
            all,
            more,
            oldest,
            s.at,
            end - s.at,
            s.places.heads[hash_at(all, s.at)],
            depth,
            (0int, 0int),
        );
        let found = longest_of(s.places, depth, all, s.at, end - s.at);
        assert(longest_of(s.places, depth, all + more, s.at, end - s.at) == found);
        if found is Some && worth(found->Some_0.0, found->Some_0.1) {
            let (length, distance) = found->Some_0;
            if 1 <= length <= end - s.at {
                lemma_placed_more(s.places, all, more, s.at, length as nat);
                lemma_split_more(
                    depth,
                    all,
                    more,
                    end,
                    Split {
                        places: all_placed(s.places, all, s.at, length as nat),
                        at: s.at + length,
                        literals: s.literals,
                        qs: s.qs.push(
                            Sequence {
                                literals: s.pending as u32,
                                length: length as u32,
                                distance: distance as u32,
                            },
                        ),
                        pending: 0,
                        barren: 0,
                    },
                );
            }
        } else {
            let stride = 1 + s.barren / SKIP_SPAN as nat;
            let n = if stride < end - s.at {
                stride as int
            } else {
                end - s.at
            };
            lemma_placed_more(s.places, all, more, s.at, n as nat);
            assert((all + more).subrange(s.at, s.at + n) =~= all.subrange(s.at, s.at + n));
            lemma_split_more(
                depth,
                all,
                more,
                end,
                Split {
                    places: all_placed(s.places, all, s.at, n as nat),
                    at: s.at + n,
                    literals: s.literals + all.subrange(s.at, s.at + n),
                    qs: s.qs,
                    pending: s.pending + n as nat,
                    barren: s.barren + 1,
                },
            );
        }
    }
}

/// How many places are looked at for one match.
pub open spec fn tries_for(depth: usize) -> nat {
    if depth < 1 {
        1
    } else {
        depth as nat
    }
}

/// A frame of which some blocks were decoded.
spec fn is_at(f: layout::Frame, h: layout::Header, out: Seq<u8>) -> bool {
    f.header == h && f.done.out == out
}

/// Whether so much more may follow what was decoded before.
pub open spec fn fits(done: nat, d: Seq<u8>) -> bool {
    done + d.len() <= sequences::MAX_TOTAL
}

/// Whether decoding `sent` and then `tail` comes to the end of `sent` with
/// `out`, where `done` bytes were decoded before.
spec fn continues(
    sent: Seq<u8>,
    tail: Seq<u8>,
    h: layout::Header,
    out: Seq<u8>,
    done: nat,
) -> bool {
    exists|f: layout::Frame| #[trigger]
        is_at(f, h, out) && layout::frames(sent + tail, 0, done) == layout::blocks(
            sent + tail,
            sent.len(),
            f,
            done,
        )
}

/// Whether decoding `sent` comes to its end with `out`, whatever follows and
/// whatever was decoded before, as long as all of it fits.
pub closed spec fn leads(sent: Seq<u8>, h: layout::Header, out: Seq<u8>) -> bool {
    forall|tail: Seq<u8>, done: nat|
        fits(done, out) ==> #[trigger] continues(sent, tail, h, out, done)
}

/// A further block.
proof fn lemma_leads(sent: Seq<u8>, h: layout::Header, out: Seq<u8>, enc: Seq<u8>, want: Seq<u8>)
    requires
        leads(sent, h, out),
        out.len() <= want.len(),
        is_block(enc, false, h.window, layout::room_after(0), out, want),
    ensures
        leads(sent + enc, h, want),
{
    assert forall|tail: Seq<u8>, done: nat| fits(done, want) implies #[trigger] continues(
        sent + enc,
        tail,
        h,
        want,
        done,
    ) by {
        assert(continues(sent, enc + tail, h, out, done));
        let f = choose|f: layout::Frame| #[trigger]
            is_at(f, h, out) && layout::frames(sent + (enc + tail), 0, done) == layout::blocks(
                sent + (enc + tail),
                sent.len(),
                f,
                done,
            );
        assert(sent + (enc + tail) =~= sent + enc + tail);
        let data = sent + enc + tail;
        assert(layout::block(data, sent.len(), f, layout::room_after(0)) is Ok);
        layout::lemma_block(data, sent.len(), f, layout::room_after(0));
        layout::lemma_block_room(
            data,
            sent.len(),
            f,
            layout::room_after(0),
            layout::room_after(done),
        );
        let (g, q, last) = layout::block(data, sent.len(), f, layout::room_after(0))->Ok_0;
        assert(is_at(g, h, want));
        assert(layout::frames(data, 0, done) == layout::blocks(data, (sent + enc).len(), g, done));
    }
}

/// What closes a frame: its checksum, if it has one.
pub open spec fn check_bytes(checksum: bool, data: Seq<u8>) -> Seq<u8> {
    if checksum {
        bytes::le_bytes((xxhash::xxh64(data, 0) % 0x1_0000_0000) as nat, 4)
    } else {
        Seq::empty()
    }
}

/// What a stream decodes to whose frame comes to its checksum, if it has one,
/// at the end of `front`, with `d`, where `done` bytes were decoded before.
pub open spec fn closed_by(
    front: Seq<u8>,
    checksum: bool,
    d: Seq<u8>,
    tail: Seq<u8>,
    done: nat,
) -> Result<Seq<u8>> {
    let data = front + tail;
    if checksum {
        match layout::field(data, front.len(), 4) {
            Err(e) => Err(e),
            Ok((check, q)) => if bytes::le(check, 0, 4) != xxhash::xxh64(d, 0) % 0x1_0000_0000 {
                Err(Error::Malformed)
            } else {
                error::joined(d, layout::frames(data, q, done + d.len()))
            },
        }
    } else {
        error::joined(d, layout::frames(data, front.len(), done + d.len()))
    }
}

/// Whether `front` is a frame of `d` up to its checksum, if it has one.
pub open spec fn is_unchecked(front: Seq<u8>, checksum: bool, d: Seq<u8>) -> bool {
    forall|tail: Seq<u8>, done: nat|
        fits(done, d) ==> #[trigger] layout::frames(front + tail, 0, done) == closed_by(
            front,
            checksum,
            d,
            tail,
            done,
        )
}

/// `r` without the checksum of `d`, if there is one.
pub open spec fn unchecked(r: Seq<u8>, checksum: bool, d: Seq<u8>) -> Seq<u8> {
    r.take(r.len() - check_bytes(checksum, d).len())
}

/// Whether `r` is a frame of `d` that ends in its checksum, or in none.
pub open spec fn is_sealed(r: Seq<u8>, checksum: bool, d: Seq<u8>) -> bool {
    let front = unchecked(r, checksum, d);
    &&& check_bytes(checksum, d).len() <= r.len()
    &&& r == front + check_bytes(checksum, d)
    &&& is_unchecked(front, checksum, d)
}

/// A checksum that was changed is noticed, whatever follows it.
pub proof fn lemma_checksum_noticed(r: Seq<u8>, d: Seq<u8>, t: Seq<u8>, tail: Seq<u8>)
    requires
        is_sealed(r, true, d),
        fits(0, d),
        t.len() == 4,
        t != check_bytes(true, d),
    ensures
        layout::decoded(unchecked(r, true, d) + t + tail) == Err::<Seq<u8>, Error>(
            Error::Malformed,
        ),
{
    let front = unchecked(r, true, d);
    assert(front + t + tail =~= front + (t + tail));
    assert(layout::frames(front + (t + tail), 0, 0) == closed_by(front, true, d, t + tail, 0));
    let data = front + (t + tail);
    assert(data.subrange(front.len() as int, (front.len() + 4) as int) =~= t);
    bytes::lemma_le_bytes_back(t, 4);
}

/// A frame with its checksum is a frame.
#[verifier::spinoff_prover]
#[verifier::rlimit(60)]
proof fn lemma_sealed(r: Seq<u8>, checksum: bool, d: Seq<u8>)
    requires
        is_sealed(r, checksum, d),
        fits(0, d),
    ensures
        is_frame(r, d),
        layout::decoded(r) == Ok::<Seq<u8>, Error>(d),
{
    let front = unchecked(r, checksum, d);
    let c = check_bytes(checksum, d);
    assert forall|tail: Seq<u8>, done: nat| fits(done, d) implies #[trigger] layout::frames(
        r + tail,
        0,
        done,
    ) == error::joined(d, layout::frames(r + tail, r.len(), done + d.len())) by {
        assert(r + tail =~= front + (c + tail));
        assert(layout::frames(front + (c + tail), 0, done) == closed_by(
            front,
            checksum,
            d,
            c + tail,
            done,
        ));
        if checksum {
            let v = (xxhash::xxh64(d, 0) % 0x1_0000_0000) as nat;
            bytes::lemma_le_bytes_len(v, 4);
            assert((r + tail).subrange(front.len() as int, (front.len() + 4) as int) =~= c);
            assert(c.subrange(0, 4) =~= c);
            assert(v < bytes::span(4)) by {
                reveal_with_fuel(bytes::span, 5);
            }
            bytes::lemma_le_round_trip(c, 0, v, 4);
        }
    }
    lemma_frame_alone(r, d);
}

/// Whether `r` is a frame of `d`: whatever follows it and whatever was decoded
/// before, as long as all of it fits, it decodes to `d` and then to what
/// follows.
pub open spec fn is_frame(r: Seq<u8>, d: Seq<u8>) -> bool {
    forall|tail: Seq<u8>, done: nat|
        fits(done, d) ==> #[trigger] layout::frames(r + tail, 0, done) == error::joined(
            d,
            layout::frames(r + tail, r.len(), done + d.len()),
        )
}

/// A frame on its own.
proof fn lemma_frame_alone(r: Seq<u8>, d: Seq<u8>)
    requires
        is_frame(r, d),
        fits(0, d),
    ensures
        layout::decoded(r) == Ok::<Seq<u8>, Error>(d),
{
    let e = Seq::<u8>::empty();
    assert(r + e =~= r);
    assert(d + e =~= d);
    assert(layout::frames(r + e, 0, 0) == error::joined(
        d,
        layout::frames(r + e, r.len(), d.len()),
    ));
    assert(layout::frames(r, r.len(), d.len()) == Ok::<Seq<u8>, Error>(e));
}

/// Frames that follow one another are all decoded: a frame of `d` before
/// `more` holds `d` and then what `more` holds.
pub proof fn lemma_frames_join(r: Seq<u8>, d: Seq<u8>, more: Seq<u8>, done: nat)
    requires
        is_frame(r, d),
        fits(done, d),
    ensures
        layout::frames(r + more, 0, done) == error::joined(
            d,
            layout::frames(more, 0, done + d.len()),
        ),
{
    assert((r + more).skip(r.len() as int) =~= more);
    layout::lemma_frames_skip(r + more, r.len(), 0, done + d.len());
    assert(layout::frames(r + more, 0, done) == error::joined(
        d,
        layout::frames(r + more, r.len(), done + d.len()),
    ));
}

/// A frame that decoders pass over: one of sixteen magic numbers, a size, and
/// so many bytes.
pub open spec fn skippable(kind: nat, body: Seq<u8>) -> Seq<u8> {
    bytes::le_bytes(layout::SKIPPABLE_MAGIC_LOW as nat + kind, 4) + bytes::le_bytes(body.len(), 4)
        + body
}

/// A frame to pass over is passed over, whatever follows it.
#[verifier::spinoff_prover]
pub proof fn lemma_skipped(kind: nat, body: Seq<u8>, more: Seq<u8>, done: nat)
    requires
        kind < 16,
        body.len() < 0x1_0000_0000,
    ensures
        layout::frames(skippable(kind, body) + more, 0, done) == layout::frames(more, 0, done),
{
    let magic = layout::SKIPPABLE_MAGIC_LOW as nat + kind;
    let r = skippable(kind, body);
    let data = r + more;
    bytes::lemma_le_bytes_len(magic, 4);
    bytes::lemma_le_bytes_len(body.len(), 4);
    assert(bytes::span(4) == 0x1_0000_0000) by {
        reveal_with_fuel(bytes::span, 5);
    }
    assert(data.subrange(0, 4) =~= bytes::le_bytes(magic, 4));
    bytes::lemma_le_round_trip(data, 0, magic, 4);
    let size = bytes::le_bytes(body.len(), 4);
    assert(data.subrange(4, 8) =~= size);
    assert(size.subrange(0, 4) =~= size);
    bytes::lemma_le_round_trip(size, 0, body.len(), 4);
    assert(layout::opening(data, 0) == Ok::<layout::Opening, Error>(
        layout::Opening::Skipped(r.len()),
    ));
    assert(data.skip(r.len() as int) =~= more);
    layout::lemma_frames_skip(data, r.len(), 0, done);
}

/// Two frames one after the other hold the data of both, and so they do with
/// a frame to pass over between them.
pub proof fn lemma_two_frames(
    r: Seq<u8>,
    d: Seq<u8>,
    s: Seq<u8>,
    e: Seq<u8>,
    kind: nat,
    body: Seq<u8>,
)
    requires
        is_frame(r, d),
        is_frame(s, e),
        fits(d.len(), e),
        kind < 16,
        body.len() < 0x1_0000_0000,
    ensures
        layout::decoded(r + s) == Ok::<Seq<u8>, Error>(d + e),
        layout::decoded(r + skippable(kind, body) + s) == Ok::<Seq<u8>, Error>(d + e),
{
    let none = Seq::<u8>::empty();
    lemma_frames_join(r, d, s, 0);
    lemma_frames_join(s, e, none, d.len());
    assert(s + none =~= s);
    assert(e + none =~= e);
    assert(layout::frames(none, 0, d.len() + e.len()) == Ok::<Seq<u8>, Error>(none));
    assert(r + skippable(kind, body) + s =~= r + (skippable(kind, body) + s));
    lemma_frames_join(r, d, skippable(kind, body) + s, 0);
    lemma_skipped(kind, body, s, d.len());
}

/// The last block.
proof fn lemma_leads_last(
    sent: Seq<u8>,
    h: layout::Header,
    out: Seq<u8>,
    enc: Seq<u8>,
    want: Seq<u8>,
)
    requires
        leads(sent, h, out),
        out.len() <= want.len(),
        is_block(enc, true, h.window, layout::room_after(0), out, want),
        h.content matches Some(n) ==> n == want.len(),
    ensures
        is_unchecked(sent + enc, h.checksum, want),
{
    let r = sent + enc;
    assert forall|tail: Seq<u8>, done: nat| fits(done, want) implies #[trigger] layout::frames(
        r + tail,
        0,
        done,
    ) == closed_by(r, h.checksum, want, tail, done) by {
        assert(continues(sent, enc + tail, h, out, done));
        let f = choose|f: layout::Frame| #[trigger]
            is_at(f, h, out) && layout::frames(sent + (enc + tail), 0, done) == layout::blocks(
                sent + (enc + tail),
                sent.len(),
                f,
                done,
            );
        assert(sent + (enc + tail) =~= r + tail);
        let data = r + tail;
        assert(layout::block(data, sent.len(), f, layout::room_after(0)) is Ok);
        layout::lemma_block(data, sent.len(), f, layout::room_after(0));
        layout::lemma_block_room(
            data,
            sent.len(),
            f,
            layout::room_after(0),
            layout::room_after(done),
        );
        let (g, q, last) = layout::block(data, sent.len(), f, layout::room_after(0))->Ok_0;
        layout::lemma_closing(data, q, g);
        reveal(layout::closing);
    }
}

/// A frame up to its checksum, and then that.
proof fn lemma_seal(front: Seq<u8>, checksum: bool, d: Seq<u8>)
    requires
        is_unchecked(front, checksum, d),
        fits(0, d),
    ensures
        is_sealed(front + check_bytes(checksum, d), checksum, d),
        is_frame(front + check_bytes(checksum, d), d),
        layout::decoded(front + check_bytes(checksum, d)) == Ok::<Seq<u8>, Error>(d),
{
    let r = front + check_bytes(checksum, d);
    assert(unchecked(r, checksum, d) =~= front);
    lemma_sealed(r, checksum, d);
}

/// A frame's start.
pub open spec fn head_of(d: u8, rest: Seq<u8>) -> Seq<u8> {
    MAGIC@ + (seq![d] + rest)
}

proof fn lemma_head_of(d: u8, rest: Seq<u8>, h: layout::Header)
    requires
        rest.len() == layout::header_len(d) - 1,
        layout::header(seq![d] + rest) == Ok::<layout::Header, Error>(h),
    ensures
        leads(head_of(d, rest), h, Seq::empty()),
{
    let sent = head_of(d, rest);
    assert forall|tail: Seq<u8>, done: nat| fits(done, Seq::<u8>::empty()) implies #[trigger] continues(
        sent,
        tail,
        h,
        Seq::empty(),
        done,
    ) by {
        let data = sent + tail;
        assert(bytes::le(data, 0, 4) == layout::MAGIC) by {
            reveal_with_fuel(bytes::le, 5);
        }
        assert(data.subrange(4, 5) =~= seq![d]);
        let n = rest.len() as int;
        if n > 0 && data.len() > 5 {
            assert(data.subrange(5, 5 + n) =~= rest);
        } else {
            assert(rest =~= Seq::<u8>::empty());
        }
        assert(layout::opening(data, 0) == Ok::<layout::Opening, Error>(
            layout::Opening::Opened(h, sent.len()),
        ));
        assert(is_at(layout::fresh(h), h, Seq::empty()));
    }
}

/// What a frame of known size starts with.
pub open spec fn known_descriptor(len: nat, checksum: bool) -> u8 {
    let c: int = if checksum {
        4
    } else {
        0
    };
    if len <= WINDOW_SIZE {
        (32 + c + if len < 256 {
            0int
        } else if len < 65_792 {
            64
        } else {
            128
        }) as u8
    } else if len <= 0xffff_ffff {
        (128 + c) as u8
    } else {
        (192 + c) as u8
    }
}

/// What follows the descriptor of a frame of known size.
pub open spec fn known_rest(len: nat) -> Seq<u8> {
    if len <= WINDOW_SIZE {
        if len < 256 {
            bytes::le_bytes(len, 1)
        } else if len < 65_792 {
            bytes::le_bytes((len - 256) as nat, 2)
        } else {
            bytes::le_bytes(len, 4)
        }
    } else if len <= 0xffff_ffff {
        seq![104u8] + bytes::le_bytes(len, 4)
    } else {
        seq![104u8] + bytes::le_bytes(len, 8)
    }
}

/// How a frame of known size starts.
pub open spec fn known_head(len: nat, checksum: bool) -> Seq<u8> {
    head_of(known_descriptor(len, checksum), known_rest(len))
}

/// The header of a frame of known size.
spec fn known_header(len: nat, checksum: bool) -> layout::Header {
    layout::Header {
        window: if len <= WINDOW_SIZE {
            len
        } else {
            WINDOW_SIZE as nat
        },
        content: Some(len),
        checksum,
    }
}

/// The window byte that the writer uses.
proof fn lemma_window()
    ensures
        layout::window_of(104) == WINDOW_SIZE,
{
    lemma2_to64();
    let n = (10 + 104u8 / 8) as nat;
    assert(n == 23);
    let base = pow2(n);
    assert(base == 8_388_608);
    assert((104u8 % 8) as nat == 0);
    assert(base / 8 * 0 == 0);
}

#[verifier::rlimit(30)]
#[verifier::spinoff_prover]
proof fn lemma_known(len: nat, checksum: bool)
    requires
        len <= u64::MAX,
    ensures
        known_rest(len).len() == layout::header_len(known_descriptor(len, checksum)) - 1,
        layout::header(seq![known_descriptor(len, checksum)] + known_rest(len)) == Ok::<
            layout::Header,
            Error,
        >(known_header(len, checksum)),
{
    let d = known_descriptor(len, checksum);
    let rest = known_rest(len);
    let h = seq![d] + rest;
    let width = layout::content_bytes(d);
    let at = layout::fixed_bytes(d) as int;
    let v: nat = if width == 2 {
        (len - 256) as nat
    } else {
        len
    };
    assert(h[0] == d);
    assert(d / 8 % 2 == 0);
    assert(d % 4 == 0);
    assert((d / 4 % 2 == 1) == checksum);
    assert((len <= WINDOW_SIZE) == layout::single(d));
    bytes::lemma_le_bytes_len(v, width);
    assert(h.len() == layout::header_len(d));
    assert(h.subrange(at, at + width) =~= bytes::le_bytes(v, width));
    assert(v < bytes::span(width)) by {
        reveal_with_fuel(bytes::span, 9);
    }
    bytes::lemma_le_round_trip(h, at, v, width);
    assert(layout::content_of(h) == Some(len));
    lemma2_to64();
    if len > WINDOW_SIZE {
        assert(h[1] == 104);
        lemma_window();
    }
}

fn write_frame_header(out: &mut Vec<u8>, len: u64, checksum: bool)
    ensures
        final(out)@ == old(out)@ + head_of(
            known_descriptor(len as nat, checksum),
            known_rest(len as nat),
        ),
{
    let single: bool = len <= WINDOW_SIZE as u64;
    let (field, width): (u8, usize) = if single {
        if len < 256 {
            (0, 1)
        } else if len < 65_792 {
            (1, 2)
        } else {
            (2, 4)
        }
    } else if len <= 0xffff_ffff {
        (2, 4)
    } else {
        (3, 8)
    };
    let descriptor: u8 = field * 64 + (if single {
        32
    } else {
        0
    }) + (if checksum {
        4
    } else {
        0
    });
    out.extend_from_slice(&MAGIC);
    out.push(descriptor);
    if !single {
        out.push(104);
    }
    let stored: u64 = if width == 2 {
        len - 256
    } else {
        len
    };
    put_le(out, stored, width);
    assert(out@ =~= old(out)@ + head_of(
        known_descriptor(len as nat, checksum),
        known_rest(len as nat),
    ));
}

/// What a frame of `data` is: it starts with the header for its size, it ends
/// in the checksum if it is to, and it decodes to the data. No data is an
/// empty block, and one byte over and over a block of that.
pub open spec fn is_packed(v: Seq<u8>, data: Seq<u8>, checksum: bool) -> bool {
    let head = known_head(data.len(), checksum);
    &&& head.is_prefix_of(v)
    &&& is_sealed(v, checksum, data)
    &&& is_frame(v, data)
    &&& layout::decoded(v) == Ok::<Seq<u8>, Error>(data)
    &&& data.len() == 0 ==> v == head + block_head(RAW_BLOCK, 0, true) + check_bytes(checksum, data)
    &&& is_run(data) && data.len() <= BLOCK_MAX ==> v == head + run_block(data, true)
        + check_bytes(checksum, data)
}

/// The frame of some data: its header, its blocks, and its checksum if it is
/// to have one.
pub open spec fn frame_of(data: Seq<u8>, checksum: bool, depth: usize) -> Seq<u8> {
    known_head(data.len(), checksum) + (if data.len() == 0 {
        block_head(RAW_BLOCK, 0, true)
    } else {
        blocks_from(
            matching::no_places(HASH_SIZE as nat, span_for(data.len() as int)),
            tries_for(depth),
            data,
            0,
            true,
        )
    }) + check_bytes(checksum, data)
}

/// Compress into a Zstandard frame.
pub fn compress(data: &[u8], checksum: bool) -> (r: Result<Vec<u8>>)
    requires
        data.len() <= MAX_DATA,
    ensures
        r matches Ok(v) && is_packed(v@, data@, checksum) && v@ == frame_of(
            data@,
            checksum,
            DEFAULT_DEPTH,
        ),
{
    compress_at(data, checksum, DEFAULT_DEPTH)
}

/// Compress with a given match finder depth: higher searches harder.
#[verifier::rlimit(30)]
#[verifier::spinoff_prover]
pub fn compress_at(data: &[u8], checksum: bool, depth: usize) -> (r: Result<Vec<u8>>)
    requires
        data.len() <= MAX_DATA,
    ensures
        r matches Ok(v) && is_packed(v@, data@, checksum) && v@ == frame_of(
            data@,
            checksum,
            depth,
        ),
{
    let mut out: Vec<u8> = Vec::new();
    write_frame_header(&mut out, data.len() as u64, checksum);
    let ghost h = known_header(data@.len(), checksum);
    let ghost window = h.window;
    let ghost room = layout::room_after(0);
    let ghost head = known_head(data@.len(), checksum);
    proof {
        lemma_known(data@.len(), checksum);
        lemma_head_of(known_descriptor(data@.len(), checksum), known_rest(data@.len()), h);
        assert(out@ =~= head_of(
            known_descriptor(data@.len(), checksum),
            known_rest(data@.len()),
        ));
        assert(data@.take(0) =~= Seq::<u8>::empty());
    }
    if data.len() == 0 {
        let ghost sent = out@;
        let enc: Ghost<Seq<u8>> = write_raw(
            &mut out,
            data,
            true,
            Ghost(Seq::empty()),
            Ghost(window),
            Ghost(room),
        );
        proof {
            assert(Seq::<u8>::empty() + data@ =~= data@);
            lemma_leads_last(sent, h, Seq::empty(), enc@, data@);
            assert(out@ =~= head + block_head(RAW_BLOCK, 0, true));
            assert(block_head(RAW_BLOCK, 0, true) + data@ =~= block_head(RAW_BLOCK, 0, true));
        }
    } else {
        let tables: Predefined = match Predefined::new() {
            Ok(t) => t,
            Err(e) => {
                return Err(e);
            },
        };
        let mut finder: Finder = Finder::new(data.len(), depth);
        let mut literals: Vec<u8> = Vec::new();
        let mut qs: Vec<Sequence> = Vec::new();
        let feed: Feed<'_> = Feed::whole(data);
        let mut at: usize = 0;
        let ghost blocks = blocks_from(finder.places(), tries_for(depth), data@, 0, true);
        while at < data.len()
            invariant
                finder.depth == tries_for(depth),
                head + blocks =~= out@ + blocks_from(
                    finder.places(),
                    tries_for(depth),
                    data@,
                    at as int,
                    true,
                ),
                at <= data.len() <= MAX_DATA,
                data.len() > 0,
                feed.wf(),
                feed.all() == data@,
                feed.first() == 0,
                finder.wf(),
                tables.wf(),
                head == known_head(data@.len(), checksum),
                head.is_prefix_of(out@),
                at == 0 ==> out@ == head,
                data.len() <= BLOCK_MAX ==> at == 0 || at == data.len(),
                at == data.len() && is_run(data@) && data.len() <= BLOCK_MAX ==> out@ == head
                    + run_block(data@, true),
                room == layout::room_after(0),
                h == known_header(data@.len(), checksum),
                window == h.window,
                at < data.len() ==> leads(out@, h, data@.take(at as int)),
                at == data.len() ==> is_unchecked(out@, checksum, data@),
            decreases data.len() - at,
        {
            let ghost sent = out@;
            let ghost p = finder.places();
            let (end, enc) = next_block(
                &mut out,
                &feed,
                at,
                &mut finder,
                &mut literals,
                &mut qs,
                &tables,
                true,
                Ghost(window),
                Ghost(room),
            );
            proof {
                let a = data@.take(at as int);
                let b = data@.take(end as int);
                if end < data.len() {
                    lemma_leads(sent, h, a, enc@, b);
                } else {
                    assert(b =~= data@);
                    lemma_leads_last(sent, h, a, enc@, b);
                    if at == 0 {
                        assert(data@.subrange(0, end as int) =~= data@);
                    }
                }
                assert(out@.take(head.len() as int) =~= sent.take(head.len() as int));
                let rest = blocks_from(finder.places(), tries_for(depth), data@, end as int, true);
                assert(blocks_from(p, tries_for(depth), data@, at as int, true) == enc@ + rest);
                assert(sent + (enc@ + rest) =~= out@ + rest);
            }
            at = end;
        }
        assert(out@ + Seq::<u8>::empty() =~= out@);
    }
    let ghost front = out@;
    if checksum {
        let digest: u64 = XxHash64::hash(data) % 0x1_0000_0000;
        put_le(&mut out, digest, 4);
    } else {
        assert(out@ + Seq::<u8>::empty() =~= out@);
    }
    proof {
        lemma_seal(front, checksum, data@);
        assert(out@ == front + check_bytes(checksum, data@));
        assert(out@.take(head.len() as int) =~= front.take(head.len() as int));
    }
    Ok(out)
}

/// The header of a frame of unknown size.
spec fn open_header(checksum: bool) -> layout::Header {
    layout::Header { window: WINDOW_SIZE as nat, content: None, checksum }
}

/// How a frame of unknown size starts.
pub open spec fn open_head(checksum: bool) -> Seq<u8> {
    head_of(open_descriptor(checksum), seq![104u8])
}

/// The descriptor of a frame of unknown size.
pub open spec fn open_descriptor(checksum: bool) -> u8 {
    if checksum {
        4
    } else {
        0
    }
}

proof fn lemma_open(checksum: bool)
    ensures
        leads(
            head_of(open_descriptor(checksum), seq![104u8]),
            open_header(checksum),
            Seq::empty(),
        ),
{
    let d = open_descriptor(checksum);
    let h = seq![d] + seq![104u8];
    lemma2_to64();
    assert(h[0] == d);
    assert(h[1] == 104);
    lemma_window();
    assert(layout::content_of(h) is None);
    lemma_head_of(d, seq![104u8], open_header(checksum));
}

/// The blocks of data that arrives in pieces.
pub open spec fn open_blocks(data: Seq<u8>, depth: nat) -> Seq<u8> {
    blocks_from(
        matching::no_places(HASH_SIZE as nat, span_for(WINDOW_SIZE as int)),
        depth,
        data,
        0,
        false,
    )
}

/// The frame of data that arrives in pieces: a header that leaves its size
/// open, its blocks, an empty one that closes it, and its checksum if it is to
/// have one.
pub open spec fn open_frame(data: Seq<u8>, checksum: bool, depth: nat) -> Seq<u8> {
    open_head(checksum) + open_blocks(data, depth) + block_head(RAW_BLOCK, 0, true) + check_bytes(
        checksum,
        data,
    )
}

/// A Zstandard frame written as its input arrives.
///
/// The frame header says the content size is unknown, since it is; blocks go
/// out as each fills, and an empty final block closes the frame. Of the input
/// only the last window is held; the output is held whole.
pub struct Writer {
    out: Vec<u8>,
    tables: Predefined,
    finder: Finder,
    window: Sliding,
    literals: Vec<u8>,
    sequences: Vec<Sequence>,
    digest: XxHash64,
    at: usize,
    checksum: bool,
    before: Ghost<Seq<u8>>,
}

impl Writer {
    /// What was there before the frame.
    pub closed spec fn before(&self) -> Seq<u8> {
        self.before@
    }

    /// All data taken so far.
    pub closed spec fn taken(&self) -> Seq<u8> {
        self.window.all()
    }

    /// Whether the frame ends in a checksum.
    pub closed spec fn checks(&self) -> bool {
        self.checksum
    }

    /// How many places are looked at for one match.
    pub closed spec fn depth(&self) -> nat {
        self.finder.depth as nat
    }

    /// What was written and the blocks that are left make the frame of `d`.
    spec fn makes(&self, d: Seq<u8>) -> bool {
        open_head(self.checksum) + open_blocks(d, self.depth()) == self.sent() + blocks_from(
            self.finder.places(),
            self.depth(),
            d,
            self.at as int,
            false,
        )
    }

    /// The part of the frame that was written.
    spec fn sent(&self) -> Seq<u8> {
        self.out@.skip(self.before@.len() as int)
    }

    /// What was written stands for the data up to the next block, and is how
    /// the frame starts whatever data follows.
    pub closed spec fn wf(&self) -> bool {
        &&& self.stands()
        &&& forall|d: Seq<u8>| self.taken().is_prefix_of(d) ==> #[trigger] self.makes(d)
    }

    /// What was written stands for the data up to the next block.
    spec fn stands(&self) -> bool {
        &&& self.before@.is_prefix_of(self.out@)
        &&& open_head(self.checksum).is_prefix_of(self.sent())
        &&& self.tables.wf()
        &&& self.finder.wf()
        &&& self.window.wf()
        &&& self.window.all().len() <= MAX_DATA
        &&& self.window.first() <= self.at <= self.window.all().len()
        &&& self.window.first() == 0 || self.window.first() + WINDOW_SIZE <= self.at
        &&& self.digest.wf()
        &&& self.digest.seed() == 0
        &&& self.digest.data() == self.window.all()
        &&& leads(
            self.sent(),
            open_header(self.checksum),
            self.window.all().take(self.at as int),
        )
    }

    /// Start a frame after what `out` holds, searching `depth` candidates per
    /// position.
    pub fn new(out: Vec<u8>, checksum: bool, depth: usize) -> (r: Result<Self>)
        ensures
            r matches Ok(w) && w.wf() && w.before() == out@ && w.taken() == Seq::<u8>::empty()
                && w.checks() == checksum && w.depth() == tries_for(depth),
    {
        let ghost before = out@;
        let mut out: Vec<u8> = out;
        out.extend_from_slice(&MAGIC);
        out.push(
            if checksum {
                4
            } else {
                0
            },
        );
        out.push(104);
        let tables: Predefined = match Predefined::new() {
            Ok(t) => t,
            Err(e) => {
                return Err(e);
            },
        };
        let w: Writer = Writer {
            out,
            tables,
            finder: Finder::new(WINDOW_SIZE, depth),
            window: Sliding::new(WINDOW_SIZE + BLOCK_MAX),
            literals: Vec::new(),
            sequences: Vec::new(),
            digest: XxHash64::new(0),
            at: 0,
            checksum,
            before: Ghost(before),
        };
        proof {
            lemma_open(checksum);
            assert(w.sent() =~= open_head(checksum));
            assert(w.sent().take(w.sent().len() as int) =~= w.sent());
            assert(w.out@.take(before.len() as int) =~= before);
            assert(w.window.all().take(0) =~= Seq::<u8>::empty());
        }
        Ok(w)
    }

    #[verifier::spinoff_prover]
    fn block(&mut self)
        requires
            old(self).stands(),
            old(self).at < old(self).window.all().len(),
        ensures
            final(self).stands(),
            final(self).depth() == old(self).depth(),
            final(self).at == block_end(old(self).taken(), old(self).at as int),
            ({
                let all = old(self).taken();
                let s = split_of(
                    old(self).finder.places(),
                    old(self).depth(),
                    all,
                    old(self).at as int,
                );
                &&& final(self).finder.places() == s.places
                &&& final(self).sent() == old(self).sent() + block_bytes(
                    all.subrange(old(self).at as int, final(self).at as int),
                    s.literals,
                    s.qs,
                    false,
                )
            }),
            final(self).before() == old(self).before(),
            final(self).taken() == old(self).taken(),
            final(self).window == old(self).window,
            final(self).checks() == old(self).checks(),
            old(self).at < final(self).at,
    {
        let ghost sent = self.sent();
        let ghost all = self.window.all();
        let ghost h = open_header(self.checksum);
        let ghost o = self.out@;
        let at: usize = self.at;
        let feed: Feed<'_> = self.window.feed();
        let (end, enc) = next_block(
            &mut self.out,
            &feed,
            at,
            &mut self.finder,
            &mut self.literals,
            &mut self.sequences,
            &self.tables,
            false,
            Ghost(h.window),
            Ghost(layout::room_after(0)),
        );
        self.at = end;
        proof {
            let n = self.before@.len() as int;
            lemma_leads(sent, h, all.take(at as int), enc@, all.take(end as int));
            assert(self.sent() =~= sent + enc@) by {
                assert(o.take(n) == self.before@);
                assert((o + enc@).skip(n) =~= o.skip(n) + enc@);
            }
            assert(self.out@.take(n) =~= o.take(n));
            let head = open_head(self.checksum);
            assert(self.sent().take(head.len() as int) =~= sent.take(head.len() as int));
        }
    }

    /// A block with enough data behind it is the same whatever follows.
    proof fn lemma_makes(self, next: Writer)
        requires
            forall|d: Seq<u8>| self.taken().is_prefix_of(d) ==> #[trigger] self.makes(d),
            self.at + BLOCK_MAX + MIN_MATCH <= self.taken().len(),
            next.taken() == self.taken(),
            next.depth() == self.depth(),
            next.checks() == self.checks(),
            next.at == block_end(self.taken(), self.at as int),
            ({
                let all = self.taken();
                let s = split_of(self.finder.places(), self.depth(), all, self.at as int);
                &&& next.finder.places() == s.places
                &&& next.sent() == self.sent() + block_bytes(
                    all.subrange(self.at as int, next.at as int),
                    s.literals,
                    s.qs,
                    false,
                )
            }),
        ensures
            forall|d: Seq<u8>| next.taken().is_prefix_of(d) ==> #[trigger] next.makes(d),
    {
        let all = self.taken();
        let at = self.at as int;
        let s = split_of(self.finder.places(), self.depth(), all, at);
        assert forall|d: Seq<u8>| next.taken().is_prefix_of(d) implies #[trigger] next.makes(d) by {
            let more = d.skip(all.len() as int);
            assert(d.take(all.len() as int) == all);
            assert(d =~= all + more);
            assert(self.makes(d));
            let first = Split {
                places: self.finder.places(),
                at,
                literals: Seq::empty(),
                qs: Seq::empty(),
                pending: 0,
                barren: 0,
            };
            lemma_split_more(self.depth(), all, more, next.at as int, first);
            let enc = block_bytes(all.subrange(at, next.at as int), s.literals, s.qs, false);
            let rest = blocks_from(
                next.finder.places(),
                next.depth(),
                d,
                next.at as int,
                false,
            );
            assert(d.subrange(at, next.at as int) =~= all.subrange(at, next.at as int));
            assert(self.sent() + (enc + rest) =~= self.sent() + enc + rest);
        }
    }

    /// Hand over more input, encoding whatever has become complete.
    pub fn push(&mut self, bytes: &[u8])
        requires
            old(self).wf(),
            old(self).taken().len() + bytes@.len() <= MAX_DATA,
            old(self).taken().len() + bytes@.len() <= usize::MAX,
        ensures
            final(self).wf(),
            final(self).before() == old(self).before(),
            final(self).taken() == old(self).taken() + bytes@,
            final(self).checks() == old(self).checks(),
            final(self).depth() == old(self).depth(),
    {
        let ghost all = self.window.all();
        self.digest.update(bytes);
        self.window.push(bytes);
        assert(self.window.all().take(self.at as int) =~= all.take(self.at as int));
        proof {
            assert forall|d: Seq<u8>| self.taken().is_prefix_of(d) implies #[trigger] self.makes(
                d,
            ) by {
                assert(d.take(all.len() as int) =~= self.taken().take(all.len() as int));
                assert(self.taken().take(all.len() as int) =~= all);
                assert(old(self).taken().is_prefix_of(d));
                assert(old(self).makes(d));
            }
        }
        while self.window.end() - self.at >= BLOCK_MAX + MIN_MATCH
            invariant
                self.wf(),
                self.before() == old(self).before(),
                self.taken() == old(self).taken() + bytes@,
                self.checks() == old(self).checks(),
                self.depth() == old(self).depth(),
            decreases self.window.all().len() - self.at,
        {
            let ghost was = *self;
            self.block();
            proof {
                was.lemma_makes(*self);
            }
        }
        let ghost done = *self;
        self.window.retain(self.at, WINDOW_SIZE + MIN_MATCH);
        proof {
            assert forall|d: Seq<u8>| self.taken().is_prefix_of(d) implies #[trigger] self.makes(
                d,
            ) by {
                assert(done.makes(d));
            }
        }
    }

    /// Encode what is left, close the frame and give back the output.
    #[verifier::rlimit(60)]
    #[verifier::spinoff_prover]
    pub fn finish(self) -> (r: Vec<u8>)
        requires
            self.wf(),
        ensures
            self.before().is_prefix_of(r@),
            open_head(self.checks()).is_prefix_of(r@.skip(self.before().len() as int)),
            is_sealed(r@.skip(self.before().len() as int), self.checks(), self.taken()),
            is_frame(r@.skip(self.before().len() as int), self.taken()),
            layout::decoded(r@.skip(self.before().len() as int)) == Ok::<Seq<u8>, Error>(
                self.taken(),
            ),
            r@ == self.before() + open_frame(self.taken(), self.checks(), self.depth()),
    {
        let mut w: Writer = self;
        assert(w.taken().take(w.taken().len() as int) =~= w.taken());
        assert(w.makes(w.taken()));
        while w.at < w.window.end()
            invariant
                w.stands(),
                w.before() == self.before(),
                w.taken() == self.taken(),
                w.checks() == self.checks(),
                w.depth() == self.depth(),
                w.makes(self.taken()),
            decreases w.window.all().len() - w.at,
        {
            let ghost was = w;
            w.block();
            proof {
                let d = self.taken();
                let rest = blocks_from(w.finder.places(), w.depth(), d, w.at as int, false);
                let s = split_of(was.finder.places(), was.depth(), d, was.at as int);
                let enc = block_bytes(
                    d.subrange(was.at as int, w.at as int),
                    s.literals,
                    s.qs,
                    false,
                );
                assert(was.sent() + (enc + rest) =~= was.sent() + enc + rest);
            }
        }
        let ghost all = w.window.all();
        let ghost sent = w.sent();
        let ghost n = w.before@.len() as int;
        let ghost h = open_header(w.checksum);
        let ghost o = w.out@;
        let empty: Vec<u8> = Vec::new();
        assert(all.take(w.at as int) =~= all);
        let enc: Ghost<Seq<u8>> = write_raw(
            &mut w.out,
            &empty,
            true,
            Ghost(all),
            Ghost(h.window),
            Ghost(layout::room_after(0)),
        );
        if w.checksum {
            put_le(&mut w.out, w.digest.finish() % 0x1_0000_0000, 4);
        }
        proof {
            assert(all + empty@ =~= all);
            lemma_leads_last(sent, h, all, enc@, all);
            let c = check_bytes(w.checksum, all);
            assert(w.out@ =~= o + enc@ + c);
            assert(w.out@.skip(n) =~= sent + enc@ + c) by {
                assert(o.take(n) == w.before@);
            }
            assert(w.out@.take(n) =~= o.take(n));
            lemma_seal(sent + enc@, w.checksum, all);
            let e = Seq::<u8>::empty();
            assert(sent + e =~= sent);
            assert(enc@ =~= block_head(RAW_BLOCK, 0, true));
            assert(w.out@ =~= w.before@ + w.out@.skip(n));
            let head = open_head(w.checksum);
            assert(w.out@.skip(n).take(head.len() as int) =~= sent.take(head.len() as int));
        }
        w.out
    }
}

} // verus!
