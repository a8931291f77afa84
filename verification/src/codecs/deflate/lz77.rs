//! Splitting data into literal bytes and repeats of earlier bytes.
use crate::codecs::matching;
use crate::codecs::Level;
use crate::utils::lz;
use vstd::prelude::*;

verus! {

/// The shortest repeat.
pub const MIN_MATCH: usize = 3;

/// The longest repeat.
pub const MAX_MATCH: usize = 258;

/// How far back a repeat may reach.
pub const MAX_DISTANCE: usize = 32_768;

const HASH_SIZE: usize = 65_536;

const HASH_BYTES: usize = 4;

const NIL: i32 = -0x8000_0000;

/// A piece of the data.
#[derive(Debug, Clone, Copy, PartialEq, Eq, Structural)]
pub enum Token {
    /// One byte as it is.
    Literal(u8),
    /// `len` bytes, each the one `dist` bytes back.
    Match {
        /// How many bytes.
        len: u16,
        /// How far back.
        dist: u16,
    },
}

/// `out` with what a token stands for.
pub open spec fn apply(out: Seq<u8>, t: Token) -> Seq<u8> {
    match t {
        Token::Literal(b) => out.push(b),
        Token::Match { len, dist } => lz::copied(out, dist as int, len as nat),
    }
}

/// What a run of tokens spells.
pub open spec fn spelled(tokens: Seq<Token>) -> Seq<u8>
    decreases tokens.len(),
{
    if tokens.len() == 0 {
        Seq::empty()
    } else {
        apply(spelled(tokens.drop_last()), tokens.last())
    }
}

/// A repeat is of a legal length and reaches no further back than the data
/// goes.
pub open spec fn token_ok(t: Token, before: nat) -> bool {
    t matches Token::Match { len, dist } ==> MIN_MATCH <= len <= MAX_MATCH && 1 <= dist
        <= MAX_DISTANCE && dist <= before
}

/// Every token is legal where it stands.
pub open spec fn tokens_ok(tokens: Seq<Token>) -> bool {
    forall|i: int|
        0 <= i < tokens.len() ==> token_ok(#[trigger] tokens[i], spelled(tokens.take(i)).len())
}

pub proof fn lemma_spelled_push(tokens: Seq<Token>, t: Token)
    requires
        tokens_ok(tokens),
        token_ok(t, spelled(tokens).len()),
    ensures
        spelled(tokens.push(t)) == apply(spelled(tokens), t),
        tokens_ok(tokens.push(t)),
{
    let r = tokens.push(t);
    assert(r.drop_last() =~= tokens);
    assert forall|i: int| 0 <= i < r.len() implies token_ok(
        #[trigger] r[i],
        spelled(r.take(i)).len(),
    ) by {
        if i < tokens.len() {
            assert(r.take(i) =~= tokens.take(i));
            assert(r[i] == tokens[i]);
        } else {
            assert(r.take(i) =~= tokens);
        }
    }
}

pub proof fn lemma_spelled_take(tokens: Seq<Token>, i: int)
    requires
        0 <= i < tokens.len(),
    ensures
        spelled(tokens.take(i + 1)) == apply(spelled(tokens.take(i)), tokens[i]),
{
    assert(tokens.take(i + 1).drop_last() =~= tokens.take(i));
}

/// How much a token adds.
pub proof fn lemma_apply_len(out: Seq<u8>, t: Token)
    ensures
        apply(out, t).len() == out.len() + match t {
            Token::Literal(_) => 1,
            Token::Match { len, dist } => len as nat,
        },
{
    if let Token::Match { len, dist } = t {
        lz::lemma_copied_len(out, dist as int, len as nat);
    }
}

/// More tokens spell at least as much.
pub proof fn lemma_spelled_grows(tokens: Seq<Token>, i: int)
    requires
        0 <= i <= tokens.len(),
    ensures
        spelled(tokens.take(i)).len() <= spelled(tokens).len(),
    decreases tokens.len() - i,
{
    if i == tokens.len() {
        assert(tokens.take(i) =~= tokens);
    } else {
        lemma_spelled_grows(tokens, i + 1);
        lemma_spelled_take(tokens, i);
        lemma_apply_len(spelled(tokens.take(i)), tokens[i]);
    }
}

/// There are no more tokens than bytes.
pub proof fn lemma_token_count(tokens: Seq<Token>)
    requires
        tokens_ok(tokens),
    ensures
        tokens.len() <= spelled(tokens).len(),
    decreases tokens.len(),
{
    if tokens.len() > 0 {
        let front = tokens.drop_last();
        let n = tokens.len() - 1;
        assert forall|i: int| 0 <= i < front.len() implies token_ok(
            #[trigger] front[i],
            spelled(front.take(i)).len(),
        ) by {
            assert(front.take(i) =~= tokens.take(i));
            assert(front[i] == tokens[i]);
        }
        lemma_token_count(front);
        assert(token_ok(tokens[n], spelled(tokens.take(n)).len()));
        lemma_apply_len(spelled(front), tokens.last());
    }
}

#[derive(Debug, Clone, Copy)]
struct Config {
    max_chain: u32,
    good_length: usize,
    nice_length: usize,
    lazy: bool,
    insert_all: bool,
}

/// How hard each level looks.
spec fn config_of(level: Level) -> Config {
    match level {
        Level::Stored => Config {
            max_chain: 0,
            good_length: 0,
            nice_length: 0,
            lazy: false,
            insert_all: false,
        },
        Level::Fast => Config {
            max_chain: 16,
            good_length: 8,
            nice_length: 32,
            lazy: false,
            insert_all: false,
        },
        Level::Default => Config {
            max_chain: 96,
            good_length: 32,
            nice_length: 128,
            lazy: true,
            insert_all: true,
        },
        Level::Best => Config {
            max_chain: 1024,
            good_length: 128,
            nice_length: MAX_MATCH,
            lazy: true,
            insert_all: true,
        },
    }
}

/// The number of places looked at once a good repeat was found.
spec fn quarter_of(c: Config) -> nat {
    if c.max_chain / 4 > 1 {
        (c.max_chain / 4) as nat
    } else {
        1
    }
}

/// What a finder knows: the latest place for each hash, the place before each
/// place, and which place the block starts at.
pub struct Seen {
    pub heads: Seq<i32>,
    pub prev: Seq<i32>,
    pub base: int,
}

/// The hash of the four bytes at `pos`.
#[verifier::opaque]
spec fn hash_at(data: Seq<u8>, pos: int) -> int {
    let key = data[pos] + 256 * data[pos + 1] + 65536 * data[pos + 2] + 0x100_0000 * data[pos + 3];
    ((key as u32).wrapping_mul(0x9E37_79B1) / 65536) as int
}

/// One more place.
spec fn inserted(s: Seen, data: Seq<u8>, pos: int) -> Seen {
    let h = hash_at(data, pos);
    Seen {
        heads: s.heads.update(h, (s.base + pos) as i32),
        prev: s.prev.update(pos % MAX_DISTANCE as int, s.heads[h]),
        base: s.base,
    }
}

/// The places from `p` up to `end`.
spec fn inserted_up_to(s: Seen, data: Seq<u8>, p: int, end: int) -> Seen
    decreases end - p,
{
    if p < end {
        inserted_up_to(inserted(s, data, p), data, p + 1, end)
    } else {
        s
    }
}

/// The longest agreement with what stands at `pos` among the next `chain`
/// places, and how far back it is, or `best` where none is longer. A nice one
/// ends the search, and after a good one fewer places are looked at.
spec fn walked(
    c: Config,
    s: Seen,
    data: Seq<u8>,
    pos: int,
    limit: int,
    earliest: int,
    candidate: i32,
    chain: nat,
    best: (int, int),
) -> (int, int)
    decreases chain,
{
    let at = candidate - s.base;
    if chain == 0 || at < 0 || best.0 >= limit || at < earliest {
        best
    } else {
        let len = matching::common(data, at, pos, 0, limit);
        let next = s.prev[at % MAX_DISTANCE as int];
        if len <= best.0 {
            walked(c, s, data, pos, limit, earliest, next, (chain - 1) as nat, best)
        } else if len >= c.nice_length {
            (len, pos - at)
        } else {
            let left = if len >= c.good_length && quarter_of(c) < chain {
                quarter_of(c)
            } else {
                chain
            };
            walked(c, s, data, pos, limit, earliest, next, (left - 1) as nat, (len, pos - at))
        }
    }
}

/// The repeat at `pos` that the search from `start` finds, where it is longer
/// than `min_len`.
#[verifier::opaque]
spec fn found_at(
    c: Config,
    s: Seen,
    data: Seq<u8>,
    pos: int,
    min_len: int,
    start: i32,
) -> Option<(usize, usize)> {
    let limit = if data.len() - pos < MAX_MATCH {
        data.len() - pos
    } else {
        MAX_MATCH as int
    };
    let earliest = if pos > MAX_DISTANCE {
        pos - MAX_DISTANCE
    } else {
        0
    };
    let floor = if min_len > MIN_MATCH - 1 {
        min_len
    } else {
        MIN_MATCH - 1
    };
    let chain = if floor >= c.good_length {
        quarter_of(c)
    } else {
        c.max_chain as nat
    };
    if limit < MIN_MATCH {
        None
    } else {
        let (len, dist) = walked(
            c,
            s,
            data,
            pos,
            limit,
            earliest,
            start,
            chain,
            (floor, 0int),
        );
        if len >= MIN_MATCH && dist > 0 {
            Some((len as usize, dist as usize))
        } else {
            None
        }
    }
}

/// Where places end to have four bytes.
spec fn hash_end_of(data: Seq<u8>) -> int {
    if data.len() > 3 {
        data.len() - 3
    } else {
        0
    }
}

/// How the repeat at `pos` is taken: where it starts, how long it is, how far
/// back it reaches, and what is known then. A lazy search prefers a longer
/// one that starts a byte later.
spec fn taken_at(c: Config, s: Seen, data: Seq<u8>, pos: int, len: usize, dist: usize) -> (
    int,
    usize,
    usize,
    Seen,
) {
    if c.lazy && len < c.nice_length && pos + 1 < hash_end_of(data) {
        let t = inserted(s, data, pos + 1);
        match found_at(c, t, data, pos + 1, len as int, s.heads[hash_at(data, pos + 1)]) {
            Some((more, back)) => (pos + 1, more, back, t),
            None => (pos, len, dist, t),
        }
    } else {
        (pos, len, dist, s)
    }
}

/// What is known after a repeat from `from` to `end`.
spec fn known_after(c: Config, s: Seen, data: Seq<u8>, from: int, end: int) -> Seen {
    let stop = if end < hash_end_of(data) {
        end
    } else {
        hash_end_of(data)
    };
    if c.insert_all {
        inserted_up_to(s, data, from + 1, stop)
    } else if end - 1 < hash_end_of(data) {
        inserted(s, data, end - 1)
    } else {
        s
    }
}

/// The tokens of the data from `pos` on, and what is known after them.
spec fn parsed(c: Config, s: Seen, data: Seq<u8>, pos: int) -> (Seq<Token>, Seen)
    decreases data.len() - pos,
{
    if pos < 0 || pos >= data.len() {
        (Seq::empty(), s)
    } else if pos >= hash_end_of(data) {
        let (more, known) = parsed(c, s, data, pos + 1);
        (seq![Token::Literal(data[pos])] + more, known)
    } else {
        let t = inserted(s, data, pos);
        match found_at(c, t, data, pos, MIN_MATCH - 1, s.heads[hash_at(data, pos)]) {
            None => {
                let (more, known) = parsed(c, t, data, pos + 1);
                (seq![Token::Literal(data[pos])] + more, known)
            },
            Some((len, dist)) => {
                let (from, l, d, u) = taken_at(c, t, data, pos, len, dist);
                let end = from + l;
                if end <= pos || end > data.len() {
                    (Seq::empty(), u)
                } else {
                    let (more, known) = parsed(
                        c,
                        known_after(c, u, data, from, end),
                        data,
                        end,
                    );
                    let front = if from > pos {
                        seq![Token::Literal(data[pos])]
                    } else {
                        Seq::empty()
                    };
                    (front + seq![Token::Match { len: l as u16, dist: d as u16 }] + more, known)
                }
            },
        }
    }
}

impl Config {
    fn for_level(level: Level) -> (r: Self)
        ensures
            r == config_of(level),
    {
        match level {
            Level::Stored => Config {
                max_chain: 0,
                good_length: 0,
                nice_length: 0,
                lazy: false,
                insert_all: false,
            },
            Level::Fast => Config {
                max_chain: 16,
                good_length: 8,
                nice_length: 32,
                lazy: false,
                insert_all: false,
            },
            Level::Default => Config {
                max_chain: 96,
                good_length: 32,
                nice_length: 128,
                lazy: true,
                insert_all: true,
            },
            Level::Best => Config {
                max_chain: 1024,
                good_length: 128,
                nice_length: MAX_MATCH,
                lazy: true,
                insert_all: true,
            },
        }
    }
}

/// Finds repeats by chaining the places where the same four bytes start.
/// Places are numbered across blocks, so that those of a block gone by are
/// known to be stale.
pub struct MatchFinder {
    head: Vec<i32>,
    prev: Vec<i32>,
    config: Config,
    base: i32,
    span: i32,
}

/// Whether the data at `a` and at `b` agree in `n` bytes.
spec fn agree(data: Seq<u8>, a: int, b: int, n: int) -> bool {
    forall|k: int| 0 <= k < n ==> data[a + k] == #[trigger] data[b + k]
}

/// What a finder has come to know.
pub struct Look {
    /// The places it remembers.
    pub seen: Seen,
    /// How far the last block went.
    pub span: int,
}

/// A finder that has seen nothing.
pub closed spec fn first_look() -> Look {
    Look { seen: MatchFinder::blank(0), span: 0 }
}

/// What is known at the start of a block. Places go on from those of the
/// block before, and start anew where they would run out.
pub closed spec fn begun_from(k: Look, len: int) -> Seen {
    let next = k.seen.base + k.span + 1;
    if next + len >= i32::MAX {
        MatchFinder::blank(0)
    } else {
        Seen { base: next, ..k.seen }
    }
}

/// The tokens that a block is split into by a finder that looks as hard as
/// `level` says and knows what `k` says.
pub closed spec fn split_at(level: Level, k: Look, data: Seq<u8>) -> Seq<Token> {
    let c = config_of(level);
    if c.max_chain == 0 {
        Seq::new(data.len(), |i: int| Token::Literal(data[i]))
    } else {
        parsed(c, begun_from(k, data.len() as int), data, 0).0
    }
}

/// What that finder knows then.
pub closed spec fn look_after(level: Level, k: Look, data: Seq<u8>) -> Look {
    let c = config_of(level);
    let s = begun_from(k, data.len() as int);
    Look {
        seen: if c.max_chain == 0 {
            s
        } else {
            parsed(c, s, data, 0).1
        },
        span: data.len() as int,
    }
}

impl MatchFinder {
    /// What the finder has come to know.
    pub open spec fn look(&self) -> Look {
        Look { seen: self.seen(), span: self.block() }
    }

    /// Every place in the tables lies in a block already seen.
    pub closed spec fn wf(&self) -> bool {
        self.below(self.base + self.span) && 0 <= self.span && self.base + self.span < i32::MAX
    }

    /// Every place in the tables lies below `limit`.
    closed spec fn below(&self, limit: int) -> bool {
        &&& self.head@.len() == HASH_SIZE
        &&& 0 <= self.base
        &&& 0 <= limit
        &&& forall|i: int| 0 <= i < HASH_SIZE ==> #[trigger] self.head@[i] < limit
        &&& self.chains_below(limit)
    }

    closed spec fn chains_below(&self, limit: int) -> bool {
        &&& self.prev@.len() == MAX_DISTANCE
        &&& 0 <= self.base
        &&& forall|i: int| 0 <= i < MAX_DISTANCE ==> #[trigger] self.prev@[i] < limit
    }

    /// What the finder knows.
    pub closed spec fn seen(&self) -> Seen {
        Seen { heads: self.head@, prev: self.prev@, base: self.base as int }
    }

    /// How far the last block went.
    pub closed spec fn block(&self) -> int {
        self.span as int
    }

    /// How hard the finder looks.
    pub closed spec fn looks_like(&self, level: Level) -> bool {
        self.config == config_of(level)
    }

    /// Nothing is known.
    pub closed spec fn blank(base: int) -> Seen {
        Seen {
            heads: Seq::new(HASH_SIZE as nat, |i: int| NIL),
            prev: Seq::new(MAX_DISTANCE as nat, |i: int| NIL),
            base,
        }
    }

    /// What is known at the start of a block. Places go on from those of the
    /// block before, and start anew where they would run out.
    pub closed spec fn begun(&self, len: int) -> Seen {
        let next = self.base + self.span + 1;
        if next + len >= i32::MAX {
            Self::blank(0)
        } else {
            Seen { base: next, ..self.seen() }
        }
    }

    /// The tokens that data is split into.
    pub closed spec fn split(&self, data: Seq<u8>) -> Seq<Token> {
        if self.config.max_chain == 0 {
            Seq::new(data.len(), |i: int| Token::Literal(data[i]))
        } else {
            parsed(self.config, self.begun(data.len() as int), data, 0).0
        }
    }

    /// At the level that stores, data is split into its bytes.
    pub proof fn lemma_stored_split(&self, data: Seq<u8>)
        requires
            self.looks_like(Level::Stored),
        ensures
            self.split(data) == Seq::new(data.len(), |i: int| Token::Literal(data[i])),
    {
    }

    /// What is known once data was split.
    pub closed spec fn known(&self, data: Seq<u8>) -> Seen {
        if self.config.max_chain == 0 {
            self.begun(data.len() as int)
        } else {
            parsed(self.config, self.begun(data.len() as int), data, 0).1
        }
    }

    /// A finder that has seen nothing.
    pub fn new(level: Level) -> (r: Self)
        ensures
            r.wf(),
            r.looks_like(level),
            r.seen() == Self::blank(0),
            r.block() == 0,
            r.look() == first_look(),
    {
        let head: Vec<i32> = vec![NIL; HASH_SIZE];
        let prev: Vec<i32> = vec![NIL; MAX_DISTANCE];
        let r: MatchFinder = MatchFinder {
            head,
            prev,
            config: Config::for_level(level),
            base: 0,
            span: 0,
        };
        assert(r.seen().heads =~= Self::blank(0).heads);
        assert(r.seen().prev =~= Self::blank(0).prev);
        r
    }

    fn begin_block(&mut self, len: usize)
        requires
            old(self).wf(),
            len < i32::MAX,
        ensures
            final(self).below(final(self).base as int),
            final(self).span == len,
            final(self).base + len < i32::MAX,
            final(self).config == old(self).config,
            final(self).seen() == old(self).begun(len as int),
    {
        let next: i64 = self.base as i64 + self.span as i64 + 1;
        if next + len as i64 >= i32::MAX as i64 {
            self.head = vec![NIL; HASH_SIZE];
            self.prev = vec![NIL; MAX_DISTANCE];
            self.base = 0;
        } else {
            self.base = next as i32;
        }
        self.span = len as i32;
        proof {
            let now = old(self).begun(len as int);
            assert(self.seen().heads =~= now.heads);
            assert(self.seen().prev =~= now.prev);
        }
    }

    fn hash(data: &[u8], pos: usize) -> (r: usize)
        requires
            pos + 4 <= data@.len(),
        ensures
            r < HASH_SIZE,
            r == hash_at(data@, pos as int),
    {
        let key: u32 = data[pos] as u32 + 256 * (data[pos + 1] as u32) + 65536 * (data[pos
            + 2] as u32) + 0x100_0000 * (data[pos + 3] as u32);
        proof {
            reveal(hash_at);
        }
        (key.wrapping_mul(0x9E37_79B1) / 65536) as usize
    }

    fn match_length(data: &[u8], a: usize, b: usize, limit: usize) -> (n: usize)
        requires
            a <= b,
            b + limit <= data.len(),
        ensures
            n <= limit,
            agree(data@, a as int, b as int, n as int),
            n < limit ==> data@[a + n] != data@[b + n],
            n == matching::common(data@, a as int, b as int, 0, limit as int),
    {
        let mut n: usize = 0;
        while n < limit && data[a + n] == data[b + n]
            invariant
                matching::common(data@, a as int, b as int, n as int, limit as int)
                    == matching::common(data@, a as int, b as int, 0, limit as int),
                a <= b,
                b + limit <= data.len(),
                n <= limit,
                agree(data@, a as int, b as int, n as int),
            decreases limit - n,
        {
            n = n + 1;
        }
        n
    }

    fn find(&self, data: &[u8], pos: usize, min_len: usize, start: i32) -> (r: Option<
        (usize, usize),
    >)
        requires
            self.chains_below(self.base + pos),
            start < self.base + pos,
            pos <= data@.len(),
        ensures
            r matches Some((len, dist)) ==> MIN_MATCH <= len <= MAX_MATCH && min_len < len && 1
                <= dist <= MAX_DISTANCE && dist <= pos && pos + len <= data@.len() && agree(
                data@,
                pos - dist,
                pos as int,
                len as int,
            ),
            r == found_at(
                self.config,
                self.seen(),
                data@,
                pos as int,
                min_len as int,
                start,
            ),
    {
        proof {
            reveal(found_at);
        }
        let limit: usize = if data.len() - pos < MAX_MATCH {
            data.len() - pos
        } else {
            MAX_MATCH
        };
        if limit < MIN_MATCH {
            return None;
        }
        let earliest: usize = if pos > MAX_DISTANCE {
            pos - MAX_DISTANCE
        } else {
            0
        };
        let quarter: u32 = if self.config.max_chain / 4 > 1 {
            self.config.max_chain / 4
        } else {
            1
        };
        let mut candidate: i32 = start;
        let mut best_len: usize = if min_len > MIN_MATCH - 1 {
            min_len
        } else {
            MIN_MATCH - 1
        };
        let mut best_dist: usize = 0;
        let mut chain: u32 = if best_len >= self.config.good_length {
            quarter
        } else {
            self.config.max_chain
        };
        let ghost found = walked(
            self.config,
            self.seen(),
            data@,
            pos as int,
            limit as int,
            earliest as int,
            candidate,
            chain as nat,
            (best_len as int, 0int),
        );
        while chain > 0 && candidate >= self.base && best_len < limit
            invariant_except_break
                found == walked(
                    self.config,
                    self.seen(),
                    data@,
                    pos as int,
                    limit as int,
                    earliest as int,
                    candidate,
                    chain as nat,
                    (best_len as int, best_dist as int),
                ),
            invariant
                quarter == quarter_of(self.config),
                self.chains_below(self.base + pos),
                candidate < self.base + pos,
                pos + limit <= data@.len(),
                limit <= MAX_MATCH,
                earliest <= pos,
                pos - earliest <= MAX_DISTANCE,
                MIN_MATCH - 1 <= best_len,
                min_len <= best_len,
                best_dist > 0 ==> MIN_MATCH <= best_len <= limit && min_len < best_len && best_dist
                    <= MAX_DISTANCE && best_dist <= pos && agree(
                    data@,
                    pos - best_dist,
                    pos as int,
                    best_len as int,
                ),
            ensures
                found == (best_len as int, best_dist as int),
            decreases chain,
        {
            let cpos: usize = (candidate - self.base) as usize;
            proof {
                matching::lemma_common(data@, cpos as int, pos as int, 0, limit as int);
            }
            let ghost agreed = matching::common(data@, cpos as int, pos as int, 0, limit as int);
            if cpos < earliest {
                break;
            }
            let mut good: bool = false;
            assert(agreed > best_len ==> data@[cpos + best_len] == data@[pos + best_len]);
            if data[cpos + best_len] == data[pos + best_len] {
                let len: usize = Self::match_length(data, cpos, pos, limit);
                if len > best_len {
                    best_len = len;
                    best_dist = pos - cpos;
                    if len >= self.config.nice_length {
                        break;
                    }
                    good = len >= self.config.good_length;
                }
            }
            if good && quarter < chain {
                chain = quarter;
            }
            candidate = self.prev[cpos % MAX_DISTANCE];
            if chain > 0 {
                chain = chain - 1;
            }
        }
        if best_len >= MIN_MATCH && best_dist > 0 {
            Some((best_len, best_dist))
        } else {
            None
        }
    }

    fn insert(&mut self, data: &[u8], pos: usize) -> (r: i32)
        requires
            pos + 4 <= data@.len(),
            old(self).base + data@.len() < i32::MAX,
            old(self).below(old(self).base + pos + 1),
        ensures
            final(self).below(final(self).base + pos + 1),
            final(self).base == old(self).base,
            final(self).span == old(self).span,
            final(self).config == old(self).config,
            old(self).below(old(self).base + pos) ==> r < final(self).base + pos
                && final(self).chains_below(final(self).base + pos),
            r == old(self).seen().heads[hash_at(data@, pos as int)],
            final(self).seen() == inserted(old(self).seen(), data@, pos as int),
    {
        let h: usize = Self::hash(data, pos);
        let previous: i32 = self.head[h];
        let at: i32 = self.base + pos as i32;
        self.prev[pos % MAX_DISTANCE] = previous;
        self.head[h] = at;
        previous
    }

    /// Split `data` into tokens, in place of whatever `out` held.
    #[verifier::spinoff_prover]
    #[verifier::rlimit(80)]
    pub fn tokenize(&mut self, data: &[u8], out: &mut Vec<Token>)
        requires
            old(self).wf(),
            data@.len() < i32::MAX,
        ensures
            final(self).wf(),
            spelled(final(out)@) == data@,
            tokens_ok(final(out)@),
            final(out)@ == old(self).split(data@),
            final(self).seen() == old(self).known(data@),
            final(self).block() == data@.len(),
            forall|level: Level| #[trigger]
                final(self).looks_like(level) == old(self).looks_like(level),
            forall|level: Level| #[trigger]
                old(self).looks_like(level) ==> final(out)@ == split_at(
                    level,
                    old(self).look(),
                    data@,
                ) && final(self).look() == look_after(level, old(self).look(), data@),
    {
        out.clear();
        self.begin_block(data.len());
        let ghost config = self.config;
        let ghost all = parsed(config, self.seen(), data@, 0);
        assert(spelled(out@) =~= data@.take(0));
        if self.config.max_chain == 0 {
            let mut i: usize = 0;
            while i < data.len()
                invariant
                    i <= data@.len(),
                    spelled(out@) == data@.take(i as int),
                    tokens_ok(out@),
                    out@ == Seq::new(i as nat, |k: int| Token::Literal(data@[k])),
                decreases data@.len() - i,
            {
                proof {
                    lemma_spelled_push(out@, Token::Literal(data@[i as int]));
                    assert(data@.take(i as int).push(data@[i as int]) =~= data@.take(i + 1));
                }
                out.push(Token::Literal(data[i]));
                assert(out@ =~= Seq::new((i + 1) as nat, |k: int| Token::Literal(data@[k])));
                i = i + 1;
            }
            assert(data@.take(i as int) =~= data@);
            return;
        }
        let mut pos: usize = 0;
        let hash_end: usize = if data.len() > HASH_BYTES - 1 {
            data.len() - (HASH_BYTES - 1)
        } else {
            0
        };
        assert(out@ + all.0 =~= all.0);
        while pos < data.len()
            invariant
                self.config == config,
                hash_end == hash_end_of(data@),
                all.0 == out@ + parsed(config, self.seen(), data@, pos as int).0,
                all.1 == parsed(config, self.seen(), data@, pos as int).1,
                pos <= data@.len(),
                self.below(self.base + pos),
                self.base + data@.len() < i32::MAX,
                self.span == data@.len(),
                hash_end > 0 ==> hash_end == data@.len() - 3,
                spelled(out@) == data@.take(pos as int),
                tokens_ok(out@),
            decreases data@.len() - pos,
        {
            proof {
                lemma_spelled_push(out@, Token::Literal(data@[pos as int]));
                assert(data@.take(pos as int).push(data@[pos as int]) =~= data@.take(pos + 1));
            }
            let ghost said = out@;
            let ghost here = pos as int;
            let ghost rest = parsed(config, self.seen(), data@, here).0;
            if pos >= hash_end {
                out.push(Token::Literal(data[pos]));
                pos = pos + 1;
                proof {
                    let more = parsed(config, self.seen(), data@, pos as int).0;
                    assert(rest == seq![Token::Literal(data@[here])] + more);
                    assert(out@ + more =~= said + rest);
                }
            } else {
                let candidate: i32 = self.insert(data, pos);
                let found: Option<(usize, usize)> = self.find(data, pos, MIN_MATCH - 1, candidate);
                match found {
                    None => {
                        out.push(Token::Literal(data[pos]));
                        pos = pos + 1;
                        proof {
                            let more = parsed(config, self.seen(), data@, pos as int).0;
                            assert(rest == seq![Token::Literal(data@[here])] + more);
                            assert(out@ + more =~= said + rest);
                        }
                    },
                    Some((first_len, first_dist)) => {
                        let mut len: usize = first_len;
                        let mut dist: usize = first_dist;
                        let ghost once = self.seen();
                        if self.config.lazy && len < self.config.nice_length && pos + 1 < hash_end {
                            let next_candidate: i32 = self.insert(data, pos + 1);
                            if let Some((next_len, next_dist)) = self.find(
                                data,
                                pos + 1,
                                len,
                                next_candidate,
                            ) {
                                out.push(Token::Literal(data[pos]));
                                pos = pos + 1;
                                len = next_len;
                                dist = next_dist;
                            }
                        }
                        proof {
                            let t = Token::Match { len: len as u16, dist: dist as u16 };
                            lemma_spelled_push(out@, t);
                            let p = pos as int;
                            let d = dist as int;
                            assert forall|k: int| p <= k < p + len implies #[trigger] data@[k]
                                == data@[k - d] by {
                                assert(data@[(p - d) + (k - p)] == data@[p + (k - p)]);
                            }
                            lz::lemma_copied_matches(data@, p, d, len as nat);
                        }
                        out.push(Token::Match { len: len as u16, dist: dist as u16 });
                        let end: usize = pos + len;
                        let ghost twice = self.seen();
                        let ghost stop = if end < hash_end {
                            end as int
                        } else {
                            hash_end as int
                        };
                        assert(taken_at(config, once, data@, here, first_len, first_dist) == (
                            pos as int,
                            len,
                            dist,
                            twice,
                        ));
                        if self.config.insert_all {
                            let mut p: usize = pos + 1;
                            while p < end && p < hash_end
                                invariant
                                    self.config == config,
                                    stop == if end < hash_end {
                                        end as int
                                    } else {
                                        hash_end as int
                                    },
                                    inserted_up_to(self.seen(), data@, p as int, stop)
                                        == inserted_up_to(twice, data@, pos + 1, stop),
                                    pos < p,
                                    pos + 1 <= p <= end <= data@.len(),
                                    self.base + data@.len() < i32::MAX,
                                    self.span == data@.len(),
                                    hash_end > 0 ==> hash_end == data@.len() - 3,
                                    self.below(self.base + p + 1),
                                    p >= pos + 2 ==> self.below(self.base + p),
                                decreases end - p,
                            {
                                let _ = self.insert(data, p);
                                p = p + 1;
                            }
                        } else if end - 1 < hash_end {
                            let _ = self.insert(data, end - 1);
                        }
                        assert(self.seen() == known_after(
                            config,
                            twice,
                            data@,
                            pos as int,
                            end as int,
                        ));
                        proof {
                            let m = Token::Match { len: len as u16, dist: dist as u16 };
                            let more = parsed(config, self.seen(), data@, end as int).0;
                            let front = if pos > here {
                                seq![Token::Literal(data@[here])]
                            } else {
                                Seq::empty()
                            };
                            assert(rest == front + seq![m] + more);
                            assert(out@ =~= said + front + seq![m]);
                            assert(out@ + more =~= said + rest);
                        }
                        pos = end;
                    },
                }
            }
        }
        assert(data@.take(pos as int) =~= data@);
        assert(out@ + Seq::<Token>::empty() =~= out@);
    }
}

} // verus!
