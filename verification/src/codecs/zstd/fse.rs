//! Finite state entropy tables: how they are described, built, read and
//! written.
use crate::codecs::zstd::bits as stream;
use crate::codecs::zstd::bits::{BackwardBits, BitWriter};
use crate::utils::bits;
use crate::utils::bits::{floor_log2, power_of_two, shift_right};
use crate::utils::error::{Error, Result};
use vstd::arithmetic::power2::*;
use vstd::prelude::*;

verus! {

pub const MIN_TABLE_LOG: u32 = 5;

pub const MAX_TABLE_LOG: u32 = 9;

pub const MAX_WEIGHT_TABLE_LOG: u32 = 6;

/// What one state stands for and which states follow it.
#[derive(Debug, Clone, Copy)]
pub struct Entry {
    pub symbol: u8,
    pub bits: u8,
    pub base: u16,
}

impl Default for Entry {
    fn default() -> (r: Self)
        ensures
            r == (Entry { symbol: 0, bits: 0, base: 0 }),
    {
        Entry { symbol: 0, bits: 0, base: 0 }
    }
}

/// A table of states.
#[derive(Debug, Clone)]
pub struct Table {
    pub log: u32,
    pub entries: Vec<Entry>,
}

impl Default for Table {
    fn default() -> (r: Self)
        ensures
            r.log == 0,
            r.entries@ == Seq::<Entry>::empty(),
    {
        Table { log: 0, entries: Vec::new() }
    }
}

/// A table of states.
#[verifier::ext_equal]
pub struct States {
    pub log: nat,
    pub entries: Seq<Entry>,
}

impl View for Table {
    type V = States;

    open spec fn view(&self) -> States {
        States { log: self.log as nat, entries: self.entries@ }
    }
}

/// Whether a state leads to states of the table only.
pub open spec fn stays_inside(e: Entry, size: nat) -> bool {
    e.base + pow2(e.bits as nat) <= size
}

impl States {
    /// Every state leads to states of the table.
    pub open spec fn valid(self) -> bool {
        &&& self.log <= MAX_TABLE_LOG
        &&& self.entries.len() == pow2(self.log)
        &&& forall|i: int|
            0 <= i < self.entries.len() ==> #[trigger] stays_inside(
                self.entries[i],
                self.entries.len(),
            )
    }
}

/// How many states a count asks for.
pub open spec fn share(c: i32) -> nat {
    if c == -1 {
        1
    } else if c > 0 {
        c as nat
    } else {
        0
    }
}

/// The share of symbol `s`.
pub open spec fn share_at(counts: Seq<i32>, s: int) -> nat {
    if 0 <= s < counts.len() {
        share(counts[s])
    } else {
        0
    }
}

/// The rarest symbols, whose count is given as -1, take one state each from
/// the top down.
pub open spec fn rare(counts: Seq<i32>, i: int, symbols: Seq<u8>, high: nat) -> Option<
    (Seq<u8>, nat),
>
    decreases counts.len() - i,
{
    if i >= counts.len() {
        Some((symbols, high))
    } else if counts[i] == -1 {
        if high == 0 {
            None
        } else {
            rare(counts, i + 1, symbols.update(high - 1, i as u8), (high - 1) as nat)
        }
    } else {
        rare(counts, i + 1, symbols, high)
    }
}

/// How far apart successive states of one symbol stand.
pub open spec fn stride(size: nat) -> nat {
    size / 2 + size / 8 + 3
}

/// The first state at or after `at`, in strides, that no rare symbol has
/// taken.
pub open spec fn settle(at: nat, size: nat, high: nat, tries: nat) -> Option<nat>
    decreases tries,
{
    if at < high {
        Some(at)
    } else if tries == 0 {
        None
    } else {
        settle((at + stride(size)) % size, size, high, (tries - 1) as nat)
    }
}

/// How many states symbol `i` takes in the spread.
pub open spec fn wanted(counts: Seq<i32>, i: int) -> nat {
    if 0 <= i < counts.len() && counts[i] > 0 {
        counts[i] as nat
    } else {
        0
    }
}

/// The other symbols take their states in strides, `left` more of them going
/// to symbol `i`. It gives the states and where the next one would stand.
pub open spec fn spread(
    counts: Seq<i32>,
    i: int,
    left: nat,
    at: nat,
    symbols: Seq<u8>,
    high: nat,
) -> Option<(Seq<u8>, nat)>
    decreases counts.len() - i, left,
{
    let size = symbols.len();
    if i >= counts.len() {
        Some((symbols, at))
    } else if left == 0 {
        spread(counts, i + 1, wanted(counts, i + 1), at, symbols, high)
    } else {
        match settle((at + stride(size)) % size, size, high, size) {
            None => None,
            Some(next) => spread(
                counts,
                i,
                (left - 1) as nat,
                next,
                symbols.update(at as int, i as u8),
                high,
            ),
        }
    }
}

/// Which symbol each state stands for. The spread has to end where it began.
pub open spec fn placed(counts: Seq<i32>, size: nat) -> Option<Seq<u8>> {
    match rare(counts, 0, Seq::new(size, |i: int| 0u8), size) {
        None => None,
        Some((symbols, high)) => match spread(counts, 0, wanted(counts, 0), 0, symbols, high) {
            None => None,
            Some((symbols, at)) => if at == 0 {
                Some(symbols)
            } else {
                None
            },
        },
    }
}

/// How many of the first `n` states stand for `s`.
pub open spec fn ranked(symbols: Seq<u8>, s: u8, n: int) -> nat
    decreases n,
{
    if n <= 0 {
        0
    } else {
        ranked(symbols, s, n - 1) + if symbols[n - 1] == s {
            1nat
        } else {
            0
        }
    }
}

/// The number of state `j` among those of its symbol, which count from the
/// symbol's share on.
pub open spec fn slot(counts: Seq<i32>, symbols: Seq<u8>, j: int) -> nat {
    share_at(counts, symbols[j] as int) + ranked(symbols, symbols[j], j)
}

/// State `j`: its number, scaled up into the range from the table's size to
/// twice that, starts the range of states that follow it.
pub open spec fn entry_at(counts: Seq<i32>, symbols: Seq<u8>, log: nat, j: int) -> Option<Entry> {
    let n = slot(counts, symbols, j);
    if n == 0 || bits::log2(n) > log {
        None
    } else {
        let w = (log - bits::log2(n)) as nat;
        Some(
            Entry {
                symbol: symbols[j],
                bits: w as u8,
                base: (n * pow2(w) - pow2(log)) as u16,
            },
        )
    }
}

/// The table that a distribution makes.
pub open spec fn built(counts: Seq<i32>, log: nat) -> Result<States> {
    if !(MIN_TABLE_LOG <= log <= MAX_TABLE_LOG) {
        Err(Error::Malformed)
    } else {
        match placed(counts, pow2(log)) {
            None => Err(Error::Malformed),
            Some(symbols) => if forall|j: int|
                0 <= j < symbols.len() ==> #[trigger] entry_at(counts, symbols, log, j) is Some {
                Ok(
                    States {
                        log,
                        entries: Seq::new(
                            symbols.len(),
                            |j: int| entry_at(counts, symbols, log, j)->Some_0,
                        ),
                    },
                )
            } else {
                Err(Error::Malformed)
            },
        }
    }
}

/// A state's range of followers lies inside the table.
pub proof fn lemma_entry(counts: Seq<i32>, symbols: Seq<u8>, log: nat, j: int)
    requires
        log <= MAX_TABLE_LOG,
        entry_at(counts, symbols, log, j) is Some,
    ensures
        ({
            let n = slot(counts, symbols, j);
            let w = (log - bits::log2(n)) as nat;
            let e = entry_at(counts, symbols, log, j)->Some_0;
            &&& w <= 9
            &&& pow2(log) <= 512
            &&& pow2(log) <= n * pow2(w) < 2 * pow2(log)
            &&& e.bits == w
            &&& e.base == n * pow2(w) - pow2(log)
            &&& stays_inside(e, pow2(log))
        }),
{
    let n = slot(counts, symbols, j);
    let l = bits::log2(n);
    let w = (log - l) as nat;
    bits::lemma_log2(n);
    lemma_pow2_adds(l, w);
    lemma_pow2_adds(l + 1, w);
    lemma_pow2_unfold(log + 1);
    lemma_pow2_pos(w);
    lemma2_to64();
    if log < 9 {
        lemma_pow2_strictly_increases(log, 9);
    }
    let p = pow2(w);
    assert(n * p >= pow2(l) * p) by (nonlinear_arith)
        requires
            n >= pow2(l),
    ;
    assert(n * p + p <= pow2(l + 1) * p) by (nonlinear_arith)
        requires
            n + 1 <= pow2(l + 1),
    ;
}

/// Every table that a distribution makes is valid.
pub proof fn lemma_built_valid(counts: Seq<i32>, log: nat)
    ensures
        built(counts, log) matches Ok(t) ==> t.valid() && t.log == log,
{
    if let Ok(t) = built(counts, log) {
        let symbols = placed(counts, pow2(log))->Some_0;
        lemma_pow2_pos(log);
        lemma_placed_len(counts, pow2(log));
        assert forall|i: int| 0 <= i < t.entries.len() implies #[trigger] stays_inside(
            t.entries[i],
            t.entries.len(),
        ) by {
            assert(entry_at(counts, symbols, log, i) is Some);
            lemma_entry(counts, symbols, log, i);
        }
    }
}

proof fn lemma_placed_len(counts: Seq<i32>, size: nat)
    requires
        size > 0,
    ensures
        placed(counts, size) matches Some(s) ==> s.len() == size,
{
    let zeros = Seq::new(size, |i: int| 0u8);
    lemma_rare_len(counts, 0, zeros, size);
    if let Some((symbols, high)) = rare(counts, 0, zeros, size) {
        lemma_spread_len(counts, 0, wanted(counts, 0), 0, symbols, high);
    }
}

proof fn lemma_rare_len(counts: Seq<i32>, i: int, symbols: Seq<u8>, high: nat)
    requires
        high <= symbols.len(),
    ensures
        rare(counts, i, symbols, high) matches Some(r) ==> r.0.len() == symbols.len() && r.1
            <= high,
    decreases counts.len() - i,
{
    if i < counts.len() {
        if counts[i] == -1 {
            if high > 0 {
                lemma_rare_len(
                    counts,
                    i + 1,
                    symbols.update(high - 1, i as u8),
                    (high - 1) as nat,
                );
            }
        } else {
            lemma_rare_len(counts, i + 1, symbols, high);
        }
    }
}

proof fn lemma_settle(at: nat, size: nat, high: nat, tries: nat)
    requires
        size > 0,
    ensures
        settle(at, size, high, tries) matches Some(p) ==> p < high,
    decreases tries,
{
    if at >= high && tries > 0 {
        lemma_settle((at + stride(size)) % size, size, high, (tries - 1) as nat);
    }
}

proof fn lemma_spread_len(
    counts: Seq<i32>,
    i: int,
    left: nat,
    at: nat,
    symbols: Seq<u8>,
    high: nat,
)
    requires
        at < symbols.len(),
        high <= symbols.len(),
    ensures
        spread(counts, i, left, at, symbols, high) matches Some(r) ==> r.0.len() == symbols.len(),
    decreases counts.len() - i, left,
{
    let size = symbols.len();
    if i < counts.len() {
        if left == 0 {
            lemma_spread_len(counts, i + 1, wanted(counts, i + 1), at, symbols, high);
        } else {
            lemma_settle((at + stride(size)) % size, size, high, size);
            if let Some(next) = settle((at + stride(size)) % size, size, high, size) {
                lemma_spread_len(
                    counts,
                    i,
                    (left - 1) as nat,
                    next,
                    symbols.update(at as int, i as u8),
                    high,
                );
            }
        }
    }
}

/// Whether reading `count` bits from bit `at` on goes past the section, one
/// byte being let pass.
pub open spec fn runs_past(data: Seq<u8>, at: nat, count: nat) -> bool {
    (at + count + 7) / 8 > data.len() + 1
}

/// A run of absent symbols: pairs of bits, of which three says that another
/// pair follows.
pub open spec fn absent(data: Seq<u8>, at: nat) -> Result<(nat, nat)>
    decreases 8 * (data.len() + 2) - at,
{
    if runs_past(data, at, 2) {
        Err(Error::Malformed)
    } else {
        let pair = bits::peek(data, at as int, 2);
        if pair != 3 {
            Ok((pair, at + 2))
        } else {
            match absent(data, at + 2) {
                Err(e) => Err(e),
                Ok((more, q)) => Ok((3 + more, q)),
            }
        }
    }
}

/// A count, `remaining` states being open: the values up to that many take
/// one bit less where they are small.
pub open spec fn count_value(data: Seq<u8>, at: nat, remaining: nat) -> Result<(nat, nat)> {
    let w = bits::log2(remaining);
    let threshold = pow2(w);
    let short = 2 * threshold - 1 - remaining;
    if runs_past(data, at, w) {
        Err(Error::Malformed)
    } else {
        let low = bits::peek(data, at as int, w);
        if low < short {
            Ok((low, at + w))
        } else if runs_past(data, at, w + 1) {
            Err(Error::Malformed)
        } else {
            let wide = bits::peek(data, at as int, w + 1);
            Ok(
                (
                    if wide >= threshold {
                        (wide - short) as nat
                    } else {
                        wide
                    },
                    at + w + 1,
                ),
            )
        }
    }
}

/// `counts` with `n` zeros behind it, up to `most` in all.
pub open spec fn with_zeros(counts: Seq<i32>, n: nat, most: nat) -> Seq<i32> {
    let room = if counts.len() < most {
        most - counts.len()
    } else {
        0
    };
    counts + Seq::new(
        if n < room {
            n
        } else {
            room as nat
        },
        |i: int| 0i32,
    )
}

/// The counts from bit `at` on, `counts` being known and `remaining - 1`
/// states being open. `zero` says that a run of absent symbols comes first.
pub open spec fn counts_from(
    data: Seq<u8>,
    at: nat,
    counts: Seq<i32>,
    remaining: nat,
    zero: bool,
    max_symbol: nat,
) -> Result<(Seq<i32>, nat)>
    decreases
            if counts.len() <= max_symbol {
                max_symbol + 1 - counts.len()
            } else {
                0
            },
            if zero {
                1int
            } else {
                0
            },
{
    if remaining <= 1 || counts.len() > max_symbol {
        if remaining != 1 {
            Err(Error::Malformed)
        } else {
            Ok((counts, at))
        }
    } else if zero {
        match absent(data, at) {
            Err(e) => Err(e),
            Ok((n, q)) => counts_from(
                data,
                q,
                with_zeros(counts, n, max_symbol + 1),
                remaining,
                false,
                max_symbol,
            ),
        }
    } else {
        match count_value(data, at, remaining) {
            Err(e) => Err(e),
            Ok((v, q)) => {
                let count = v - 1;
                counts_from(
                    data,
                    q,
                    counts.push(count as i32),
                    (remaining - share(count as i32)) as nat,
                    count == 0,
                    max_symbol,
                )
            },
        }
    }
}

/// What a table description says: the table and how many bytes it takes.
pub open spec fn parsed(data: Seq<u8>, max_log: nat, max_symbol: nat) -> Result<(States, nat)> {
    if runs_past(data, 0, 4) {
        Err(Error::Malformed)
    } else {
        let log = bits::peek(data, 0, 4) + 5;
        if log > max_log {
            Err(Error::Malformed)
        } else {
            match counts_from(data, 4, Seq::empty(), pow2(log) + 1, false, max_symbol) {
                Err(e) => Err(e),
                Ok((counts, at)) => match built(counts, log) {
                    Err(e) => Err(e),
                    Ok(t) => Ok((t, (at + 7) / 8)),
                },
            }
        }
    }
}

/// A count never asks for more states than are open.
proof fn lemma_count_value(data: Seq<u8>, at: nat, remaining: nat)
    requires
        remaining > 1,
    ensures
        count_value(data, at, remaining) matches Ok((v, q)) ==> v <= remaining && q > at && (v
            >= 2 ==> remaining - (v - 1) >= 1),
{
    let w = bits::log2(remaining);
    bits::lemma_log2(remaining);
    lemma_pow2_unfold(w + 1);
    bits::lemma_peek_bound(data, at as int, w);
    bits::lemma_peek_bound(data, at as int, w + 1);
}

/// Reads bits forwards, out of a table description.
pub struct ForwardBits<'a> {
    data: &'a [u8],
    bit: u128,
}

impl<'a> ForwardBits<'a> {
    /// What it reads.
    pub closed spec fn data(&self) -> Seq<u8> {
        self.data@
    }

    /// The next bit.
    pub closed spec fn at(&self) -> nat {
        self.bit as nat
    }

    /// Start at the first bit of `data`.
    pub fn new(data: &'a [u8]) -> (r: Self)
        ensures
            r.data() == data@,
            r.at() == 0,
    {
        ForwardBits { data, bit: 0 }
    }

    /// How many bytes were begun.
    pub fn consumed(&self) -> (r: u128)
        ensures
            r == (self.at() + 7) / 8,
    {
        if self.bit % 8 == 0 {
            self.bit / 8
        } else {
            self.bit / 8 + 1
        }
    }

    /// The next `count` bits, which stay there.
    pub fn peek(&self, count: u32) -> (r: Result<u32>)
        requires
            count <= 32,
            self.at() + 64 <= u128::MAX,
        ensures
            if runs_past(self.data(), self.at(), count as nat) {
                r == Err::<u32, Error>(Error::Malformed)
            } else {
                r matches Ok(v) && v == bits::peek(self.data(), self.at() as int, count as nat) && v
                    < pow2(count as nat)
            },
    {
        let mut value: u64 = 0;
        let mut weight: u64 = 1;
        let mut i: u32 = 0;
        proof {
            lemma2_to64();
            bits::lemma_peek_bound(self.data@, self.bit as int, count as nat);
        }
        while i < count
            invariant
                i <= count <= 32,
                self.bit + 64 <= u128::MAX,
                weight == pow2(i as nat),
                weight <= 0x1_0000_0000,
                value == bits::peek(self.data@, self.bit as int, i as nat),
                value < weight,
            decreases count - i,
        {
            let index: u128 = self.bit + i as u128;
            let byte: u8 = if index / 8 < self.data.len() as u128 {
                self.data[(index / 8) as usize]
            } else {
                0
            };
            let b: u64 = shift_right(byte as u64, (index % 8) as u32) % 2;
            proof {
                lemma_pow2_unfold((i + 1) as nat);
                lemma2_to64();
                lemma2_to64_rest();
                lemma_pow2_pos((index % 8) as nat);
                if i + 1 < 32 {
                    lemma_pow2_strictly_increases((i + 1) as nat, 32);
                }
                if index / 8 >= self.data@.len() {
                    assert(0nat / pow2((index % 8) as nat) == 0) by {
                        vstd::arithmetic::div_mod::lemma_basic_div(0, pow2((index % 8) as nat) as int);
                    }
                }
                assert(bits::bit(self.data@, index as int) == (b == 1));
                assert(self.bit + (i + 1) - 1 == index);
            }
            if b == 1 {
                value = value + weight;
            }
            weight = weight * 2;
            i = i + 1;
        }
        let end: u128 = self.bit + count as u128;
        let bytes: u128 = if end % 8 == 0 {
            end / 8
        } else {
            end / 8 + 1
        };
        if bytes > self.data.len() as u128 + 1 {
            return Err(Error::Malformed);
        }
        Ok(value as u32)
    }

    /// Pass over `count` bits.
    pub fn skip(&mut self, count: u32)
        requires
            old(self).at() + count <= u128::MAX,
        ensures
            final(self).data() == old(self).data(),
            final(self).at() == old(self).at() + count,
    {
        self.bit = self.bit + count as u128;
    }

    /// Take the next `count` bits.
    pub fn bits(&mut self, count: u32) -> (r: Result<u32>)
        requires
            count <= 32,
            old(self).at() + 64 <= u128::MAX,
        ensures
            final(self).data() == old(self).data(),
            if runs_past(old(self).data(), old(self).at(), count as nat) {
                r == Err::<u32, Error>(Error::Malformed) && final(self).at() == old(self).at()
            } else {
                r matches Ok(v) && v == bits::peek(
                    old(self).data(),
                    old(self).at() as int,
                    count as nat,
                ) && v < pow2(count as nat) && final(self).at() == old(self).at() + count
            },
    {
        match self.peek(count) {
            Err(e) => Err(e),
            Ok(value) => {
                self.skip(count);
                Ok(value)
            },
        }
    }
}

impl Table {
    /// How many states there are.
    pub fn size(&self) -> (r: usize)
        ensures
            r == self.entries@.len(),
    {
        self.entries.len()
    }

    /// The table of one state, which stands for `symbol`.
    pub fn single(symbol: u8) -> (r: Self)
        ensures
            r@ == single_states(symbol),
            r@.valid(),
    {
        let mut entries: Vec<Entry> = Vec::new();
        entries.push(Entry { symbol, bits: 0, base: 0 });
        let r: Table = Table { log: 0, entries };
        proof {
            lemma2_to64();
            assert(r@ =~= single_states(symbol));
        }
        r
    }

    fn place_rare(counts: &[i32], symbols: &mut Vec<u8>) -> (r: Option<usize>)
        requires
            counts.len() <= 256,
        ensures
            match rare(counts@, 0, old(symbols)@, old(symbols)@.len()) {
                None => r is None,
                Some((s, high)) => r == Some(high as usize) && final(symbols)@ == s && high
                    <= old(symbols)@.len() && s.len() == old(symbols)@.len(),
            },
    {
        let ghost whole = rare(counts@, 0, symbols@, symbols@.len());
        let mut high: usize = symbols.len();
        let mut i: usize = 0;
        while i < counts.len()
            invariant
                i <= counts.len() <= 256,
                high <= symbols@.len() == old(symbols)@.len(),
                whole == rare(counts@, 0, old(symbols)@, old(symbols)@.len()),
                whole == rare(counts@, i as int, symbols@, high as nat),
            decreases counts.len() - i,
        {
            if counts[i] == -1 {
                if high == 0 {
                    return None;
                }
                high = high - 1;
                symbols.set(high, i as u8);
            }
            i = i + 1;
        }
        Some(high)
    }

    fn settle_at(from: usize, size: usize, high: usize) -> (r: Option<usize>)
        requires
            32 <= size <= 512,
            from < size,
        ensures
            match settle(from as nat, size as nat, high as nat, size as nat) {
                None => r is None,
                Some(p) => r == Some(p as usize) && p < size,
            },
    {
        let mut at: usize = from;
        let mut tries: usize = size;
        while at >= high
            invariant
                32 <= size <= 512,
                at < size,
                tries <= size,
                settle(from as nat, size as nat, high as nat, size as nat) == settle(
                    at as nat,
                    size as nat,
                    high as nat,
                    tries as nat,
                ),
            decreases tries,
        {
            if tries == 0 {
                return None;
            }
            at = (at + (size / 2 + size / 8 + 3)) % size;
            tries = tries - 1;
        }
        Some(at)
    }

    fn place_spread(counts: &[i32], symbols: &mut Vec<u8>, high: usize) -> (r: Option<usize>)
        requires
            counts.len() <= 256,
            32 <= old(symbols)@.len() <= 512,
        ensures
            match spread(counts@, 0, wanted(counts@, 0), 0, old(symbols)@, high as nat) {
                None => r is None,
                Some((s, at)) => r == Some(at as usize) && final(symbols)@ == s && at < s.len()
                    && s.len() == old(symbols)@.len(),
            },
    {
        let ghost whole = spread(counts@, 0, wanted(counts@, 0), 0, symbols@, high as nat);
        let size: usize = symbols.len();
        let mut at: usize = 0;
        let mut i: usize = 0;
        while i < counts.len()
            invariant
                i <= counts.len() <= 256,
                32 <= size <= 512,
                at < size,
                symbols@.len() == size == old(symbols)@.len(),
                whole == spread(counts@, 0, wanted(counts@, 0), 0, old(symbols)@, high as nat),
                whole == spread(
                    counts@,
                    i as int,
                    wanted(counts@, i as int),
                    at as nat,
                    symbols@,
                    high as nat,
                ),
            decreases counts.len() - i,
        {
            let mut left: i32 = if counts[i] > 0 {
                counts[i]
            } else {
                0
            };
            while left > 0
                invariant
                    i < counts.len() <= 256,
                    32 <= size <= 512,
                    at < size,
                    left >= 0,
                    symbols@.len() == size == old(symbols)@.len(),
                    whole == spread(counts@, 0, wanted(counts@, 0), 0, old(symbols)@, high as nat),
                    whole == spread(
                        counts@,
                        i as int,
                        left as nat,
                        at as nat,
                        symbols@,
                        high as nat,
                    ),
                decreases left,
            {
                let next: usize = match Self::settle_at(
                    (at + (size / 2 + size / 8 + 3)) % size,
                    size,
                    high,
                ) {
                    None => {
                        return None;
                    },
                    Some(p) => p,
                };
                symbols.set(at, i as u8);
                at = next;
                left = left - 1;
            }
            i = i + 1;
        }
        Some(at)
    }

    /// The table for a distribution: symbol `i` takes `counts[i]` states, and
    /// one from the rare end where that is -1.
    pub fn from_counts(counts: &[i32], log: u32) -> (r: Result<Self>)
        requires
            counts.len() <= 256,
        ensures
            match built(counts@, log as nat) {
                Ok(t) => r matches Ok(x) && x@ == t && t.valid(),
                Err(e) => r matches Err(f) && f == e,
            },
    {
        if log < MIN_TABLE_LOG || log > MAX_TABLE_LOG {
            return Err(Error::Malformed);
        }
        let size: usize = power_of_two_small(log);
        let mut symbols: Vec<u8> = vec![0u8; size];
        assert(symbols@ =~= Seq::new(size as nat, |i: int| 0u8));
        let high: usize = match Self::place_rare(counts, &mut symbols) {
            None => {
                return Err(Error::Malformed);
            },
            Some(h) => h,
        };
        match Self::place_spread(counts, &mut symbols, high) {
            None => {
                return Err(Error::Malformed);
            },
            Some(at) => {
                if at != 0 {
                    return Err(Error::Malformed);
                }
            },
        }
        assert(placed(counts@, size as nat) == Some(symbols@));
        let mut next: Vec<u32> = Vec::new();
        let mut i: usize = 0;
        while i < counts.len()
            invariant
                i <= counts.len() <= 256,
                next@.len() == i,
                forall|k: int| 0 <= k < i ==> #[trigger] next@[k] == share_at(counts@, k),
            decreases counts.len() - i,
        {
            let c: i32 = counts[i];
            next.push(
                if c == -1 {
                    1
                } else if c > 0 {
                    c as u32
                } else {
                    0
                },
            );
            i = i + 1;
        }
        let mut entries: Vec<Entry> = Vec::new();
        let mut j: usize = 0;
        while j < size
            invariant
                j <= size == symbols@.len(),
                size == pow2(log as nat),
                32 <= size <= 512,
                MIN_TABLE_LOG <= log <= MAX_TABLE_LOG,
                next@.len() == counts@.len() <= 256,
                entries@.len() == j,
                placed(counts@, size as nat) == Some(symbols@),
                forall|k: int|
                    0 <= k < next@.len() ==> #[trigger] next@[k] == share_at(counts@, k) + ranked(
                        symbols@,
                        k as u8,
                        j as int,
                    ),
                forall|k: int|
                    0 <= k < next@.len() ==> #[trigger] next@[k] <= 0x7fff_ffff + j,
                forall|k: int|
                    0 <= k < j ==> #[trigger] entry_at(counts@, symbols@, log as nat, k) == Some(
                        entries@[k],
                    ),
            decreases size - j,
        {
            let symbol: u8 = symbols[j];
            let ghost e = entry_at(counts@, symbols@, log as nat, j as int);
            if symbol as usize >= next.len() {
                proof {
                    lemma_unranked(counts@, symbols@, log as nat, j as int);
                }
                return Err(Error::Malformed);
            }
            let n: u32 = next[symbol as usize];
            assert(n == slot(counts@, symbols@, j as int));
            next.set(symbol as usize, n + 1);
            let l: u32 = floor_log2(n);
            if n == 0 || l > log {
                assert(e is None);
                return Err(Error::Malformed);
            }
            let w: u32 = log - l;
            proof {
                lemma_entry(counts@, symbols@, log as nat, j as int);
                lemma2_to64();
            }
            let scaled: u64 = n as u64 * power_of_two(w);
            let entry: Entry = Entry {
                symbol,
                bits: w as u8,
                base: (scaled - size as u64) as u16,
            };
            assert(e == Some(entry));
            entries.push(entry);
            j = j + 1;
        }
        let r: Table = Table { log, entries };
        proof {
            let t = built(counts@, log as nat);
            assert(t is Ok);
            assert(r@ =~= t->Ok_0);
            lemma_built_valid(counts@, log as nat);
        }
        Ok(r)
    }

    /// Read a table description. It gives the table and how many bytes the
    /// description takes.
    #[verifier::rlimit(40)]
    pub fn parse(data: &[u8], max_log: u32, max_symbol: usize) -> (r: Result<(Self, usize)>)
        requires
            max_symbol <= 255,
        ensures
            match parsed(data@, max_log as nat, max_symbol as nat) {
                Ok((t, n)) => if n <= usize::MAX {
                    r matches Ok(x) && x.0@ == t && x.1 == n && t.valid()
                } else {
                    r == Err::<(Self, usize), Error>(Error::Malformed)
                },
                Err(e) => r matches Err(f) && f == e,
            },
    {
        let mut reader: ForwardBits = ForwardBits::new(data);
        proof {
            lemma2_to64();
        }
        let log: u32 = match reader.bits(4) {
            Err(e) => {
                return Err(e);
            },
            Ok(v) => v + 5,
        };
        if log > max_log {
            return Err(Error::Malformed);
        }
        proof {
            if log < 20 {
                lemma_pow2_strictly_increases(log as nat, 20);
            }
            lemma_pow2_strictly_increases(4, log as nat);
        }
        let mut remaining: u32 = power_of_two(log) as u32 + 1;
        let mut counts: Vec<i32> = Vec::new();
        let mut zero: bool = false;
        let ghost whole = counts_from(
            data@,
            4,
            Seq::empty(),
            remaining as nat,
            false,
            max_symbol as nat,
        );
        assert(counts@ =~= Seq::<i32>::empty());
        while remaining > 1 && counts.len() <= max_symbol
            invariant
                max_symbol <= 255,
                log <= max_log,
                counts@.len() <= max_symbol + 1,
                1 <= remaining <= 0x10_0001,
                reader.data() == data@,
                reader.at() <= 8 * (data.len() + 2),
                log == bits::peek(data@, 0, 4) + 5,
                !runs_past(data@, 0, 4),
                whole == counts_from(
                    data@,
                    4,
                    Seq::empty(),
                    pow2(log as nat) + 1,
                    false,
                    max_symbol as nat,
                ),
                whole == counts_from(
                    data@,
                    reader.at(),
                    counts@,
                    remaining as nat,
                    zero,
                    max_symbol as nat,
                ),
            decreases
                    max_symbol + 1 - counts@.len(),
                    if zero {
                        1int
                    } else {
                        0
                    },
        {
            if zero {
                let ghost start = reader.at();
                let mut zeros: usize = 0;
                let mut more: bool = true;
                while more
                    invariant
                        reader.data() == data@,
                        reader.at() <= 8 * (data.len() + 2),
                        start <= 8 * (data.len() + 2),
                        zeros <= 300,
                        more ==> match absent(data@, reader.at()) {
                            Ok((n, q)) => absent(data@, start) matches Ok((m, p)) && p == q && (m
                                == zeros + n || m >= 256 && zeros >= 256),
                            Err(e) => absent(data@, start) == Err::<(nat, nat), Error>(e),
                        },
                        !more ==> (absent(data@, start) matches Ok((m, p)) && p == reader.at() && (m
                            == zeros || m >= 256 && zeros >= 256)),
                        !zero ==> false,
                        log <= max_log,
                        !runs_past(data@, 0, 4),
                        log == bits::peek(data@, 0, 4) + 5,
                        1 < remaining,
                        counts@.len() <= max_symbol,
                        whole == counts_from(
                            data@,
                            4,
                            Seq::empty(),
                            pow2(log as nat) + 1,
                            false,
                            max_symbol as nat,
                        ),
                        whole == counts_from(
                            data@,
                            start,
                            counts@,
                            remaining as nat,
                            zero,
                            max_symbol as nat,
                        ),
                    decreases 8 * (data.len() + 2) - reader.at() + if more {
                        1int
                    } else {
                        0
                    },
                {
                    proof {
                        lemma2_to64();
                    }
                    let pair: u32 = match reader.bits(2) {
                        Err(e) => {
                            return Err(e);
                        },
                        Ok(v) => v,
                    };
                    if zeros < 256 {
                        zeros = zeros + pair as usize;
                    }
                    more = pair == 3;
                }
                let ghost before = counts@;
                let ghost found = absent(data@, start)->Ok_0.0;
                let mut added: usize = 0;
                while added < zeros && counts.len() <= max_symbol
                    invariant
                        added <= zeros,
                        before.len() <= max_symbol <= 255,
                        counts@.len() <= max_symbol + 1,
                        counts@ =~= before + Seq::new(added as nat, |i: int| 0i32),
                    decreases zeros - added,
                {
                    counts.push(0);
                    added = added + 1;
                }
                assert(counts@ =~= with_zeros(before, found, (max_symbol + 1) as nat));
                zero = false;
            } else {
                proof {
                    lemma_count_value(data@, reader.at(), remaining as nat);
                    bits::lemma_log2(remaining as nat);
                }
                let w: u32 = floor_log2(remaining);
                proof {
                    lemma_pow2_unfold((w + 1) as nat);
                    lemma2_to64();
                    if w > 20 {
                        lemma_pow2_strictly_increases(20, w as nat);
                        if w > 21 {
                            lemma_pow2_strictly_increases(21, w as nat);
                        }
                    }
                }
                let threshold: u32 = power_of_two(w) as u32;
                let short: u32 = 2 * threshold - 1 - remaining;
                let low: u32 = match reader.peek(w) {
                    Err(e) => {
                        return Err(e);
                    },
                    Ok(v) => v,
                };
                let value: u32 = if low < short {
                    reader.skip(w);
                    low
                } else {
                    let wide: u32 = match reader.bits(w + 1) {
                        Err(e) => {
                            return Err(e);
                        },
                        Ok(v) => v,
                    };
                    if wide >= threshold {
                        wide - short
                    } else {
                        wide
                    }
                };
                let count: i32 = value as i32 - 1;
                if count == -1 {
                    remaining = remaining - 1;
                } else {
                    remaining = remaining - count as u32;
                }
                counts.push(count);
                zero = count == 0;
            }
        }
        if remaining != 1 {
            return Err(Error::Malformed);
        }
        let used: u128 = reader.consumed();
        match Table::from_counts(&counts, log) {
            Err(e) => Err(e),
            Ok(table) => {
                if used > usize::MAX as u128 {
                    return Err(Error::Malformed);
                }
                Ok((table, used as usize))
            },
        }
    }
}

/// The table of one state.
pub open spec fn single_states(symbol: u8) -> States {
    States { log: 0, entries: seq![Entry { symbol, bits: 0, base: 0 }] }
}

/// A state of a symbol that has no count makes no table.
proof fn lemma_unranked(counts: Seq<i32>, symbols: Seq<u8>, log: nat, j: int)
    requires
        0 <= j < symbols.len(),
        symbols[j] >= counts.len(),
        5 <= log <= 9,
        placed(counts, pow2(log)) == Some(symbols),
    ensures
        built(counts, log) == Err::<States, Error>(Error::Malformed),
{
    let k = lemma_first_of(symbols, symbols[j], j);
    assert(entry_at(counts, symbols, log, k) is None);
}

/// The first state of a symbol.
proof fn lemma_first_of(symbols: Seq<u8>, s: u8, j: int) -> (k: int)
    requires
        0 <= j < symbols.len(),
        symbols[j] == s,
    ensures
        0 <= k <= j,
        symbols[k] == s,
        ranked(symbols, s, k) == 0,
    decreases j,
{
    if ranked(symbols, s, j) == 0 {
        j
    } else {
        lemma_ranked_some(symbols, s, j);
        let m = choose|m: int| 0 <= m < j && symbols[m] == s;
        lemma_first_of(symbols, s, m)
    }
}

proof fn lemma_ranked_some(symbols: Seq<u8>, s: u8, n: int)
    requires
        n <= symbols.len(),
        ranked(symbols, s, n) > 0,
    ensures
        exists|m: int| 0 <= m < n && symbols[m] == s,
    decreases n,
{
    if n > 0 && symbols[n - 1] != s {
        lemma_ranked_some(symbols, s, n - 1);
    }
}

/// A table's size.
fn power_of_two_small(log: u32) -> (r: usize)
    requires
        5 <= log <= 9,
    ensures
        r == pow2(log as nat),
        32 <= r <= 512,
{
    proof {
        lemma2_to64();
        if log < 9 {
            lemma_pow2_strictly_increases(log as nat, 9);
        }
        if log > 5 {
            lemma_pow2_strictly_increases(5, log as nat);
        }
    }
    power_of_two(log) as usize
}

/// A place in a table, as the decoder holds it.
#[derive(Debug, Clone, Copy)]
pub struct State {
    value: usize,
}

/// The state that a stream starts from, and the stream behind it.
pub open spec fn first_state(t: States, data: Seq<u8>, b: stream::Back) -> (nat, stream::Back) {
    (stream::back_value(data, b, t.log), stream::back_after(b, t.log))
}

/// The state behind state `s`, and the stream behind that.
pub open spec fn next_state(t: States, s: nat, data: Seq<u8>, b: stream::Back) -> (
    nat,
    stream::Back,
) {
    let e = t.entries[s as int];
    (
        e.base as nat + stream::back_value(data, b, e.bits as nat),
        stream::back_after(b, e.bits as nat),
    )
}

impl State {
    /// The number of the state.
    pub closed spec fn at(&self) -> nat {
        self.value as nat
    }

    /// Take the first state from `bits`.
    pub fn new(table: &Table, bits: &mut BackwardBits<'_>) -> (r: Self)
        requires
            table@.valid(),
            old(bits).wf(),
        ensures
            final(bits).wf(),
            final(bits).data() == old(bits).data(),
            (r.at(), final(bits).back()) == first_state(
                table@,
                old(bits).data(),
                old(bits).back(),
            ),
            r.at() < table@.entries.len(),
    {
        proof {
            stream::lemma_back_bound(bits.data(), bits.back(), table.log as nat);
            lemma2_to64();
            if table.log < 9 {
                lemma_pow2_strictly_increases(table.log as nat, 9);
            }
        }
        State { value: bits.bits(table.log) as usize }
    }

    /// The symbol that the state stands for.
    pub fn symbol(&self, table: &Table) -> (r: u8)
        requires
            self.at() < table@.entries.len(),
        ensures
            r == table@.entries[self.at() as int].symbol,
    {
        table.entries[self.value].symbol
    }

    /// Go on to the next state.
    pub fn advance(&mut self, table: &Table, bits: &mut BackwardBits<'_>)
        requires
            table@.valid(),
            old(self).at() < table@.entries.len(),
            old(bits).wf(),
        ensures
            final(bits).wf(),
            final(bits).data() == old(bits).data(),
            (final(self).at(), final(bits).back()) == next_state(
                table@,
                old(self).at(),
                old(bits).data(),
                old(bits).back(),
            ),
            final(self).at() < table@.entries.len(),
    {
        let entry: Entry = table.entries[self.value];
        proof {
            let t = table@;
            assert(stays_inside(t.entries[self.value as int], t.entries.len()));
            stream::lemma_back_bound(bits.data(), bits.back(), entry.bits as nat);
            lemma2_to64();
            if t.log < 9 {
                lemma_pow2_strictly_increases(t.log, 9);
            }
            if entry.bits > 9 {
                lemma_pow2_strictly_increases(9, entry.bits as nat);
            }
        }
        let extra: usize = bits.bits(entry.bits as u32) as usize;
        self.value = entry.base as usize + extra;
    }
}

/// A decode table read the other way round.
///
/// FSE encodes a symbol run backwards: the state that follows a symbol is
/// already fixed, and the encoder picks the state that leads to it. Every
/// decode entry covers the successors `[base, base + 2^bits)`.
pub struct EncTable {
    table: Table,
    size: usize,
    leads: Vec<u16>,
}

const NO_STATE: u16 = 0xffff;

/// Whether a state stands for `symbol` and may be followed by `successor`.
pub open spec fn covers(e: Entry, symbol: u8, successor: int) -> bool {
    e.symbol == symbol && e.base <= successor < e.base + pow2(e.bits as nat)
}

/// The last state that stands for `symbol` and may be followed by
/// `successor`, among the first `n`.
pub open spec fn lead_of(entries: Seq<Entry>, symbol: u8, successor: int, n: int) -> Option<int>
    decreases n,
{
    if n <= 0 {
        None
    } else if covers(entries[n - 1], symbol, successor) {
        Some(n - 1)
    } else {
        lead_of(entries, symbol, successor, n - 1)
    }
}

pub proof fn lemma_lead_of(entries: Seq<Entry>, symbol: u8, successor: int, n: int)
    ensures
        lead_of(entries, symbol, successor, n) matches Some(k) ==> 0 <= k < n && covers(
            entries[k],
            symbol,
            successor,
        ),
    decreases n,
{
    if n > 0 {
        lemma_lead_of(entries, symbol, successor, n - 1);
    }
}

/// The first state that stands for `symbol`, from `from` on.
pub open spec fn first_of(entries: Seq<Entry>, symbol: u8, from: int) -> Option<int>
    decreases entries.len() - from,
{
    if from >= entries.len() {
        None
    } else if entries[from].symbol == symbol {
        Some(from)
    } else {
        first_of(entries, symbol, from + 1)
    }
}

/// What a cell of the lead table holds.
spec fn lead_cell(entries: Seq<Entry>, symbol: int, successor: int, n: int) -> u16 {
    match lead_of(entries, symbol as u8, successor, n) {
        Some(k) => k as u16,
        None => NO_STATE,
    }
}

/// The cell of a symbol and a successor.
spec fn cell(symbol: int, successor: int, size: int) -> int {
    symbol * size + successor
}

proof fn lemma_cell(a: int, x: int, b: int, y: int, size: int)
    requires
        0 <= x < size,
        0 <= y < size,
        cell(a, x, size) == cell(b, y, size),
    ensures
        a == b,
        x == y,
{
    vstd::arithmetic::div_mod::lemma_fundamental_div_mod_converse(
        cell(a, x, size),
        size,
        a,
        x,
    );
    vstd::arithmetic::div_mod::lemma_fundamental_div_mod_converse(
        cell(a, x, size),
        size,
        b,
        y,
    );
}

proof fn lemma_cell_bound(a: int, x: int, symbols: int, size: int)
    requires
        0 <= x < size,
        0 <= a < symbols,
    ensures
        0 <= cell(a, x, size) < symbols * size,
{
    assert(a * size >= 0 && a * size + size <= symbols * size) by (nonlinear_arith)
        requires
            0 <= a < symbols,
            size > 0,
    ;
}

impl EncTable {
    /// The states it writes.
    pub closed spec fn states(&self) -> States {
        self.table@
    }

    /// Every cell of the lead table holds its lead.
    pub closed spec fn wf(&self) -> bool {
        &&& self.size == self.table@.entries.len()
        &&& self.size <= 0xffff
        &&& exists|symbols: int| #[trigger]
            self.filled(symbols) && 1 <= symbols <= 256 && self.leads@.len() == symbols * self.size
        &&& forall|i: int|
            0 <= i < self.size ==> #[trigger] stays_inside(
                self.table@.entries[i],
                self.size as nat,
            ) && self.table@.entries[i].bits < 32
    }

    spec fn filled(&self, symbols: int) -> bool {
        &&& forall|s: int, t: int|
            0 <= s < symbols && 0 <= t < self.size ==> #[trigger] self.leads@[cell(
                s,
                t,
                self.size as int,
            )] == lead_cell(self.table@.entries, s, t, self.size as int)
        &&& forall|i: int|
            0 <= i < self.size ==> (#[trigger] self.table@.entries[i]).symbol < symbols
    }

    /// Turn a table round. It fails where a state leads outside the table.
    #[verifier::rlimit(60)]
    #[verifier::spinoff_prover]
    pub fn new(table: Table) -> (r: Result<Self>)
        requires
            table.entries.len() <= 0xffff,
            forall|i: int|
                0 <= i < table.entries.len() ==> (#[trigger] table.entries@[i]).bits < 32,
        ensures
            match r {
                Ok(x) => x.wf() && x.states() == table@ && forall|i: int|
                    0 <= i < table.entries.len() ==> #[trigger] stays_inside(
                        table.entries@[i],
                        table.entries.len() as nat,
                    ),
                Err(e) => e == Error::Malformed && exists|i: int|
                    0 <= i < table.entries.len() && !#[trigger] stays_inside(
                        table.entries@[i],
                        table.entries.len() as nat,
                    ),
            },
    {
        let size: usize = table.entries.len();
        let ghost entries = table.entries@;
        let mut highest: usize = 0;
        let mut i: usize = 0;
        while i < size
            invariant
                i <= size == table.entries@.len(),
                highest <= 255,
                forall|k: int| 0 <= k < i ==> (#[trigger] table.entries@[k]).symbol <= highest,
            decreases size - i,
        {
            let s: usize = table.entries[i].symbol as usize;
            if s > highest {
                highest = s;
            }
            i = i + 1;
        }
        let symbols: usize = highest + 1;
        assert(symbols * size <= 256 * 0xffff) by (nonlinear_arith)
            requires
                symbols <= 256,
                size <= 0xffff,
        ;
        let mut leads: Vec<u16> = vec![NO_STATE; symbols * size];
        let mut state: usize = 0;
        proof {
            assert forall|s: int, t: int| 0 <= s < symbols && 0 <= t < size implies leads@[cell(
                s,
                t,
                size as int,
            )] == #[trigger] lead_cell(entries, s, t, 0) by {
                lemma_cell_bound(s, t, symbols as int, size as int);
            }
        }
        while state < size
            invariant
                state <= size <= 0xffff,
                entries == table.entries@,
                size == entries.len(),
                symbols <= 256,
                leads@.len() == symbols * size,
                symbols * size <= 256 * 0xffff,
                forall|k: int| 0 <= k < size ==> (#[trigger] entries[k]).symbol < symbols,
                forall|k: int| 0 <= k < size ==> (#[trigger] entries[k]).bits < 32,
                forall|k: int|
                    0 <= k < state ==> #[trigger] stays_inside(entries[k], size as nat),
                forall|s: int, t: int|
                    0 <= s < symbols && 0 <= t < size ==> leads@[cell(s, t, size as int)]
                        == #[trigger] lead_cell(entries, s, t, state as int),
            decreases size - state,
        {
            let entry: Entry = table.entries[state];
            let base: usize = entry.base as usize;
            let span: u64 = power_of_two(entry.bits as u32);
            proof {
                lemma2_to64();
                lemma_pow2_strictly_increases(entry.bits as nat, 32);
            }
            if base as u64 + span > size as u64 {
                assert(!stays_inside(table.entries@[state as int], table.entries.len() as nat));
                return Err(Error::Malformed);
            }
            assert(stays_inside(entries[state as int], size as nat));
            let end: usize = base + span as usize;
            let ghost held = leads@;
            let mut successor: usize = base;
            assert((entry.symbol as int + 1) * size <= symbols * size) by (nonlinear_arith)
                requires
                    entry.symbol + 1 <= symbols,
            ;
            assert((entry.symbol as int + 1) * size == entry.symbol * size + size)
                by (nonlinear_arith);
            while successor < end
                invariant
                    base <= successor <= end <= size,
                    state < size <= 0xffff,
                    symbols <= 256,
                    entry.symbol < symbols,
                    leads@.len() == symbols * size,
                    symbols * size <= 256 * 0xffff,
                    entry.symbol * size + size <= symbols * size,
                    held.len() == leads@.len(),
                    forall|s: int, t: int|
                        0 <= s < symbols && 0 <= t < size ==> #[trigger] leads@[cell(
                            s,
                            t,
                            size as int,
                        )] == if s == entry.symbol && base <= t < successor {
                            state as u16
                        } else {
                            held[cell(s, t, size as int)]
                        },
                decreases end - successor,
            {
                let index: usize = entry.symbol as usize * size + successor;
                let ghost previous = leads@;
                leads.set(index, state as u16);
                proof {
                    assert forall|s: int, t: int|
                        0 <= s < symbols && 0 <= t < size implies #[trigger] leads@[cell(
                        s,
                        t,
                        size as int,
                    )] == if s == entry.symbol && base <= t < successor + 1 {
                        state as u16
                    } else {
                        held[cell(s, t, size as int)]
                    } by {
                        lemma_cell_bound(s, t, symbols as int, size as int);
                        assert(index == cell(entry.symbol as int, successor as int, size as int));
                        if cell(s, t, size as int) == index {
                            lemma_cell(
                                s,
                                t,
                                entry.symbol as int,
                                successor as int,
                                size as int,
                            );
                        } else {
                            assert(leads@[cell(s, t, size as int)] == previous[cell(
                                s,
                                t,
                                size as int,
                            )]);
                        }
                    }
                }
                successor = successor + 1;
            }
            proof {
                assert forall|s: int, t: int|
                    0 <= s < symbols && 0 <= t < size implies leads@[cell(s, t, size as int)]
                    == #[trigger] lead_cell(entries, s, t, state + 1) by {
                    assert(held[cell(s, t, size as int)] == lead_cell(
                        entries,
                        s,
                        t,
                        state as int,
                    ));
                }
            }
            state = state + 1;
        }
        let r: EncTable = EncTable { table, size, leads };
        assert(r.filled(symbols as int));
        Ok(r)
    }

    /// The logarithm of the number of states.
    pub fn log(&self) -> (r: u32)
        ensures
            r == self.states().log,
    {
        self.table.log
    }

    fn lead(&self, symbol: u8, successor: usize) -> (r: Result<usize>)
        requires
            self.wf(),
            successor < self.states().entries.len(),
        ensures
            match lead_of(
                self.states().entries,
                symbol,
                successor as int,
                self.states().entries.len() as int,
            ) {
                Some(k) => r matches Ok(v) && v == k,
                None => r == Err::<usize, Error>(Error::Malformed),
            },
    {
        let size: usize = self.size;
        let ghost entries = self.table@.entries;
        let ghost symbols = choose|symbols: int| #[trigger]
            self.filled(symbols) && 1 <= symbols <= 256 && self.leads@.len() == symbols * self.size;
        assert(symbol as usize * size <= 255 * 0xffff) by (nonlinear_arith)
            requires
                symbol <= 255,
                size <= 0xffff,
        ;
        let index: usize = symbol as usize * size + successor;
        proof {
            lemma_lead_of(entries, symbol, successor as int, size as int);
            if symbol < symbols {
                lemma_cell_bound(symbol as int, successor as int, symbols, size as int);
                assert(self.leads@[cell(symbol as int, successor as int, size as int)]
                    == lead_cell(entries, symbol as int, successor as int, size as int));
            } else {
                assert(symbol * size >= symbols * size) by (nonlinear_arith)
                    requires
                        symbol >= symbols,
                        size >= 0,
                ;
            }
        }
        if index >= self.leads.len() {
            return Err(Error::Malformed);
        }
        let state: u16 = self.leads[index];
        if state == NO_STATE {
            return Err(Error::Malformed);
        }
        Ok(state as usize)
    }

    /// The state to start from, which is the one the last symbol of the run
    /// decodes from. Any state carrying the symbol works, since the decoder
    /// only reads it back as a plain table index.
    pub fn start(&self, symbol: u8) -> (r: Result<usize>)
        requires
            self.wf(),
        ensures
            match first_of(self.states().entries, symbol, 0) {
                Some(k) => r matches Ok(v) && v == k && v < self.states().entries.len()
                    && self.states().entries[k].symbol == symbol,
                None => r == Err::<usize, Error>(Error::Malformed),
            },
    {
        let mut i: usize = 0;
        while i < self.size
            invariant
                self.wf(),
                i <= self.size,
                first_of(self.states().entries, symbol, 0) == first_of(
                    self.states().entries,
                    symbol,
                    i as int,
                ),
            decreases self.size - i,
        {
            if self.table.entries[i].symbol == symbol {
                return Ok(i);
            }
            i = i + 1;
        }
        Err(Error::Malformed)
    }

    /// Emit `symbol`, stepping the state back towards the start of the run.
    pub fn encode(&self, state: &mut usize, symbol: u8, out: &mut BitWriter) -> (r: Result<()>)
        requires
            self.wf(),
            *old(state) < self.states().entries.len(),
            old(out).wf(),
        ensures
            final(out).wf(),
            match lead_of(
                self.states().entries,
                symbol,
                *old(state) as int,
                self.states().entries.len() as int,
            ) {
                Some(k) => {
                    let e = self.states().entries[k];
                    &&& r is Ok
                    &&& *final(state) == k
                    &&& 0 <= k < self.states().entries.len()
                    &&& covers(e, symbol, *old(state) as int)
                    &&& final(out)@ == old(out)@ + bits::bits_of(
                        (*old(state) - e.base) as nat,
                        e.bits as nat,
                    )
                },
                None => r == Err::<(), Error>(Error::Malformed) && final(out)@ == old(out)@,
            },
    {
        proof {
            lemma_lead_of(
                self.table@.entries,
                symbol,
                *state as int,
                self.table@.entries.len() as int,
            );
        }
        let lead: usize = match self.lead(symbol, *state) {
            Err(e) => {
                return Err(e);
            },
            Ok(v) => v,
        };
        let entry: Entry = self.table.entries[lead];
        assert(stays_inside(self.table@.entries[lead as int], self.size as nat));
        out.add((*state - entry.base as usize) as u64, entry.bits as u32);
        *state = lead;
        Ok(())
    }

    /// Write the state the decoder starts from.
    pub fn flush(&self, state: usize, out: &mut BitWriter)
        requires
            self.states().log <= 56,
            old(out).wf(),
        ensures
            final(out).wf(),
            final(out)@ == old(out)@ + bits::bits_of(state as nat, self.states().log),
    {
        out.add(state as u64, self.table.log);
    }
}

/// What the encoder wrote to step back from state `s` takes the decoder from
/// the lead to `s` again.
pub proof fn lemma_step_back(t: States, symbol: u8, s: nat, data: Seq<u8>, w: Seq<bool>, b: stream::Back)
    requires
        t.valid(),
        s < t.entries.len(),
        lead_of(t.entries, symbol, s as int, t.entries.len() as int) is Some,
        ({
            let e = t.entries[lead_of(t.entries, symbol, s as int, t.entries.len() as int)->Some_0];
            &&& bits::has(data, 0, w + bits::bits_of((s - e.base) as nat, e.bits as nat))
            &&& b.left == w.len() + e.bits
        }),
    ensures
        ({
            let k = lead_of(t.entries, symbol, s as int, t.entries.len() as int)->Some_0;
            &&& 0 <= k < t.entries.len()
            &&& t.entries[k].symbol == symbol
            &&& next_state(t, k as nat, data, b) == (
                s,
                stream::Back { left: w.len(), over: b.over },
            )
            &&& bits::has(data, 0, w)
        }),
{
    lemma_lead_of(t.entries, symbol, s as int, t.entries.len() as int);
    let k = lead_of(t.entries, symbol, s as int, t.entries.len() as int)->Some_0;
    let e = t.entries[k];
    stream::lemma_back(data, w, (s - e.base) as nat, e.bits as nat, b);
}

} // verus!
