//! Implode: matches and literals in prefix codes.
use crate::codecs::legacy::bits;
use crate::codecs::legacy::bits::BitReader;
use crate::utils::bits as words;
use crate::utils::error::{Error, Result};
use crate::utils::lz;
use vstd::arithmetic::power2::*;
use vstd::prelude::*;

verus! {

/// Set where the dictionary is 8 KiB rather than 4 KiB.
pub const FLAG_LARGE_DICTIONARY: u16 = 2;

/// Set where literals have a prefix code of their own.
pub const FLAG_LITERAL_TREE: u16 = 4;

const MAX_CODE_BITS: u32 = 16;

/// `n` copies of a length.
pub open spec fn run_of(length: u8, n: nat) -> Seq<u8> {
    Seq::new(n, |i: int| length)
}

/// The code lengths in `count` bytes at `at`, no more than `symbols`.
pub open spec fn lengths_at(data: Seq<u8>, at: int, count: nat, symbols: nat) -> Option<Seq<u8>>
    decreases count,
{
    if count == 0 {
        Some(Seq::empty())
    } else {
        match lengths_at(data, at, (count - 1) as nat, symbols) {
            None => None,
            Some(s) => if at + count > data.len() {
                None
            } else {
                let b = data[at + count - 1];
                let more = s + run_of((b % 16 + 1) as u8, (b / 16 + 1) as nat);
                if more.len() > symbols {
                    None
                } else {
                    Some(more)
                }
            },
        }
    }
}

/// The code lengths at `at`, and where they end.
pub open spec fn tree_at(data: Seq<u8>, at: int, symbols: nat) -> Option<(Seq<u8>, int)> {
    if at >= data.len() {
        None
    } else {
        let count = (data[at] + 1) as nat;
        match lengths_at(data, at + 1, count, symbols) {
            None => None,
            Some(lens) => if lens.len() != symbols {
                None
            } else {
                Some((lens, at + 1 + count))
            },
        }
    }
}

/// How much of the code space the symbols before `n` take that come before
/// symbol `s` of length `l`: longer codes, and codes of the same length for
/// later symbols.
pub open spec fn space(lens: Seq<u8>, l: int, s: int, n: nat) -> nat
    decreases n,
{
    if n == 0 {
        0
    } else {
        let t = n - 1;
        space(lens, l, s, (n - 1) as nat) + if lens[t] > l || lens[t] == l && t > s {
            pow2((16 - lens[t]) as nat)
        } else {
            0
        }
    }
}

/// The code of a symbol.
pub open spec fn code_of(lens: Seq<u8>, s: int) -> nat {
    let l = lens[s] as nat;
    (space(lens, l as int, s, lens.len()) / pow2((16 - l) as nat)) % pow2(l)
}

/// The number that `n` bits from `p` on spell, the first one the most
/// significant.
pub open spec fn spelled(data: Seq<u8>, p: int, n: nat) -> nat
    decreases n,
{
    if n == 0 {
        0
    } else {
        2 * spelled(data, p, (n - 1) as nat) + words::peek(data, p + n - 1, 1)
    }
}

/// The first symbol from `s` on with this length and code.
pub open spec fn found(lens: Seq<u8>, length: nat, code: nat, s: int) -> Option<int>
    decreases lens.len() - s,
{
    if s < 0 || s >= lens.len() {
        None
    } else if lens[s] == length && code_of(lens, s) == code {
        Some(s)
    } else {
        found(lens, length, code, s + 1)
    }
}

/// The symbol at bit `p` and where it ends, given that the first `n` bits are
/// no code.
pub open spec fn symbol_from(data: Seq<u8>, p: int, lens: Seq<u8>, n: nat) -> Option<(int, int)>
    decreases 16 - n,
{
    if n >= 16 || p + n + 1 > 8 * data.len() {
        None
    } else {
        match found(lens, n + 1, spelled(data, p, n + 1), 0) {
            Some(s) => Some((s, p + n + 1)),
            None => symbol_from(data, p, lens, n + 1),
        }
    }
}

/// The symbol at bit `p`, and where it ends.
pub open spec fn symbol(data: Seq<u8>, p: int, lens: Seq<u8>) -> Option<(int, int)> {
    symbol_from(data, p, lens, 0)
}

/// The codes of an entry.
pub struct Trees {
    pub literals: Option<Seq<u8>>,
    pub lengths: Seq<u8>,
    pub distances: Seq<u8>,
    pub low: nat,
    pub least: nat,
}

/// What comes next.
pub enum Next {
    Literal(u8, int),
    Match(int, nat, int),
    Stop,
}

/// The next literal or match.
pub open spec fn next_at(data: Seq<u8>, p: int, t: Trees) -> Next {
    match bits::field(data, p, 1) {
        None => Next::Stop,
        Some((flag, q)) => if flag == 1 {
            match t.literals {
                Some(lens) => match symbol(data, q, lens) {
                    None => Next::Stop,
                    Some((s, r)) => Next::Literal(s as u8, r),
                },
                None => match bits::field(data, q, 8) {
                    None => Next::Stop,
                    Some((b, r)) => Next::Literal(b as u8, r),
                },
            }
        } else {
            match bits::field(data, q, t.low) {
                None => Next::Stop,
                Some((low, r)) => match symbol(data, r, t.distances) {
                    None => Next::Stop,
                    Some((high, u)) => match symbol(data, u, t.lengths) {
                        None => Next::Stop,
                        Some((len, v)) => {
                            let dist = high * pow2(t.low) + low + 1;
                            if len == 63 {
                                match bits::field(data, v, 8) {
                                    None => Next::Stop,
                                    Some((extra, w)) => Next::Match(
                                        dist,
                                        (len + extra + t.least) as nat,
                                        w,
                                    ),
                                }
                            } else {
                                Next::Match(dist, (len + t.least) as nat, v)
                            }
                        },
                    },
                },
            }
        },
    }
}

/// Everything from bit `p` on, after `out`.
pub open spec fn run(data: Seq<u8>, p: int, t: Trees, out: Seq<u8>) -> Option<Seq<u8>>
    decreases 8 * data.len() - p,
{
    match next_at(data, p, t) {
        Next::Stop => Some(out),
        Next::Literal(b, q) => if p < q <= 8 * data.len() {
            run(data, q, t, out.push(b))
        } else {
            None
        },
        Next::Match(dist, len, q) => if dist > out.len() {
            None
        } else if p < q <= 8 * data.len() {
            run(data, q, t, lz::copied(out, dist, len))
        } else {
            None
        },
    }
}

/// What an imploded entry holds.
pub open spec fn decoded(data: Seq<u8>, flags: u16) -> Option<Seq<u8>> {
    let large = (flags / 2) % 2 == 1;
    let tree = (flags / 4) % 2 == 1;
    let first = if tree {
        tree_at(data, 0, 256)
    } else {
        Some((Seq::empty(), 0))
    };
    match first {
        None => None,
        Some((literals, a)) => match tree_at(data, a, 64) {
            None => None,
            Some((lengths, b)) => match tree_at(data, b, 64) {
                None => None,
                Some((distances, c)) => run(
                    data.skip(c),
                    0,
                    Trees {
                        literals: if tree {
                            Some(literals)
                        } else {
                            None
                        },
                        lengths,
                        distances,
                        low: if large {
                            7
                        } else {
                            6
                        },
                        least: if tree {
                            3
                        } else {
                            2
                        },
                    },
                    Seq::empty(),
                ),
            },
        },
    }
}

proof fn lemma_lengths_short(data: Seq<u8>, at: int, a: nat, b: nat, symbols: nat)
    requires
        a <= b,
        lengths_at(data, at, a, symbols) is None,
    ensures
        lengths_at(data, at, b, symbols) is None,
    decreases b,
{
    if a < b {
        lemma_lengths_short(data, at, a, (b - 1) as nat, symbols);
    }
}

/// Taking one more symbol into account.
proof fn lemma_space_step(lens: Seq<u8>, l: int, s: int, n: nat)
    requires
        0 <= s < lens.len(),
        n <= lens.len(),
    ensures
        space(lens, l, s - 1, n) == space(lens, l, s, n) + if n > s && lens[s] == l {
            pow2((16 - l) as nat)
        } else {
            0
        },
    decreases n,
{
    if n > 0 {
        lemma_space_step(lens, l, s, (n - 1) as nat);
    }
}

/// All symbols of a length done is none of the next shorter length done.
proof fn lemma_space_shorter(lens: Seq<u8>, l: int, n: nat)
    requires
        n <= lens.len(),
    ensures
        space(lens, l, -1, n) == space(lens, l - 1, lens.len() - 1, n),
    decreases n,
{
    if n > 0 {
        lemma_space_shorter(lens, l, (n - 1) as nat);
    }
}

proof fn lemma_space_none(lens: Seq<u8>, n: nat)
    requires
        n <= lens.len(),
        forall|i: int| 0 <= i < lens.len() ==> #[trigger] lens[i] <= 16,
    ensures
        space(lens, 16, lens.len() - 1, n) == 0,
    decreases n,
{
    if n > 0 {
        lemma_space_none(lens, (n - 1) as nat);
    }
}

proof fn lemma_space_bound(lens: Seq<u8>, l: int, s: int, n: nat)
    requires
        n <= lens.len(),
        forall|i: int| 0 <= i < lens.len() ==> 1 <= #[trigger] lens[i] <= 16,
    ensures
        space(lens, l, s, n) <= 32768 * n,
    decreases n,
{
    if n > 0 {
        lemma_space_bound(lens, l, s, (n - 1) as nat);
        lemma2_to64();
        let e = (16 - lens[n - 1]) as nat;
        if e < 15 {
            lemma_pow2_strictly_increases(e, 15);
        }
    }
}

struct Tree {
    lengths: Vec<u8>,
    codes: Vec<u16>,
}

impl Tree {
    spec fn wf(&self) -> bool {
        &&& self.codes@.len() == self.lengths@.len()
        &&& self.lengths@.len() <= 256
        &&& forall|i: int| 0 <= i < self.lengths@.len() ==> 1 <= #[trigger] self.lengths@[i] <= 16
        &&& forall|i: int|
            0 <= i < self.lengths@.len() ==> #[trigger] self.codes@[i] == code_of(self.lengths@, i)
    }

    fn parse(data: &[u8], at: usize, symbols: usize) -> (r: Result<(Self, usize)>)
        requires
            at <= data.len(),
            symbols <= 256,
        ensures
            match tree_at(data@, at as int, symbols as nat) {
                Some((lens, end)) => r matches Ok((t, n)) && t.wf() && t.lengths@ == lens && n
                    == end && n <= data.len(),
                None => r matches Err(e) && e == Error::Malformed,
            },
    {
        if at >= data.len() {
            return Err(Error::Malformed);
        }
        let count: usize = data[at] as usize + 1;
        let mut lengths: Vec<u8> = Vec::with_capacity(symbols);
        let mut index: usize = 0;
        while index < count
            invariant
                at < data.len(),
                index <= count,
                count == data@[at as int] + 1,
                symbols <= 256,
                lengths@.len() <= symbols,
                index > 0 ==> at + 1 + index <= data.len(),
                lengths_at(data@, at + 1, index as nat, symbols as nat) == Some(lengths@),
                forall|i: int| 0 <= i < lengths@.len() ==> 1 <= #[trigger] lengths@[i] <= 16,
            decreases count - index,
        {
            if data.len() - at - 1 <= index {
                proof {
                    lemma_lengths_short(
                        data@,
                        at + 1,
                        (index + 1) as nat,
                        count as nat,
                        symbols as nat,
                    );
                }
                return Err(Error::Malformed);
            }
            let byte: u8 = data[at + 1 + index];
            let run: usize = (byte / 16) as usize + 1;
            let length: u8 = byte % 16 + 1;
            let ghost before = lengths@;
            let mut i: usize = 0;
            assert(lengths@ =~= before + run_of(length, 0));
            while i < run
                invariant
                    i <= run,
                    before.len() <= symbols <= 256,
                    lengths@.len() <= symbols,
                    lengths@ == before + run_of(length, i as nat),
                    1 <= length <= 16,
                    at < data.len(),
                    at + 1 + index < data.len(),
                    index < count,
                    count == data@[at as int] + 1,
                    byte == data@[at + 1 + index],
                    run == byte / 16 + 1,
                    length == byte % 16 + 1,
                    lengths_at(data@, at + 1, index as nat, symbols as nat) == Some(before),
                    forall|i: int| 0 <= i < lengths@.len() ==> 1 <= #[trigger] lengths@[i] <= 16,
                decreases run - i,
            {
                if lengths.len() == symbols {
                    proof {
                        lemma_lengths_short(
                            data@,
                            at + 1,
                            (index + 1) as nat,
                            count as nat,
                            symbols as nat,
                        );
                    }
                    return Err(Error::Malformed);
                }
                lengths.push(length);
                i = i + 1;
                assert(lengths@ =~= before + run_of(length, i as nat));
            }
            index = index + 1;
        }
        if lengths.len() != symbols {
            return Err(Error::Malformed);
        }
        Ok((Tree::from_lengths(lengths), at + 1 + count))
    }

    fn from_lengths(lengths: Vec<u8>) -> (r: Self)
        requires
            lengths@.len() <= 256,
            forall|i: int| 0 <= i < lengths@.len() ==> 1 <= #[trigger] lengths@[i] <= 16,
        ensures
            r.wf(),
            r.lengths@ == lengths@,
    {
        let n: usize = lengths.len();
        let ghost lens = lengths@;
        let mut codes: Vec<u16> = vec![0u16; n];
        let mut code: u32 = 0;
        let mut length: u32 = 16;
        proof {
            lemma_space_none(lens, lens.len());
        }
        while length > 0
            invariant
                length <= 16,
                n == lens.len(),
                n <= 256,
                lengths@ == lens,
                codes@.len() == n,
                forall|i: int| 0 <= i < lens.len() ==> 1 <= #[trigger] lens[i] <= 16,
                code == space(lens, length as int, n - 1, n as nat),
                forall|i: int|
                    0 <= i < n && lens[i] > length ==> #[trigger] codes@[i] == code_of(lens, i),
            decreases length,
        {
            let mut symbol: usize = n;
            while symbol > 0
                invariant
                    1 <= length <= 16,
                    symbol <= n,
                    n == lens.len(),
                    n <= 256,
                    lengths@ == lens,
                    codes@.len() == n,
                    forall|i: int| 0 <= i < lens.len() ==> 1 <= #[trigger] lens[i] <= 16,
                    code == space(lens, length as int, symbol - 1, n as nat),
                    forall|i: int|
                        0 <= i < n && (lens[i] > length || lens[i] == length && i >= symbol)
                            ==> #[trigger] codes@[i] == code_of(lens, i),
                decreases symbol,
            {
                symbol = symbol - 1;
                proof {
                    lemma_space_step(lens, length as int, symbol as int, n as nat);
                    lemma_space_bound(lens, length as int, symbol - 1, n as nat);
                    lemma2_to64();
                    lemma_pow2_pos((16 - length) as nat);
                    lemma_pow2_pos(length as nat);
                    if length < 16 {
                        lemma_pow2_strictly_increases(length as nat, 16);
                    }
                    if 16 - length < 15 {
                        lemma_pow2_strictly_increases((16 - length) as nat, 15);
                    }
                }
                if lengths[symbol] as u32 == length {
                    let unit: u64 = words::power_of_two(16 - length);
                    let span: u64 = words::power_of_two(length);
                    let top: u64 = (code as u64 / unit) % span;
                    proof {
                        vstd::arithmetic::div_mod::lemma_mod_bound(
                            (code as u64 / unit) as int,
                            span as int,
                        );
                    }
                    codes.set(symbol, top as u16);
                    code = code + unit as u32;
                }
            }
            proof {
                lemma_space_shorter(lens, length as int, n as nat);
            }
            length = length - 1;
        }
        Tree { lengths, codes }
    }

    fn decode(&self, source: &mut BitReader<'_>) -> (r: Option<usize>)
        requires
            self.wf(),
            old(source).wf(),
        ensures
            final(source).wf(),
            final(source).data() == old(source).data(),
            match symbol(old(source).data(), old(source).at(), self.lengths@) {
                Some((s, q)) => r == Some(s as usize) && 0 <= s < self.lengths@.len()
                    && final(source).at() == q && old(source).at() < q,
                None => r is None,
            },
    {
        let ghost data = source.data();
        let ghost p = source.at();
        let ghost lens = self.lengths@;
        let mut value: u32 = 0;
        let mut length: u32 = 0;
        proof {
            lemma2_to64();
        }
        while length < MAX_CODE_BITS
            invariant
                self.wf(),
                lens == self.lengths@,
                source.wf(),
                source.data() == data,
                data == old(source).data(),
                p == old(source).at(),
                length <= 16,
                source.at() == p + length,
                value == spelled(data, p, length as nat),
                value < 0x1_0000,
                length == 0 ==> value == 0,
                value < pow2(length as nat),
                symbol(data, p, lens) == symbol_from(data, p, lens, length as nat),
            decreases 16 - length,
        {
            let bit: u32 = match source.bit() {
                Some(b) => b,
                None => {
                    return None;
                },
            };
            proof {
                lemma_pow2_unfold((length + 1) as nat);
                lemma2_to64();
                if length + 1 < 16 {
                    lemma_pow2_strictly_increases((length + 1) as nat, 16);
                }
            }
            value = 2 * value + bit;
            length = length + 1;
            let mut s: usize = 0;
            let ghost target = found(lens, length as nat, value as nat, 0);
            while s < self.lengths.len()
                invariant
                    self.wf(),
                    lens == self.lengths@,
                    s <= lens.len(),
                    1 <= length <= 16,
                    value == spelled(data, p, length as nat),
                    p == old(source).at(),
                    data == old(source).data(),
                    source.wf(),
                    source.data() == data,
                    source.at() == p + length,
                    source.at() <= 8 * data.len(),
                    target == found(lens, length as nat, value as nat, 0),
                    target == found(lens, length as nat, value as nat, s as int),
                    symbol(data, p, lens) == symbol_from(data, p, lens, (length - 1) as nat),
                decreases lens.len() - s,
            {
                if self.lengths[s] as u32 == length && self.codes[s] as u32 == value {
                    return Some(s);
                }
                s = s + 1;
            }
        }
        None
    }
}

fn copy_match(out: &mut Vec<u8>, distance: usize, length: usize)
    requires
        1 <= distance <= old(out)@.len(),
    ensures
        final(out)@ == lz::copied(old(out)@, distance as int, length as nat),
{
    let mut left: usize = length;
    let ghost target = lz::copied(out@, distance as int, length as nat);
    while left > 0
        invariant
            1 <= distance <= out@.len(),
            target == lz::copied(out@, distance as int, left as nat),
        decreases left,
    {
        let byte: u8 = out[out.len() - distance];
        out.push(byte);
        left = left - 1;
    }
}

/// The literals or matches of an entry, decoded with its codes.
#[verifier::rlimit(60)]
#[verifier::spinoff_prover]
fn expand(
    data: &[u8],
    literals: &Option<Tree>,
    lengths: &Tree,
    distances: &Tree,
    low_bits: u32,
    min_length: usize,
) -> (r: Result<Vec<u8>>)
    requires
        literals matches Some(t) ==> t.wf() && t.lengths@.len() == 256,
        lengths.wf(),
        distances.wf(),
        lengths.lengths@.len() == 64,
        distances.lengths@.len() == 64,
        low_bits == 6 || low_bits == 7,
        min_length <= 3,
    ensures
        match run(
            data@,
            0,
            Trees {
                literals: match literals {
                    Some(t) => Some(t.lengths@),
                    None => None,
                },
                lengths: lengths.lengths@,
                distances: distances.lengths@,
                low: low_bits as nat,
                least: min_length as nat,
            },
            Seq::empty(),
        ) {
            Some(all) => r matches Ok(out) && out@ == all,
            None => r matches Err(e) && e == Error::Malformed,
        },
{
    let mut source: BitReader = BitReader::new(data);
    let mut out: Vec<u8> = Vec::new();
    let ghost t = Trees {
        literals: match literals {
            Some(t) => Some(t.lengths@),
            None => None,
        },
        lengths: lengths.lengths@,
        distances: distances.lengths@,
        low: low_bits as nat,
        least: min_length as nat,
    };
    let ghost target = run(data@, 0, t, Seq::empty());
    loop
        invariant
            source.wf(),
            source.data() == data@,
            literals matches Some(t) ==> t.wf() && t.lengths@.len() == 256,
            lengths.wf(),
            distances.wf(),
            lengths.lengths@.len() == 64,
            distances.lengths@.len() == 64,
            low_bits == 6 || low_bits == 7,
            min_length <= 3,
            t == (Trees {
                literals: match literals {
                    Some(t) => Some(t.lengths@),
                    None => None,
                },
                lengths: lengths.lengths@,
                distances: distances.lengths@,
                low: low_bits as nat,
                least: min_length as nat,
            }),
            target == run(data@, 0, t, Seq::empty()),
            target == run(data@, source.at(), t, out@),
        decreases 8 * data@.len() - source.at(),
    {
        proof {
            lemma2_to64();
            source.lemma_at();
        }
        let flag: u32 = match source.bit() {
            Some(b) => b,
            None => {
                return Ok(out);
            },
        };
        if flag == 1 {
            let byte: u8 = match literals {
                Some(tree) => match tree.decode(&mut source) {
                    Some(symbol) => symbol as u8,
                    None => {
                        return Ok(out);
                    },
                },
                None => match source.bits(8) {
                    Some(value) => value as u8,
                    None => {
                        return Ok(out);
                    },
                },
            };
            proof {
                source.lemma_at();
            }
            out.push(byte);
            continue ;
        }
        let low: usize = match source.bits(low_bits) {
            Some(v) => v as usize,
            None => {
                return Ok(out);
            },
        };
        let high: usize = match distances.decode(&mut source) {
            Some(v) => v,
            None => {
                return Ok(out);
            },
        };
        let mut length: usize = match lengths.decode(&mut source) {
            Some(v) => v,
            None => {
                return Ok(out);
            },
        };
        let unit: usize = if low_bits == 6 {
            64
        } else {
            128
        };
        assert(unit == pow2(low_bits as nat));
        assert(high * unit <= 63 * 128) by (nonlinear_arith)
            requires
                high <= 63,
                unit <= 128,
        ;
        let distance: usize = high * unit + low + 1;
        if length == 63 {
            match source.bits(8) {
                Some(extra) => {
                    length = length + extra as usize;
                },
                None => {
                    return Ok(out);
                },
            }
        }
        length = length + min_length;
        proof {
            source.lemma_at();
        }
        if distance > out.len() {
            return Err(Error::Malformed);
        }
        copy_match(&mut out, distance, length);
    }
}

/// The whole of an imploded entry, decoded.
pub fn decompress(data: &[u8], flags: u16, size_hint: usize) -> (r: Result<Vec<u8>>)
    ensures
        match decoded(data@, flags) {
            Some(all) => r matches Ok(out) && out@ == all,
            None => r matches Err(e) && e == Error::Malformed,
        },
{
    let large: bool = (flags / FLAG_LARGE_DICTIONARY) % 2 == 1;
    let literal_tree: bool = (flags / FLAG_LITERAL_TREE) % 2 == 1;
    let low_bits: u32 = if large {
        7
    } else {
        6
    };
    let min_length: usize = if literal_tree {
        3
    } else {
        2
    };
    let mut offset: usize = 0;
    let mut literals: Option<Tree> = None;
    if literal_tree {
        match Tree::parse(data, 0, 256) {
            Ok((tree, end)) => {
                literals = Some(tree);
                offset = end;
            },
            Err(e) => {
                return Err(e);
            },
        }
    }
    let (lengths, end) = match Tree::parse(data, offset, 64) {
        Ok(v) => v,
        Err(e) => {
            return Err(e);
        },
    };
    let (distances, end) = match Tree::parse(data, end, 64) {
        Ok(v) => v,
        Err(e) => {
            return Err(e);
        },
    };
    let rest: &[u8] = &data[end..data.len()];
    assert(rest@ =~= data@.skip(end as int));
    expand(rest, &literals, &lengths, &distances, low_bits, min_length)
}

} // verus!
