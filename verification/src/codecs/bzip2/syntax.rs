//! What a bzip2 stream says.
use crate::codecs::bzip2::bitio;
use crate::codecs::bzip2::bwt;
use crate::codecs::bzip2::crc;
use crate::codecs::lengths;
use crate::utils::bits as words;
use crate::utils::error;
use crate::utils::error::{Error, Unsupported};
use crate::utils::sorting;
use vstd::prelude::*;

verus! {

/// What a block starts with: the digits of pi.
pub const BLOCK_MAGIC: u64 = 0x3141_5926_5359;

/// What a stream ends with: the digits of the square root of pi.
pub const STREAM_MAGIC: u64 = 0x1772_4538_5090;

/// How many symbols one selector serves.
pub const GROUP_SIZE: usize = 50;

/// The longest block.
pub const MAX_BLOCK: usize = 900_000;

/// Code lengths as sorting keys.
pub open spec fn lens_keys(lens: Seq<u8>) -> Seq<u32> {
    Seq::new(lens.len(), |i: int| lens[i] as u32)
}

/// The code of the first symbol of a length.
pub open spec fn first_code(lens: Seq<u8>, l: int) -> int {
    2 * lengths::kraft(lens, l - 1) as int
}

/// Both ways to count the codes of a length agree.
pub proof fn lemma_cnt_positions(lens: Seq<u8>, l: int)
    ensures
        lengths::cnt(lens, l) == sorting::positions(lens_keys(lens), l).len(),
    decreases lens.len(),
{
    if lens.len() > 0 {
        lemma_cnt_positions(lens.drop_last(), l);
        assert(lens_keys(lens).drop_last() =~= lens_keys(lens.drop_last()));
    }
}

/// The symbol whose code stands at `p`, its code being no shorter than `l`.
pub open spec fn symbol_from(b: Seq<bool>, p: int, lens: Seq<u8>, l: int) -> Option<(int, int)>
    decreases 21 - l,
{
    if l > 20 {
        None
    } else {
        match bitio::field(b, p, l as nat) {
            None => None,
            Some((v, q)) => if v < lengths::kraft(lens, l) {
                Some(
                    (sorting::positions(lens_keys(lens), l)[v - first_code(lens, l)], q),
                )
            } else {
                symbol_from(b, p, lens, l + 1)
            },
        }
    }
}

/// The symbol whose code stands at `p`, and where it ends.
pub open spec fn symbol(b: Seq<bool>, p: int, lens: Seq<u8>) -> Option<(int, int)> {
    symbol_from(b, p, lens, 1)
}

/// A list with one entry moved to its front.
pub open spec fn front<T>(list: Seq<T>, k: int) -> Seq<T> {
    seq![list[k]] + list.take(k) + list.skip(k + 1)
}

/// A move-to-front decoder between two symbols.
pub struct Mtf {
    /// The bytes, the last met first.
    pub list: Seq<u8>,
    /// The run gathered so far.
    pub run: nat,
    /// The value of the next digit of the run.
    pub place: nat,
    /// What was decoded.
    pub out: Seq<u8>,
}

/// What a symbol does to a move-to-front decoder.
pub enum Fed {
    /// There is more to come.
    More(Mtf),
    /// The block is complete.
    End(Seq<u8>),
    /// The symbol cannot stand there.
    Bad,
}

/// A decoder that has seen nothing.
pub open spec fn fresh(list: Seq<u8>) -> Mtf {
    Mtf { list, run: 0, place: 1, out: Seq::empty() }
}

/// Take a symbol.
pub open spec fn feed(m: Mtf, s: int, limit: nat) -> Fed {
    if s == 0 || s == 1 {
        if 2 * m.place > 2 * MAX_BLOCK {
            Fed::Bad
        } else {
            Fed::More(
                Mtf { run: (m.run + (s + 1) * m.place) as nat, place: 2 * m.place, ..m },
            )
        }
    } else if m.run > 0 && m.out.len() + m.run > limit {
        Fed::Bad
    } else {
        let out = m.out + crc::run_of(m.list[0], m.run);
        if s == m.list.len() + 1 {
            Fed::End(out)
        } else if s - 1 >= m.list.len() || out.len() >= limit {
            Fed::Bad
        } else {
            Fed::More(
                Mtf { list: front(m.list, s - 1), run: 0, place: 1, out: out.push(m.list[s - 1]) },
            )
        }
    }
}

/// The last column of a block from its symbols, the `k`th of them at `p`.
pub open spec fn body(
    b: Seq<bool>,
    p: int,
    tables: Seq<Seq<u8>>,
    selectors: Seq<int>,
    k: nat,
    m: Mtf,
    limit: nat,
) -> Option<(Seq<u8>, int)>
    decreases b.len() - p,
{
    let g = (k / 50) as int;
    if g >= selectors.len() {
        None
    } else {
        match symbol(b, p, tables[selectors[g]]) {
            None => None,
            Some((s, q)) => if q <= p || q > b.len() {
                None
            } else {
                match feed(m, s, limit) {
                    Fed::Bad => None,
                    Fed::End(out) => Some((out, q)),
                    Fed::More(n) => body(b, q, tables, selectors, k + 1, n, limit),
                }
            },
        }
    }
}

/// The numbers from `base` on whose bits are set.
pub open spec fn members(flags: Seq<bool>, base: int) -> Seq<u8>
    decreases flags.len(),
{
    if flags.len() == 0 {
        Seq::empty()
    } else {
        let rest = members(flags.drop_last(), base);
        if flags.last() {
            rest.push((base + flags.len() - 1) as u8)
        } else {
            rest
        }
    }
}

/// The bytes that a block uses, from group `g` on.
pub open spec fn chart(b: Seq<bool>, flags: Seq<bool>, p: int, g: int) -> Option<(Seq<u8>, int)>
    decreases 16 - g,
{
    if g >= 16 {
        Some((Seq::empty(), p))
    } else if !flags[g] {
        chart(b, flags, p, g + 1)
    } else if p + 16 > b.len() {
        None
    } else {
        match chart(b, flags, p + 16, g + 1) {
            None => None,
            Some((rest, q)) => Some((members(b.subrange(p, p + 16), 16 * g) + rest, q)),
        }
    }
}

/// The bytes that a block uses.
pub open spec fn symbol_map(b: Seq<bool>, p: int) -> Option<(Seq<u8>, int)> {
    if p + 16 > b.len() {
        None
    } else {
        match chart(b, b.subrange(p, p + 16), p + 16, 0) {
            None => None,
            Some((map, q)) => if map.len() == 0 {
                None
            } else {
                Some((map, q))
            },
        }
    }
}

/// A number below `count` in unary, `j` of it read.
pub open spec fn unary(b: Seq<bool>, p: int, j: int, count: int) -> Option<(int, int)>
    decreases b.len() - p,
{
    if p < 0 || p >= b.len() {
        None
    } else if !b[p] {
        Some((j, p + 1))
    } else if j + 1 >= count {
        None
    } else {
        unary(b, p + 1, j + 1, count)
    }
}

/// The tables that `n` groups use, the tables in the order last used.
pub open spec fn picks(b: Seq<bool>, p: int, order: Seq<int>, n: nat) -> Option<(Seq<int>, int)>
    decreases n,
{
    if n == 0 {
        Some((Seq::empty(), p))
    } else {
        match unary(b, p, 0, order.len() as int) {
            None => None,
            Some((j, q)) => match picks(b, q, front(order, j), (n - 1) as nat) {
                None => None,
                Some((rest, z)) => Some((seq![order[j]] + rest, z)),
            },
        }
    }
}

/// A code length, starting from the one before.
pub open spec fn length_at(b: Seq<bool>, p: int, len: int) -> Option<(int, int)>
    decreases b.len() - p,
{
    if !(1 <= len <= 20) || p < 0 || p >= b.len() {
        None
    } else if !b[p] {
        Some((len, p + 1))
    } else if p + 1 >= b.len() {
        None
    } else {
        length_at(
            b,
            p + 2,
            if b[p + 1] {
                len - 1
            } else {
                len + 1
            },
        )
    }
}

/// `n` code lengths, each from the one before.
pub open spec fn lengths_at(b: Seq<bool>, p: int, len: int, n: nat) -> Option<(Seq<u8>, int)>
    decreases n,
{
    if n == 0 {
        Some((Seq::empty(), p))
    } else {
        match length_at(b, p, len) {
            None => None,
            Some((l, q)) => match lengths_at(b, q, l, (n - 1) as nat) {
                None => None,
                Some((rest, z)) => Some((seq![l as u8] + rest, z)),
            },
        }
    }
}

/// `count` tables of `n` code lengths.
pub open spec fn tables_at(b: Seq<bool>, p: int, n: nat, count: nat) -> Option<
    (Seq<Seq<u8>>, int),
>
    decreases count,
{
    if count == 0 {
        Some((Seq::empty(), p))
    } else {
        match bitio::field(b, p, 5) {
            None => None,
            Some((len, q)) => match lengths_at(b, q, len as int, n) {
                None => None,
                Some((table, z)) => match tables_at(b, z, n, (count - 1) as nat) {
                    None => None,
                    Some((rest, y)) => Some((seq![table] + rest, y)),
                },
            },
        }
    }
}

/// The numbers below `n`.
pub open spec fn upto(n: nat) -> Seq<int> {
    Seq::new(n, |i: int| i)
}

/// The code tables of a block, and which group uses which.
pub open spec fn codes(b: Seq<bool>, p: int, n: nat) -> Option<(Seq<Seq<u8>>, Seq<int>, int)> {
    match bitio::field(b, p, 3) {
        None => None,
        Some((count, q)) => if !(2 <= count <= 6) {
            None
        } else {
            match bitio::field(b, q, 15) {
                None => None,
                Some((groups, z)) => if groups == 0 {
                    None
                } else {
                    match picks(b, z, upto(count), groups) {
                        None => None,
                        Some((selectors, y)) => match tables_at(b, y, n, count) {
                            None => None,
                            Some((tables, x)) => Some((tables, selectors, x)),
                        },
                    }
                },
            }
        },
    }
}

/// How many bytes at the start are equal, up to four.
pub open spec fn lead(s: Seq<u8>) -> int {
    if s.len() >= 2 && s[1] == s[0] {
        if s.len() >= 3 && s[2] == s[0] {
            if s.len() >= 4 && s[3] == s[0] {
                4
            } else {
                3
            }
        } else {
            2
        }
    } else {
        1
    }
}

/// Four equal bytes are followed by how many more there are.
pub open spec fn unpacked(s: Seq<u8>) -> Option<Seq<u8>>
    decreases s.len(),
{
    if s.len() == 0 {
        Some(Seq::empty())
    } else if lead(s) < 4 {
        match unpacked(s.skip(lead(s))) {
            None => None,
            Some(rest) => Some(s.take(lead(s)) + rest),
        }
    } else if s.len() < 5 {
        None
    } else {
        match unpacked(s.skip(5)) {
            None => None,
            Some(rest) => Some(crc::run_of(s[0], 4 + s[4] as nat) + rest),
        }
    }
}

/// The last column of a block whose map of bytes stands at `p`.
pub open spec fn column(b: Seq<bool>, p: int, limit: nat) -> Option<(Seq<u8>, int)> {
    match symbol_map(b, p) {
        None => None,
        Some((map, q)) => match codes(b, q, map.len() + 2) {
            None => None,
            Some((tables, selectors, z)) => body(
                b,
                z,
                tables,
                selectors,
                0,
                fresh(map),
                limit,
            ),
        },
    }
}

/// A block after its marker: its bytes, its checksum, and where it ends.
#[verifier::opaque]
pub open spec fn block(b: Seq<bool>, p: int, limit: nat) -> Result<(Seq<u8>, u32, int), Error> {
    if p + 33 > b.len() {
        Err(Error::Malformed)
    } else if b[p + 32] {
        Err(Error::Unsupported(Unsupported::Other))
    } else if p + 57 > b.len() {
        Err(Error::Malformed)
    } else {
        let check = bitio::value(b.subrange(p, p + 32)) as u32;
        let origin = bitio::value(b.subrange(p + 33, p + 57)) as int;
        match column(b, p + 57, limit) {
            None => Err(Error::Malformed),
            Some((last, q)) => if origin >= last.len() {
                Err(Error::Malformed)
            } else {
                match unpacked(bwt::restored(last, origin)) {
                    None => Err(Error::Malformed),
                    Some(out) => if crc::crc_of(out) != check {
                        Err(Error::Malformed)
                    } else {
                        Ok((out, check, q))
                    },
                }
            },
        }
    }
}

/// The limit that a stream header gives for blocks.
pub open spec fn header(b: Seq<bool>, p: int) -> Option<(nat, int)> {
    match bitio::field(b, p, 32) {
        None => None,
        Some((v, q)) => if v / 256 == 0x425A68 && 0x31 <= v % 256 <= 0x39 {
            Some(((v % 256 - 0x30) as nat * 100_000, q))
        } else {
            None
        },
    }
}

/// Where the next byte that is not zero stands.
pub open spec fn next_start(b: Seq<bool>, p: int) -> Option<int>
    decreases b.len() - p,
{
    match bitio::field(b, p, 8) {
        None => None,
        Some((v, q)) => if v != 0 {
            Some(p)
        } else {
            next_start(b, q)
        },
    }
}

/// What blocks from `p` on hold, and streams after them.
pub open spec fn run(b: Seq<bool>, p: int, limit: nat, check: u32) -> Result<Seq<u8>, Error>
    decreases b.len() - p,
{
    match bitio::field(b, p, 48) {
        None => Err(Error::Malformed),
        Some((magic, q)) => if magic == STREAM_MAGIC {
            match bitio::field(b, q, 32) {
                None => Err(Error::Malformed),
                Some((declared, z)) => if declared != check {
                    Err(Error::Malformed)
                } else {
                    match next_start(b, words::align8(z)) {
                        None => Ok(Seq::empty()),
                        Some(y) => match header(b, y) {
                            None => Err(Error::Malformed),
                            Some((next, x)) => if x <= p || x > b.len() {
                                Err(Error::Malformed)
                            } else {
                                run(b, x, next, 0)
                            },
                        },
                    }
                },
            }
        } else if magic != BLOCK_MAGIC {
            Err(Error::Malformed)
        } else {
            match block(b, q, limit) {
                Err(e) => Err(e),
                Ok((out, found, z)) => if z <= p || z > b.len() {
                    Err(Error::Malformed)
                } else {
                    error::joined(out, run(b, z, limit, crc::combined(check, found)))
                },
            }
        },
    }
}

/// What bzip2 data decodes to.
pub open spec fn decoded(data: Seq<u8>) -> Result<Seq<u8>, Error> {
    let b = bitio::bits_of(data);
    match header(b, 0) {
        None => Err(Error::Malformed),
        Some((limit, q)) => run(b, q, limit, 0),
    }
}

/// What blocks from `p` on hold, and streams after them, up to the end or up
/// to the first fault.
pub open spec fn held_from(b: Seq<bool>, p: int, limit: nat, check: u32) -> Seq<u8>
    decreases b.len() - p,
{
    match bitio::field(b, p, 48) {
        None => Seq::empty(),
        Some((magic, q)) => if magic == STREAM_MAGIC {
            match bitio::field(b, q, 32) {
                None => Seq::empty(),
                Some((declared, z)) => if declared != check {
                    Seq::empty()
                } else {
                    match next_start(b, words::align8(z)) {
                        None => Seq::empty(),
                        Some(y) => match header(b, y) {
                            None => Seq::empty(),
                            Some((next, x)) => if x <= p || x > b.len() {
                                Seq::empty()
                            } else {
                                held_from(b, x, next, 0)
                            },
                        },
                    }
                },
            }
        } else if magic != BLOCK_MAGIC {
            Seq::empty()
        } else {
            match block(b, q, limit) {
                Err(_) => Seq::empty(),
                Ok((out, found, z)) => if z <= p || z > b.len() {
                    Seq::empty()
                } else {
                    out + held_from(b, z, limit, crc::combined(check, found))
                },
            }
        },
    }
}

/// What bzip2 data holds up to its end or up to the first fault: the content
/// of the blocks before that.
pub open spec fn held(data: Seq<u8>) -> Seq<u8> {
    let b = bitio::bits_of(data);
    match header(b, 0) {
        None => Seq::empty(),
        Some((limit, q)) => held_from(b, q, limit, 0),
    }
}

} // verus!
