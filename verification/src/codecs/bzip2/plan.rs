//! What the encoder makes of its input.
use crate::codecs::bzip2::bitio;
use crate::codecs::bzip2::bwt;
use crate::codecs::bzip2::crc;
use crate::codecs::bzip2::pack;
use crate::codecs::bzip2::syntax;
use crate::codecs::lengths;
use vstd::prelude::*;

verus! {

/// Which bytes a last column uses.
pub open spec fn present_in(last: Seq<u8>) -> Seq<bool> {
    Seq::new(256, |b: int| last.contains(b as u8))
}

/// Where a byte stands first in a list, from place `i` on.
pub open spec fn place_from(list: Seq<u8>, byte: u8, i: int) -> int
    decreases list.len() - i,
{
    if i >= list.len() || list[i] == byte {
        i
    } else {
        place_from(list, byte, i + 1)
    }
}

/// The symbols for the bytes `rest`: the list stands as it is, and `zeros`
/// bytes that were its first are not written yet.
pub open spec fn symbols_from(list: Seq<u8>, zeros: nat, rest: Seq<u8>) -> Seq<int>
    decreases rest.len(),
{
    if rest.len() == 0 {
        pack::run_digits(zeros).push(list.len() as int + 1)
    } else if list[0] == rest[0] {
        symbols_from(list, zeros + 1, rest.skip(1))
    } else {
        let k = place_from(list, rest[0], 0);
        pack::run_digits(zeros).push(k + 1) + symbols_from(
            syntax::front(list, k),
            0,
            rest.skip(1),
        )
    }
}

/// The symbols for a last column.
pub open spec fn symbols_of(last: Seq<u8>) -> Seq<int> {
    symbols_from(syntax::members(present_in(last), 0), 0, last)
}

/// How often a symbol occurs.
pub open spec fn count_of(symbols: Seq<int>, s: int) -> nat
    decreases symbols.len(),
{
    if symbols.len() == 0 {
        0
    } else {
        count_of(symbols.drop_last(), s) + if symbols.last() == s {
            1nat
        } else {
            0
        }
    }
}

/// A symbol occurs no more often than there are symbols.
pub proof fn lemma_count(symbols: Seq<int>, s: int)
    ensures
        count_of(symbols, s) <= symbols.len(),
    decreases symbols.len(),
{
    if symbols.len() > 0 {
        lemma_count(symbols.drop_last(), s);
    }
}

/// How often each symbol occurs.
pub open spec fn counts_of(symbols: Seq<int>, alpha: nat) -> Seq<u32> {
    Seq::new(alpha, |s: int| count_of(symbols, s) as u32)
}

/// How many codes that many symbols get.
pub open spec fn codes_for(symbols: nat) -> nat {
    if symbols < 200 {
        2
    } else if symbols < 600 {
        3
    } else if symbols < 1200 {
        4
    } else if symbols < 2400 {
        5
    } else {
        6
    }
}

/// How often any symbol occurs.
pub open spec fn total_of(freqs: Seq<u32>) -> int
    decreases freqs.len(),
{
    if freqs.len() == 0 {
        0
    } else {
        total_of(freqs.drop_last()) + freqs.last()
    }
}

/// Where the symbols from `start` on that occur `target` times together end,
/// and how often they do: one at least, if there is one.
pub open spec fn gather(freqs: Seq<u32>, start: int, end: int, got: int, target: int) -> (int, int)
    decreases freqs.len() - end,
{
    if end < freqs.len() && (got < target || end == start) {
        gather(freqs, start, end + 1, got + freqs[end], target)
    } else {
        (end, got)
    }
}

/// Costs that favour the symbols from `start` to `end`.
pub open spec fn seed(alpha: nat, start: int, end: int) -> Seq<u8> {
    Seq::new(
        alpha,
        |i: int|
            if start <= i < end {
                1u8
            } else {
                15u8
            },
    )
}

/// The first costs: each table favours its share of what remains.
pub open spec fn seeds_from(freqs: Seq<u32>, start: int, remaining: int, left: nat) -> Seq<Seq<u8>>
    decreases left,
{
    if left == 0 {
        Seq::empty()
    } else {
        let (end, got) = gather(freqs, start, start, 0, remaining / left as int);
        let rest = if remaining > got {
            remaining - got
        } else {
            0
        };
        seq![seed(freqs.len(), start, end)] + seeds_from(freqs, end, rest, (left - 1) as nat)
    }
}

/// What symbols cost with a table.
pub open spec fn cost_of(symbols: Seq<int>, table: Seq<u8>) -> int
    decreases symbols.len(),
{
    if symbols.len() == 0 {
        0
    } else {
        cost_of(symbols.drop_last(), table) + table[symbols.last()]
    }
}

/// The symbols of a group.
pub open spec fn group_of(symbols: Seq<int>, g: int) -> Seq<int> {
    symbols.subrange(
        50 * g,
        if symbols.len() - 50 * g < 50 {
            symbols.len() as int
        } else {
            50 * g + 50
        },
    )
}

/// The cheapest of the first `n` tables, the first of them if there are two.
pub open spec fn best_of(symbols: Seq<int>, tables: Seq<Seq<u8>>, n: int) -> int
    decreases n,
{
    if n <= 1 {
        0
    } else {
        let b = best_of(symbols, tables, n - 1);
        if cost_of(symbols, tables[n - 1]) < cost_of(symbols, tables[b]) {
            n - 1
        } else {
            b
        }
    }
}

/// How many groups symbols make.
pub open spec fn groups_of(symbols: Seq<int>) -> nat {
    (symbols.len() + 49) / 50
}

/// The cheapest table of each group.
pub open spec fn chosen(tables: Seq<Seq<u8>>, symbols: Seq<int>) -> Seq<int> {
    Seq::new(
        groups_of(symbols),
        |g: int| best_of(group_of(symbols, g), tables, tables.len() as int),
    )
}

/// How often a symbol occurs in those of the first `g` groups that use table
/// `t`.
pub open spec fn used_by(symbols: Seq<int>, selectors: Seq<int>, t: int, g: int, s: int) -> nat
    decreases g,
{
    if g <= 0 {
        0
    } else {
        used_by(symbols, selectors, t, g - 1, s) + if selectors[g - 1] == t {
            count_of(group_of(symbols, g - 1), s)
        } else {
            0
        }
    }
}

/// The code for symbols that occur that often, each once at least.
pub open spec fn code_for(freqs: Seq<u32>) -> Seq<u8> {
    lengths::lengths_for(
        Seq::new(
            freqs.len(),
            |i: int|
                if freqs[i] > 1 {
                    freqs[i]
                } else {
                    1u32
                },
        ),
        17,
    )
}

/// The code for what table `t` is used for.
pub open spec fn refitted(symbols: Seq<int>, selectors: Seq<int>, alpha: nat, t: int) -> Seq<u8> {
    code_for(
        Seq::new(
            alpha,
            |s: int| used_by(symbols, selectors, t, selectors.len() as int, s) as u32,
        ),
    )
}

/// The tables after some rounds: each time the groups choose, and the tables
/// are fitted to those that chose them.
pub open spec fn fitted(symbols: Seq<int>, alpha: nat, rounds: nat) -> Seq<Seq<u8>>
    decreases rounds,
{
    if rounds == 0 {
        let freqs = counts_of(symbols, alpha);
        seeds_from(freqs, 0, total_of(freqs), codes_for(symbols.len()))
    } else {
        let selectors = chosen(fitted(symbols, alpha, (rounds - 1) as nat), symbols);
        Seq::new(codes_for(symbols.len()), |t: int| refitted(symbols, selectors, alpha, t))
    }
}

/// What each group uses after some rounds.
pub open spec fn selected(symbols: Seq<int>, alpha: nat, rounds: nat) -> Seq<int> {
    chosen(fitted(symbols, alpha, (rounds - 1) as nat), symbols)
}

/// The bits for a block: its checksum, its last column and its row.
pub open spec fn column_bits(check: u32, last: Seq<u8>, origin: int) -> Seq<bool> {
    let symbols = symbols_of(last);
    let alpha = syntax::members(present_in(last), 0).len() + 2;
    pack::block_bits(
        check,
        origin as nat,
        present_in(last),
        fitted(symbols, alpha, 4),
        selected(symbols, alpha, 4),
        symbols,
    )
}

/// Some of the input and what its runs are packed into.
pub struct Piece {
    /// The bytes after packing.
    pub packed: Seq<u8>,
    /// The bytes before it.
    pub plain: Seq<u8>,
}

/// How long the run at `at` is, of which `n` bytes are known: 259 at most.
pub open spec fn run_at(d: Seq<u8>, at: int, n: int) -> int
    decreases 259 - n,
{
    if n < 259 && at + n < d.len() && d[at + n] == d[at] {
        run_at(d, at, n + 1)
    } else {
        n
    }
}

/// The blocks of `d` from `at` on: the first of them starts at `from` and
/// holds `packed` already. One that holds more than `most` less 5 bytes takes
/// no run more.
pub open spec fn cut(d: Seq<u8>, from: int, at: int, packed: Seq<u8>, most: int) -> Seq<Piece>
    decreases d.len() - at,
{
    if at >= d.len() {
        if packed.len() == 0 {
            Seq::empty()
        } else {
            seq![Piece { packed, plain: d.subrange(from, at) }]
        }
    } else {
        proof {
            lemma_run_least(d, at, 1);
        }
        let n = run_at(d, at, 1);
        let run = pack::packed_run(d[at], n as nat);
        if packed.len() + 5 > most {
            seq![Piece { packed, plain: d.subrange(from, at) }] + cut(d, at, at + n, run, most)
        } else {
            cut(d, from, at + n, packed + run, most)
        }
    }
}

/// How long a run is.
pub proof fn lemma_run_at(d: Seq<u8>, at: int, k: int, n: int)
    requires
        1 <= k <= n <= 259,
        0 <= at,
        at + n <= d.len(),
        forall|i: int| at + k <= i < at + n ==> #[trigger] d[i] == d[at],
    ensures
        run_at(d, at, k) >= n,
        n == 259 || at + n >= d.len() || d[at + n] != d[at] ==> run_at(d, at, k) == n,
    decreases 259 - k,
{
    if k < n {
        assert(d[at + k] == d[at]);
        lemma_run_at(d, at, k + 1, n);
    } else {
        lemma_run_least(d, at, k);
    }
}

/// A run is no shorter than what is known of it.
pub proof fn lemma_run_least(d: Seq<u8>, at: int, k: int)
    ensures
        run_at(d, at, k) >= k,
        at + k <= d.len() ==> at + run_at(d, at, k) <= d.len(),
    decreases 259 - k,
{
    if k < 259 {
        lemma_run_least(d, at, k + 1);
    }
}

/// Whether each block has its last column and its row.
pub open spec fn turned(pieces: Seq<Piece>, turns: Seq<(Seq<u8>, int)>) -> bool {
    &&& turns.len() == pieces.len()
    &&& forall|i: int|
        0 <= i < pieces.len() ==> bwt::transformed(
            (#[trigger] pieces[i]).packed,
            turns[i].0,
            turns[i].1,
        )
}

/// The bits for blocks.
pub open spec fn blocks_bits(pieces: Seq<Piece>, turns: Seq<(Seq<u8>, int)>) -> Seq<bool>
    decreases pieces.len(),
{
    if pieces.len() == 0 {
        Seq::empty()
    } else {
        blocks_bits(pieces.drop_last(), turns.drop_last()) + column_bits(
            crc::crc_of(pieces.last().plain),
            turns.last().0,
            turns.last().1,
        )
    }
}

/// The checksum over blocks.
pub open spec fn check_of(pieces: Seq<Piece>) -> u32
    decreases pieces.len(),
{
    if pieces.len() == 0 {
        0
    } else {
        crc::combined(check_of(pieces.drop_last()), crc::crc_of(pieces.last().plain))
    }
}

/// The blocks that `plain` is cut into.
pub open spec fn pieces_of(level: nat, plain: Seq<u8>) -> Seq<Piece> {
    cut(plain, 0, 0, Seq::empty(), level * 100_000 - 19)
}

/// Whether `data` is what the encoder makes of `plain` for a level: a header,
/// the blocks, the end, and zero bits up to a whole byte.
pub open spec fn is_made(data: Seq<u8>, level: nat, plain: Seq<u8>) -> bool {
    let pieces = pieces_of(level, plain);
    exists|turns: Seq<(Seq<u8>, int)>| #[trigger]
        turned(pieces, turns) && bitio::bits_of(data) == padded(
            pack::header_bits(level) + blocks_bits(pieces, turns) + pack::end_bits(
                check_of(pieces),
            ),
        )
}

/// Bits and the zero bits up to a whole byte.
pub open spec fn padded(w: Seq<bool>) -> Seq<bool> {
    w + Seq::new(((8 - w.len() % 8) % 8) as nat, |i: int| false)
}

/// The encoder makes one thing of an input at a level.
pub proof fn lemma_made_once(x: Seq<u8>, y: Seq<u8>, level: nat, plain: Seq<u8>)
    requires
        is_made(x, level, plain),
        is_made(y, level, plain),
    ensures
        x == y,
{
    let pieces = pieces_of(level, plain);
    let end = pack::end_bits(check_of(pieces));
    let a = choose|a: Seq<(Seq<u8>, int)>| #[trigger]
        turned(pieces, a) && bitio::bits_of(x) == padded(
            pack::header_bits(level) + blocks_bits(pieces, a) + end,
        );
    let b = choose|b: Seq<(Seq<u8>, int)>| #[trigger]
        turned(pieces, b) && bitio::bits_of(y) == padded(
            pack::header_bits(level) + blocks_bits(pieces, b) + end,
        );
    assert forall|i: int| 0 <= i < a.len() implies #[trigger] a[i] == b[i] by {
        let packed = pieces[i].packed;
        bwt::lemma_one_turn(packed, a[i].0, a[i].1, b[i].0, b[i].1);
    }
    assert(a =~= b);
    bitio::lemma_bits_len(x);
    bitio::lemma_bits_len(y);
    assert forall|i: int| 0 <= i < x.len() implies #[trigger] x[i] == y[i] by {
        bitio::lemma_byte_at(x, i);
        bitio::lemma_byte_at(y, i);
    }
    assert(x =~= y);
}

} // verus!
