//! The Huffman codes of literals, which are described by weights.
use crate::codecs::lengths;
use crate::codecs::lengths::assign_lengths;
use crate::codecs::zstd::bits as stream;
use crate::codecs::zstd::bits::BackwardBits;
use crate::codecs::zstd::fse;
use crate::codecs::zstd::fse::State;
use crate::utils::bits;
use crate::utils::bits::{floor_log2, power_of_two, shift_right};
use crate::utils::error::{Error, Result};
use vstd::arithmetic::div_mod::*;
use vstd::arithmetic::mul::*;
use vstd::arithmetic::power2::*;
use vstd::prelude::*;

verus! {

pub const MAX_BITS: u32 = 11;

pub const SYMBOLS: usize = 256;

/// The most symbols a table can describe with plain four bit weights.
///
/// The description writes one weight per symbol below the last one, and its
/// header can only count to 128 of them. Beyond that the weights themselves
/// have to be FSE coded, which this encoder does not do, so a block whose
/// literals reach that far is stored raw instead.
pub const MAX_DIRECT_SYMBOLS: usize = 129;

/// What the bits at hand say: a symbol and how many of the bits it takes.
#[derive(Debug, Clone, Copy)]
pub struct Cell {
    pub symbol: u8,
    pub length: u8,
}

/// A code, as a cell for every string of `max_bits` bits.
#[verifier::ext_equal]
pub struct Code {
    pub cells: Seq<Cell>,
    pub max_bits: nat,
}

/// How many cells a weight takes.
pub open spec fn unit(w: u8) -> nat {
    if w == 0 {
        0
    } else {
        pow2((w - 1) as nat)
    }
}

/// How many cells all weights take.
pub open spec fn total(ws: Seq<u8>) -> nat
    decreases ws.len(),
{
    if ws.len() == 0 {
        0
    } else {
        total(ws.drop_last()) + unit(ws.last())
    }
}

/// Whether `n` is a power of two.
pub open spec fn is_power(n: nat) -> bool {
    n > 0 && n == pow2(bits::log2(n))
}

/// The cells of symbol `i` at weight `w`.
pub open spec fn run(i: int, w: nat, max_bits: nat) -> Seq<Cell> {
    Seq::new(
        pow2((w - 1) as nat),
        |k: int| Cell { symbol: (i % 256) as u8, length: (max_bits + 1 - w) as u8 },
    )
}

/// The cells by weight and then by symbol, from weight `w` and symbol `i` on.
pub open spec fn cells_from(ws: Seq<u8>, w: nat, i: int, max_bits: nat) -> Seq<Cell>
    decreases 13 - w, ws.len() - i,
{
    if w > 12 {
        Seq::empty()
    } else if i >= ws.len() {
        cells_from(ws, w + 1, 0, max_bits)
    } else if ws[i] == w {
        run(i, w, max_bits) + cells_from(ws, w, i + 1, max_bits)
    } else {
        cells_from(ws, w, i + 1, max_bits)
    }
}

/// The code that a full list of weights makes.
pub open spec fn completed(ws: Seq<u8>) -> Result<Code> {
    let t = total(ws);
    if !is_power(t) || bits::log2(t) > MAX_BITS {
        Err(Error::Malformed)
    } else {
        let max_bits = bits::log2(t);
        Ok(Code { cells: cells_from(ws, 1, 0, max_bits), max_bits })
    }
}

/// The code that weights make whose last one is left out: it is what is
/// missing to a power of two.
pub open spec fn weighted(ws: Seq<u8>) -> Result<Code> {
    let t = total(ws);
    if t == 0 {
        Err(Error::Malformed)
    } else {
        let gap = (pow2(bits::log2(t) + 1) - t) as nat;
        if !is_power(gap) {
            Err(Error::Malformed)
        } else {
            completed(ws.push((bits::log2(gap) + 1) as u8))
        }
    }
}

/// Weights in the plain form, four bits each.
pub open spec fn nibbles(data: Seq<u8>, count: nat) -> Seq<u8> {
    Seq::new(
        count,
        |i: int|
            if i % 2 == 0 {
                (data[1 + i / 2] / 16) as u8
            } else {
                (data[1 + i / 2] % 16) as u8
            },
    )
}

/// Weights out of two interleaved state sequences, up to the end of the
/// stream.
pub open spec fn weights_from(
    t: fse::States,
    data: Seq<u8>,
    even: nat,
    odd: nat,
    b: stream::Back,
    ws: Seq<u8>,
) -> Result<Seq<u8>>
    decreases 258 - ws.len(),
{
    let ws1 = ws.push(t.entries[even as int].symbol);
    let (even1, b1) = fse::next_state(t, even, data, b);
    if b1.over {
        Ok(ws1.push(t.entries[odd as int].symbol))
    } else {
        let ws2 = ws1.push(t.entries[odd as int].symbol);
        let (odd1, b2) = fse::next_state(t, odd, data, b1);
        if b2.over {
            Ok(ws2.push(t.entries[even1 as int].symbol))
        } else if ws2.len() > SYMBOLS {
            Err(Error::Malformed)
        } else {
            weights_from(t, data, even1, odd1, b2, ws2)
        }
    }
}

/// Weights that are FSE coded.
pub open spec fn coded_weights(body: Seq<u8>) -> Result<Seq<u8>> {
    match fse::parsed(body, fse::MAX_WEIGHT_TABLE_LOG as nat, 255) {
        Err(e) => Err(e),
        Ok((t, used)) => if used > body.len() {
            Err(Error::Malformed)
        } else {
            let data = body.skip(used as int);
            match stream::payload(data) {
                None => Err(Error::Malformed),
                Some(n) => {
                    let (even, b1) = fse::first_state(
                        t,
                        data,
                        stream::Back { left: n, over: false },
                    );
                    let (odd, b2) = fse::first_state(t, data, b1);
                    weights_from(t, data, even, odd, b2, Seq::empty())
                },
            }
        },
    }
}

/// What a code's description says: the code, and how many bytes it takes.
#[verifier::opaque]
pub open spec fn parsed(data: Seq<u8>) -> Result<(Code, nat)> {
    if data.len() == 0 {
        Err(Error::Malformed)
    } else if data[0] >= 128 {
        let count = (data[0] - 127) as nat;
        let bytes = (count + 1) / 2;
        if data.len() < 1 + bytes {
            Err(Error::Malformed)
        } else {
            match weighted(nibbles(data, count)) {
                Err(e) => Err(e),
                Ok(c) => Ok((c, 1 + bytes)),
            }
        }
    } else {
        let size = data[0] as nat;
        if data.len() < 1 + size {
            Err(Error::Malformed)
        } else {
            match coded_weights(data.subrange(1, 1 + size as int)) {
                Err(e) => Err(e),
                Ok(ws) => match weighted(ws) {
                    Err(e) => Err(e),
                    Ok(c) => Ok((c, 1 + size)),
                },
            }
        }
    }
}

/// One symbol off the end of a stream, and the stream before it.
pub open spec fn symbol_at(c: Code, data: Seq<u8>, b: stream::Back) -> (u8, stream::Back) {
    let cell = c.cells[stream::back_value(data, b, c.max_bits) as int];
    (cell.symbol, stream::back_after(b, cell.length as nat))
}

/// The first cell of a symbol, from cell `from` on.
pub open spec fn first_cell(cells: Seq<Cell>, s: u8, from: int) -> Option<int>
    decreases cells.len() - from,
{
    if from >= cells.len() {
        None
    } else if cells[from].symbol == s {
        Some(from)
    } else {
        first_cell(cells, s, from + 1)
    }
}

/// How many cells share the one at `a`.
pub open spec fn span(c: Code, a: int) -> nat {
    pow2((c.max_bits - c.cells[a].length) as nat)
}

/// A symbol's code: the bits that all its cells start with, and how many.
pub open spec fn code_of(c: Code, s: u8) -> (nat, nat) {
    match first_cell(c.cells, s, 0) {
        None => (0, 0),
        Some(a) => (a as nat / span(c, a), c.cells[a].length as nat),
    }
}

/// A description in the plain form.
pub open spec fn description(ws: Seq<u8>) -> Seq<u8> {
    let n = ws.len() - 1;
    seq![(127 + n) as u8] + Seq::new(
        ((n + 1) / 2) as nat,
        |k: int|
            (ws[2 * k] * 16 + if 2 * k + 1 < n {
                ws[2 * k + 1] as int
            } else {
                0
            }) as u8,
    )
}

/// Whether the cells that start with the code of cell `a` are all alike.
pub open spec fn same_cells(c: Code, a: int) -> bool {
    let n = span(c, a);
    let first = a / n as int * n;
    &&& c.cells[a].length <= c.max_bits
    &&& forall|k: int| first <= k < first + n ==> #[trigger] c.cells[k] == c.cells[a]
}

impl Code {
    /// There is a cell for every string of bits, and the cells of one symbol
    /// are those that start with its code.
    pub open spec fn valid(self) -> bool {
        &&& self.max_bits <= MAX_BITS
        &&& self.cells.len() == pow2(self.max_bits)
        &&& forall|a: int| 0 <= a < self.cells.len() ==> #[trigger] same_cells(self, a)
    }
}

proof fn lemma_power(n: nat)
    ensures
        is_power(pow2(n)),
        bits::log2(pow2(n)) == n,
{
    lemma_pow2_pos(n);
    lemma_pow2_unfold(n + 1);
    bits::lemma_log2_unique(pow2(n), n);
}

proof fn lemma_pow2_order(a: nat, b: nat)
    ensures
        a <= b ==> pow2(a) <= pow2(b),
        pow2(a) <= pow2(b) ==> a <= b,
{
    if a < b {
        lemma_pow2_strictly_increases(a, b);
    }
    if b < a {
        lemma_pow2_strictly_increases(b, a);
    }
}

proof fn lemma_unit_total(ws: Seq<u8>, i: int)
    requires
        0 <= i < ws.len(),
    ensures
        unit(ws[i]) <= total(ws),
    decreases ws.len(),
{
    if i < ws.len() - 1 {
        lemma_unit_total(ws.drop_last(), i);
    }
}

/// The weights that are left from weight `w` and symbol `i` on, among the
/// first `n`.
spec fn above(ws: Seq<u8>, w: nat, i: int, n: int) -> nat
    decreases n,
{
    if n <= 0 {
        0
    } else {
        above(ws, w, i, n - 1) + if ws[n - 1] > w || (ws[n - 1] == w && n - 1 >= i) {
            unit(ws[n - 1])
        } else {
            0
        }
    }
}

proof fn lemma_above_turn(ws: Seq<u8>, w: nat, n: int)
    requires
        n <= ws.len(),
    ensures
        above(ws, w, ws.len() as int, n) == above(ws, w + 1, 0, n),
    decreases n,
{
    if n > 0 {
        lemma_above_turn(ws, w, n - 1);
    }
}

proof fn lemma_above_step(ws: Seq<u8>, w: nat, i: int, n: int)
    requires
        0 <= i < ws.len(),
        n <= ws.len(),
    ensures
        above(ws, w, i, n) == above(ws, w, i + 1, n) + if i < n && ws[i] == w {
            unit(ws[i])
        } else {
            0
        },
    decreases n,
{
    if n > 0 {
        lemma_above_step(ws, w, i, n - 1);
    }
}

proof fn lemma_above_none(ws: Seq<u8>, w: nat, i: int, n: int)
    requires
        n <= ws.len(),
        forall|k: int| 0 <= k < ws.len() ==> #[trigger] ws[k] < w,
    ensures
        above(ws, w, i, n) == 0,
    decreases n,
{
    if n > 0 {
        lemma_above_none(ws, w, i, n - 1);
        assert(ws[n - 1] < w);
    }
}

proof fn lemma_above_all(ws: Seq<u8>, n: int)
    requires
        0 <= n <= ws.len(),
    ensures
        above(ws, 1, 0, n) == total(ws.take(n)),
    decreases n,
{
    if n > 0 {
        lemma_above_all(ws, n - 1);
        assert(ws.take(n).drop_last() =~= ws.take(n - 1));
    }
}

/// The cells are as many as the weights take, and from weight `w` on their
/// number is a multiple of that weight's.
proof fn lemma_cells_len(ws: Seq<u8>, w: nat, i: int, max_bits: nat)
    requires
        1 <= w <= 13,
        0 <= i <= ws.len(),
        forall|k: int| 0 <= k < ws.len() ==> #[trigger] ws[k] <= 12,
    ensures
        cells_from(ws, w, i, max_bits).len() == above(ws, w, i, ws.len() as int),
        cells_from(ws, w, i, max_bits).len() % pow2((w - 1) as nat) == 0,
    decreases 13 - w, ws.len() - i,
{
    let d = pow2((w - 1) as nat);
    lemma_pow2_pos((w - 1) as nat);
    if w > 12 {
        lemma_above_none(ws, w, i, ws.len() as int);
        lemma_small_mod(0, d);
    } else if i >= ws.len() {
        lemma_cells_len(ws, w + 1, 0, max_bits);
        lemma_above_turn(ws, w, ws.len() as int);
        let n = cells_from(ws, w + 1, 0, max_bits).len();
        let e = pow2(w);
        lemma_pow2_pos(w);
        lemma_pow2_unfold(w);
        lemma_fundamental_div_mod(n as int, e as int);
        let q = n / e;
        assert(n == (2 * q) * d) by (nonlinear_arith)
            requires
                n == e * q,
                e == 2 * d,
        ;
        lemma_mod_multiples_basic((2 * q) as int, d as int);
    } else {
        lemma_cells_len(ws, w, i + 1, max_bits);
        lemma_above_step(ws, w, i, ws.len() as int);
        if ws[i] == w {
            let n = cells_from(ws, w, i + 1, max_bits).len();
            lemma_mod_add_multiples_vanish(n as int, d as int);
            assert(cells_from(ws, w, i, max_bits).len() == d + n);
        }
    }
}

/// Cells whose part from `p` on is filled by weight stand where their codes
/// say.
proof fn lemma_cells_same(ws: Seq<u8>, w: nat, i: int, c: Code, p: int)
    requires
        1 <= w <= 13,
        0 <= i <= ws.len(),
        forall|k: int| 0 <= k < ws.len() ==> #[trigger] ws[k] <= 12,
        forall|k: int| 0 <= k < ws.len() ==> #[trigger] ws[k] <= c.max_bits + 1,
        c.max_bits <= 11,
        c.cells.len() == pow2(c.max_bits),
        0 <= p <= c.cells.len(),
        c.cells.skip(p) == cells_from(ws, w, i, c.max_bits),
    ensures
        forall|a: int| p <= a < c.cells.len() ==> #[trigger] same_cells(c, a),
    decreases 13 - w, ws.len() - i,
{
    let mb = c.max_bits;
    let rest = cells_from(ws, w, i, mb);
    assert(rest.len() == c.cells.len() - p);
    if w > 12 {
    } else if i >= ws.len() {
        lemma_cells_same(ws, w + 1, 0, c, p);
    } else if ws[i] == w {
        let d = pow2((w - 1) as nat);
        lemma_pow2_pos((w - 1) as nat);
        lemma_cells_len(ws, w, i, mb);
        lemma_cells_len(ws, w, i + 1, mb);
        let more = cells_from(ws, w, i + 1, mb);
        assert(rest.len() == d + more.len());
        assert(c.cells.skip(p + d) =~= more) by {
            assert(c.cells.skip(p + d) =~= rest.skip(d as int));
        }
        lemma_cells_same(ws, w, i + 1, c, p + d);
        assert(ws[i] <= mb + 1);
        lemma_pow2_adds((w - 1) as nat, (mb + 1 - w) as nat);
        let e = pow2((mb + 1 - w) as nat);
        assert(pow2(mb) == d * e);
        lemma_mod_multiples_basic(e as int, d as int);
        lemma_mul_is_commutative(d as int, e as int);
        lemma_sub_mod_noop(pow2(mb) as int, rest.len() as int, d as int);
        lemma_small_mod(0, d);
        assert(p % d as int == 0);
        assert forall|a: int| p <= a < c.cells.len() implies #[trigger] same_cells(c, a) by {
            if a < p + d {
                assert(c.cells[a] == rest[a - p]);
                assert(rest[a - p] == run(i, w, mb)[a - p]);
                assert(c.cells[a].length == mb + 1 - w);
                assert(span(c, a) == d);
                lemma_fundamental_div_mod(p, d as int);
                lemma_mul_is_commutative(d as int, p / d as int);
                assert(p == p / d as int * d as int);
                lemma_fundamental_div_mod_converse(a, d as int, p / d as int, a - p);
                assert forall|k: int| p <= k < p + d implies #[trigger] c.cells[k] == c.cells[a] by {
                    assert(c.cells[k] == rest[k - p]);
                    assert(rest[k - p] == run(i, w, mb)[k - p]);
                }
            }
        }
    } else {
        lemma_cells_same(ws, w, i + 1, c, p);
    }
}

/// Every code that weights make has a cell for every string of bits, and the
/// cells of a symbol are those that start with its code.
pub proof fn lemma_completed_valid(ws: Seq<u8>)
    ensures
        completed(ws) matches Ok(c) ==> c.valid(),
{
    if let Ok(c) = completed(ws) {
        lemma_weights_small(ws);
        lemma_cells_len(ws, 1, 0, c.max_bits);
        lemma_above_all(ws, ws.len() as int);
        assert(ws.take(ws.len() as int) =~= ws);
        assert(c.cells.skip(0) =~= c.cells);
        lemma_cells_same(ws, 1, 0, c, 0);
    }
}

/// No weight is larger than the code's longest length allows.
proof fn lemma_weights_small(ws: Seq<u8>)
    requires
        completed(ws) is Ok,
    ensures
        forall|k: int| 0 <= k < ws.len() ==> #[trigger] ws[k] <= completed(ws)->Ok_0.max_bits + 1,
        forall|k: int| 0 <= k < ws.len() ==> #[trigger] ws[k] <= 12,
{
    let mb = completed(ws)->Ok_0.max_bits;
    assert forall|k: int| 0 <= k < ws.len() implies #[trigger] ws[k] <= mb + 1 by {
        lemma_unit_total(ws, k);
        if ws[k] > 0 {
            lemma_pow2_order((ws[k] - 1) as nat, mb);
        }
    }
}

/// The weights of a code can be described plainly.
pub proof fn lemma_weights_bound(ws: Seq<u8>)
    requires
        completed(ws) is Ok,
    ensures
        forall|k: int| 0 <= k < ws.len() ==> #[trigger] ws[k] <= 15,
{
    lemma_weights_small(ws);
}

/// The first bits of what a reader sees.
proof fn lemma_back_top(data: Seq<u8>, b: stream::Back, n: nat, m: nat)
    requires
        m <= n,
        m <= b.left,
    ensures
        stream::back_value(data, b, n) / pow2((n - m) as nat) == stream::back_value(data, b, m),
{
    let d = (n - m) as nat;
    lemma_pow2_pos(d);
    if n <= b.left {
        bits::lemma_peek_div_mod(data, b.left - n, d, m);
        assert(d + m == n);
    } else {
        let x = (n - b.left) as nat;
        let y = (b.left - m) as nat;
        lemma_pow2_adds(x, y);
        lemma_pow2_pos(x);
        lemma_pow2_pos(y);
        bits::lemma_peek_div_mod(data, 0, y, m);
        assert(y + m == b.left);
        let v = bits::peek(data, 0, b.left);
        lemma_div_denominator((v * pow2(x)) as int, pow2(x) as int, pow2(y) as int);
        lemma_div_multiples_vanish(v as int, pow2(x) as int);
        lemma_mul_is_commutative(v as int, pow2(x) as int);
    }
}

proof fn lemma_first_cell(cells: Seq<Cell>, s: u8, from: int)
    requires
        0 <= from,
    ensures
        first_cell(cells, s, from) matches Some(a) ==> from <= a < cells.len()
            && cells[a].symbol == s,
    decreases cells.len() - from,
{
    if from < cells.len() {
        lemma_first_cell(cells, s, from + 1);
    }
}

/// A symbol's code fits in its length.
pub proof fn lemma_code_bound(c: Code, s: u8)
    requires
        c.valid(),
    ensures
        code_of(c, s).1 <= c.max_bits,
        code_of(c, s).0 < pow2(code_of(c, s).1),
{
    lemma_first_cell(c.cells, s, 0);
    lemma2_to64();
    if let Some(a) = first_cell(c.cells, s, 0) {
        assert(same_cells(c, a));
        let l = c.cells[a].length as nat;
        let d = (c.max_bits - l) as nat;
        lemma_pow2_pos(d);
        lemma_pow2_adds(l, d);
        lemma_multiply_divide_lt(a, pow2(d) as int, pow2(l) as int);
        lemma_mul_is_commutative(pow2(l) as int, pow2(d) as int);
    }
}

/// Where a symbol's code was written last, the symbol is read first.
pub proof fn lemma_symbol_back(c: Code, s: u8, data: Seq<u8>, w: Seq<bool>, b: stream::Back)
    requires
        c.valid(),
        code_of(c, s).1 > 0,
        bits::has(data, 0, w + bits::bits_of(code_of(c, s).0, code_of(c, s).1)),
        b.left == w.len() + code_of(c, s).1,
    ensures
        symbol_at(c, data, b) == (s, stream::Back { left: w.len(), over: b.over }),
        bits::has(data, 0, w),
{
    lemma_first_cell(c.cells, s, 0);
    let a = first_cell(c.cells, s, 0)->Some_0;
    assert(first_cell(c.cells, s, 0) is Some);
    let (code, l) = code_of(c, s);
    lemma_code_bound(c, s);
    stream::lemma_back(data, w, code, l, b);
    lemma_back_top(data, b, c.max_bits, l);
    let v = stream::back_value(data, b, c.max_bits);
    let d = span(c, a);
    lemma_pow2_pos((c.max_bits - l) as nat);
    assert(v / d == code);
    assert(same_cells(c, a));
    lemma_fundamental_div_mod(v as int, d as int);
    lemma_mul_is_commutative(d as int, code as int);
    assert(code * d <= v < code * d + d);
    assert(c.cells[v as int] == c.cells[a]);
}

/// The last weight is what the others leave to a power of two.
proof fn lemma_last_weight(ws: Seq<u8>)
    requires
        completed(ws) is Ok,
        ws.len() > 0,
        ws.last() > 0,
        total(ws) > unit(ws.last()),
    ensures
        weighted(ws.drop_last()) == completed(ws),
{
    let front = ws.drop_last();
    let mb = bits::log2(total(ws));
    let l = ws.last();
    let u = unit(l);
    let t = total(front);
    assert(t + u == pow2(mb));
    lemma_pow2_order(mb, (l - 1) as nat);
    assert(l - 1 < mb);
    let m = (mb - 1) as nat;
    assert(m + 1 == mb);
    lemma_pow2_unfold(mb);
    lemma_pow2_order((l - 1) as nat, m);
    lemma_pow2_pos((l - 1) as nat);
    bits::lemma_log2_unique(t, m);
    lemma_power((l - 1) as nat);
    assert(front.push(l) =~= ws);
    assert((pow2(bits::log2(t) + 1) - t) as nat == u);
    assert((bits::log2(u) + 1) as u8 == l);
}

/// Plain weights read back.
proof fn lemma_nibbles(ws: Seq<u8>, more: Seq<u8>)
    requires
        2 <= ws.len() <= MAX_DIRECT_SYMBOLS,
        forall|k: int| 0 <= k < ws.len() ==> #[trigger] ws[k] <= 12,
    ensures
        nibbles(description(ws) + more, (ws.len() - 1) as nat) == ws.drop_last(),
{
    let n = (ws.len() - 1) as nat;
    let d = description(ws);
    let all = d + more;
    let front = ws.drop_last();
    assert forall|i: int| 0 <= i < n implies nibbles(all, n)[i] == front[i] by {
        let k = i / 2;
        assert(ws[i] <= 12);
        assert(ws[2 * k] <= 12);
        if 2 * k + 1 < n {
            assert(ws[2 * k + 1] <= 12);
        }
        assert(all[1 + k] == d[1 + k]);
    }
    assert(nibbles(all, n) =~= front);
}

/// A plain description is read back as the code of its weights.
pub proof fn lemma_description(ws: Seq<u8>, more: Seq<u8>)
    requires
        completed(ws) is Ok,
        2 <= ws.len() <= MAX_DIRECT_SYMBOLS,
        ws.last() > 0,
        total(ws) > unit(ws.last()),
    ensures
        parsed(description(ws) + more) == Ok::<(Code, nat), Error>(
            (completed(ws)->Ok_0, description(ws).len()),
        ),
{
    reveal(parsed);
    lemma_weights_small(ws);
    let n = (ws.len() - 1) as nat;
    let d = description(ws);
    let all = d + more;
    assert(all[0] == 127 + n);
    lemma_nibbles(ws, more);
    lemma_last_weight(ws);
}

/// How many cells the weights take, where that is under 4096.
fn sum(weights: &[u8]) -> (r: Option<u32>)
    ensures
        match r {
            Some(t) => t == total(weights@) && t < 4096 && forall|k: int|
                0 <= k < weights@.len() ==> #[trigger] weights@[k] <= 12,
            None => total(weights@) >= 4096,
        },
{
    let mut t: u32 = 0;
    let mut i: usize = 0;
    while i < weights.len()
        invariant
            i <= weights.len(),
            t == total(weights@.take(i as int)),
            t < 4096,
            forall|k: int| 0 <= k < i ==> #[trigger] weights@[k] <= 12,
        decreases weights.len() - i,
    {
        let w: u8 = weights[i];
        proof {
            lemma2_to64();
            lemma_unit_total(weights@, i as int);
            assert(weights@.take(i + 1).drop_last() =~= weights@.take(i as int));
            lemma_total_prefix(weights@, i + 1);
        }
        if w > 12 {
            proof {
                lemma_pow2_order(12, (w - 1) as nat);
            }
            return None;
        }
        if w > 0 {
            proof {
                lemma_pow2_order((w - 1) as nat, 11);
            }
            t = t + power_of_two((w - 1) as u32) as u32;
            if t >= 4096 {
                return None;
            }
        }
        i = i + 1;
    }
    assert(weights@.take(i as int) =~= weights@);
    Some(t)
}

proof fn lemma_total_prefix(ws: Seq<u8>, n: int)
    requires
        0 <= n <= ws.len(),
    ensures
        total(ws.take(n)) <= total(ws),
    decreases ws.len(),
{
    if n < ws.len() {
        lemma_total_prefix(ws.drop_last(), n);
        assert(ws.drop_last().take(n) =~= ws.take(n));
    } else {
        assert(ws.take(n) =~= ws);
    }
}

/// A code's table.
pub struct Table {
    cells: Vec<Cell>,
    max_bits: u32,
}

impl View for Table {
    type V = Code;

    closed spec fn view(&self) -> Code {
        Code { cells: self.cells@, max_bits: self.max_bits as nat }
    }
}

impl Table {
    fn from_weights(weights: &[u8]) -> (r: Result<Self>)
        ensures
            match weighted(weights@) {
                Ok(c) => r matches Ok(x) && x@ == c && c.valid(),
                Err(e) => r matches Err(f) && f == e,
            },
    {
        let t: u32 = match sum(weights) {
            None => {
                proof {
                    lemma_too_many(weights@);
                }
                return Err(Error::Malformed);
            },
            Some(t) => t,
        };
        if t == 0 {
            return Err(Error::Malformed);
        }
        let l: u32 = floor_log2(t);
        proof {
            bits::lemma_log2(t as nat);
            lemma2_to64();
            if l > 11 {
                lemma_pow2_order(12, l as nat);
            }
            lemma_pow2_order(l as nat, 11);
            lemma_pow2_unfold((l + 1) as nat);
        }
        let gap: u32 = power_of_two(l + 1) as u32 - t;
        let g: u32 = floor_log2(gap);
        proof {
            bits::lemma_log2(gap as nat);
            if g > 11 {
                lemma_pow2_order(12, g as nat);
            }
        }
        if gap as u64 != power_of_two(g) {
            return Err(Error::Malformed);
        }
        let mut all: Vec<u8> = Vec::new();
        all.extend_from_slice(weights);
        all.push((g + 1) as u8);
        assert(all@ =~= weights@.push((g + 1) as u8));
        Self::from_complete(&all)
    }

    fn from_complete(weights: &[u8]) -> (r: Result<Self>)
        ensures
            match completed(weights@) {
                Ok(c) => r matches Ok(x) && x@ == c && c.valid(),
                Err(e) => r matches Err(f) && f == e,
            },
    {
        let t: u32 = match sum(weights) {
            None => {
                proof {
                    let n = total(weights@);
                    if is_power(n) && bits::log2(n) <= 11 {
                        lemma2_to64();
                        lemma_pow2_order(bits::log2(n), 11);
                    }
                }
                return Err(Error::Malformed);
            },
            Some(t) => t,
        };
        let max_bits: u32 = floor_log2(t);
        if t == 0 || t as u64 != power_of_two(max_bits) || max_bits > MAX_BITS {
            return Err(Error::Malformed);
        }
        let ghost whole = cells_from(weights@, 1, 0, max_bits as nat);
        proof {
            lemma_weights_small(weights@);
        }
        let mut cells: Vec<Cell> = Vec::new();
        let mut w: u8 = 1;
        assert(Seq::<Cell>::empty() + whole =~= whole);
        while w <= 12
            invariant
                1 <= w <= 13,
                max_bits <= 11,
                whole == cells@ + cells_from(weights@, w as nat, 0, max_bits as nat),
                forall|k: int|
                    0 <= k < weights@.len() ==> #[trigger] weights@[k] <= max_bits + 1,
            decreases 13 - w,
        {
            let mut i: usize = 0;
            while i < weights.len()
                invariant
                    1 <= w <= 12,
                    max_bits <= 11,
                    i <= weights.len(),
                    whole == cells@ + cells_from(
                        weights@,
                        w as nat,
                        i as int,
                        max_bits as nat,
                    ),
                    forall|k: int|
                        0 <= k < weights@.len() ==> #[trigger] weights@[k] <= max_bits + 1,
                decreases weights.len() - i,
            {
                if weights[i] == w {
                    assert(weights@[i as int] <= max_bits + 1);
                    proof {
                        lemma2_to64();
                        lemma_pow2_order((w - 1) as nat, 11);
                    }
                    let n: usize = power_of_two((w - 1) as u32) as usize;
                    let cell: Cell = Cell {
                        symbol: (i % 256) as u8,
                        length: (max_bits + 1 - w as u32) as u8,
                    };
                    let ghost before = cells@;
                    let ghost block = run(i as int, w as nat, max_bits as nat);
                    let mut k: usize = 0;
                    while k < n
                        invariant
                            k <= n == block.len(),
                            forall|j: int| 0 <= j < n ==> #[trigger] block[j] == cell,
                            cells@ == before + block.take(k as int),
                        decreases n - k,
                    {
                        cells.push(cell);
                        assert(block.take(k + 1) =~= block.take(k as int).push(cell));
                        k = k + 1;
                    }
                    assert(block.take(n as int) =~= block);
                    assert(before + (block + cells_from(
                        weights@,
                        w as nat,
                        i + 1,
                        max_bits as nat,
                    )) =~= cells@ + cells_from(weights@, w as nat, i + 1, max_bits as nat));
                }
                i = i + 1;
            }
            w = w + 1;
        }
        assert(cells@ + Seq::<Cell>::empty() =~= cells@);
        proof {
            lemma_completed_valid(weights@);
        }
        Ok(Table { cells, max_bits })
    }

    fn coded_weights(body: &[u8]) -> (r: Result<Vec<u8>>)
        ensures
            match coded_weights(body@) {
                Ok(ws) => r matches Ok(v) && v@ == ws,
                Err(e) => r matches Err(f) && f == e,
            },
    {
        let (table, used) = match fse::Table::parse(body, fse::MAX_WEIGHT_TABLE_LOG, 255) {
            Err(e) => {
                assert(body.len() <= usize::MAX);
                return Err(e);
            },
            Ok(v) => v,
        };
        if used > body.len() {
            return Err(Error::Malformed);
        }
        let data: &[u8] = &body[used..body.len()];
        assert(data@ =~= body@.skip(used as int));
        let mut bits: BackwardBits<'_> = match BackwardBits::new(data) {
            Err(e) => {
                return Err(e);
            },
            Ok(v) => v,
        };
        let mut even: State = State::new(&table, &mut bits);
        let mut odd: State = State::new(&table, &mut bits);
        let mut weights: Vec<u8> = Vec::new();
        let ghost whole = coded_weights(body@);
        assert(weights@ =~= Seq::<u8>::empty());
        loop
            invariant
                table@.valid(),
                bits.wf(),
                bits.data() == data@,
                even.at() < table@.entries.len(),
                odd.at() < table@.entries.len(),
                weights@.len() <= 256,
                whole == coded_weights(body@),
                whole == weights_from(
                    table@,
                    data@,
                    even.at(),
                    odd.at(),
                    bits.back(),
                    weights@,
                ),
            decreases 258 - weights@.len(),
        {
            weights.push(even.symbol(&table));
            even.advance(&table, &mut bits);
            if bits.is_exhausted() {
                weights.push(odd.symbol(&table));
                return Ok(weights);
            }
            weights.push(odd.symbol(&table));
            odd.advance(&table, &mut bits);
            if bits.is_exhausted() {
                weights.push(even.symbol(&table));
                return Ok(weights);
            }
            if weights.len() > SYMBOLS {
                return Err(Error::Malformed);
            }
        }
    }

    /// Read a code's description. It gives the table and how many bytes the
    /// description takes.
    pub fn parse(data: &[u8]) -> (r: Result<(Self, usize)>)
        ensures
            match parsed(data@) {
                Ok((c, n)) => r matches Ok(x) && x.0@ == c && x.1 == n && c.valid() && n
                    <= data@.len(),
                Err(e) => r matches Err(f) && f == e,
            },
    {
        reveal(parsed);
        if data.len() == 0 {
            return Err(Error::Malformed);
        }
        let header: u8 = data[0];
        if header >= 128 {
            let count: usize = header as usize - 127;
            let bytes: usize = (count + 1) / 2;
            if data.len() < 1 + bytes {
                return Err(Error::Malformed);
            }
            let mut weights: Vec<u8> = Vec::new();
            let mut i: usize = 0;
            while i < count
                invariant
                    i <= count <= 128,
                    data.len() >= 1 + (count + 1) / 2,
                    weights@ =~= nibbles(data@, count as nat).take(i as int),
                decreases count - i,
            {
                let byte: u8 = data[1 + i / 2];
                weights.push(
                    if i % 2 == 0 {
                        byte / 16
                    } else {
                        byte % 16
                    },
                );
                i = i + 1;
            }
            assert(weights@ =~= nibbles(data@, count as nat));
            return match Table::from_weights(&weights) {
                Err(e) => Err(e),
                Ok(t) => Ok((t, 1 + bytes)),
            };
        }
        let size: usize = header as usize;
        if data.len() < 1 + size {
            return Err(Error::Malformed);
        }
        let weights: Vec<u8> = match Self::coded_weights(&data[1..1 + size]) {
            Err(e) => {
                return Err(e);
            },
            Ok(v) => v,
        };
        match Table::from_weights(&weights) {
            Err(e) => Err(e),
            Ok(t) => Ok((t, 1 + size)),
        }
    }

    /// Take one symbol off the end of `bits`.
    pub fn decode(&self, bits: &mut BackwardBits<'_>) -> (r: u8)
        requires
            self@.valid(),
            old(bits).wf(),
        ensures
            final(bits).wf(),
            final(bits).data() == old(bits).data(),
            (r, final(bits).back()) == symbol_at(self@, old(bits).data(), old(bits).back()),
    {
        let index: usize = bits.peek(self.max_bits) as usize;
        proof {
            lemma2_to64();
            lemma_pow2_order(self.max_bits as nat, 11);
            assert(same_cells(self@, index as int));
        }
        let cell: Cell = self.cells[index];
        bits.consume(cell.length as u32);
        cell.symbol
    }
}

/// Weights that take too many cells make no code.
proof fn lemma_too_many(ws: Seq<u8>)
    requires
        total(ws) >= 4096,
    ensures
        weighted(ws) == Err::<Code, Error>(Error::Malformed),
{
    let t = total(ws);
    lemma2_to64();
    bits::lemma_log2(t);
    let l = bits::log2(t);
    let gap = (pow2(l + 1) - t) as nat;
    if is_power(gap) {
        let g = bits::log2(gap);
        lemma_pow2_unfold(l + 1);
        lemma_pow2_order(g, l);
        if completed(ws.push((g + 1) as u8)) is Ok {
            let all = ws.push((g + 1) as u8);
            assert(all.drop_last() =~= ws);
            lemma_pow2_order(bits::log2(total(all)), 11);
        }
    }
}

/// How many of the first `n` symbols occur.
pub open spec fn used(freqs: Seq<u32>, n: int) -> nat
    decreases n,
{
    if n <= 0 {
        0
    } else {
        used(freqs, n - 1) + if freqs[n - 1] > 0 {
            1nat
        } else {
            0
        }
    }
}

/// One more than the highest of the first `n` symbols that occurs, or zero.
pub open spec fn reach(freqs: Seq<u32>, n: int) -> nat
    decreases n,
{
    if n <= 0 {
        0
    } else if freqs[n - 1] > 0 {
        n as nat
    } else {
        reach(freqs, n - 1)
    }
}

proof fn lemma_reach(freqs: Seq<u32>, n: int)
    requires
        0 <= n <= freqs.len(),
    ensures
        reach(freqs, n) <= n,
        reach(freqs, n) > 0 ==> freqs[reach(freqs, n) - 1] > 0,
        forall|i: int| reach(freqs, n) <= i < n ==> #[trigger] freqs[i] == 0,
    decreases n,
{
    if n > 0 && freqs[n - 1] == 0 {
        lemma_reach(freqs, n - 1);
    }
}

proof fn lemma_used_alone(freqs: Seq<u32>, k: int, n: int)
    requires
        0 <= k < freqs.len(),
        n <= freqs.len(),
        forall|i: int| 0 <= i < freqs.len() && i != k ==> #[trigger] freqs[i] == 0,
    ensures
        used(freqs, n) <= if n > k {
            1
        } else {
            0int
        },
    decreases n,
{
    if n > 0 {
        lemma_used_alone(freqs, k, n - 1);
    }
}

/// Whether literals can be described with direct weights.
pub open spec fn describable(freqs: Seq<u32>) -> bool {
    1 <= reach(freqs, freqs.len() as int) <= MAX_DIRECT_SYMBOLS && used(freqs, freqs.len() as int)
        >= 2
}

/// The longest of some code lengths.
pub open spec fn longest_of(lens: Seq<u8>) -> int
    decreases lens.len(),
{
    if lens.len() == 0 {
        0
    } else if lens.last() > longest_of(lens.drop_last()) {
        lens.last() as int
    } else {
        longest_of(lens.drop_last())
    }
}

/// The weights of the code lengths that package-merge gives the symbols up to
/// the highest one that occurs.
pub open spec fn weights_for(freqs: Seq<u32>) -> Seq<u8> {
    let lens = lengths::lengths_for(
        freqs.take(reach(freqs, freqs.len() as int) as int),
        MAX_BITS as nat,
    );
    weights_of(lens, longest_of(lens))
}

/// The weights of code lengths whose longest is `longest`.
pub open spec fn weights_of(lens: Seq<u8>, longest: int) -> Seq<u8> {
    Seq::new(
        lens.len(),
        |i: int|
            if lens[i] == 0 {
                0u8
            } else {
                (longest + 1 - lens[i]) as u8
            },
    )
}

proof fn lemma_weights_of(lens: Seq<u8>, longest: int)
    requires
        0 <= longest <= 11,
        forall|i: int| 0 <= i < lens.len() ==> #[trigger] lens[i] <= longest,
    ensures
        total(weights_of(lens, longest)) == lengths::kraft(lens, longest),
    decreases lens.len(),
{
    if lens.len() > 0 {
        let front = lens.drop_last();
        assert forall|i: int| 0 <= i < front.len() implies #[trigger] front[i] <= longest by {
            assert(lens[i] <= longest);
        }
        lemma_weights_of(front, longest);
        assert(weights_of(lens, longest).drop_last() =~= weights_of(front, longest));
        assert(lens[lens.len() - 1] <= longest);
    }
}

impl Table {
    /// Build weights over the symbols `freqs` counts, or `None` when the
    /// literals cannot be described with direct weights.
    pub fn build(freqs: &[u32; 256]) -> (r: Option<Vec<u8>>)
        ensures
            r is Some <==> describable(freqs@),
            r matches Some(ws) ==> ws@.len() == reach(freqs@, 256) && is_power(total(ws@))
                && bits::log2(total(ws@)) <= MAX_BITS && (forall|i: int|
                0 <= i < ws@.len() && freqs@[i] > 0 ==> #[trigger] ws@[i] > 0) && total(ws@)
                > unit(ws@.last()) && ws@.last() > 0 && ws@.len() >= 2 && ws@
                == weights_for(freqs@),
    {
        let mut high: usize = 256;
        proof {
            lemma_reach(freqs@, 256);
        }
        while high > 0 && freqs[high - 1] == 0
            invariant
                high <= 256,
                reach(freqs@, 256) == reach(freqs@, high as int),
            decreases high,
        {
            high = high - 1;
        }
        if high == 0 || high > MAX_DIRECT_SYMBOLS {
            return None;
        }
        let mut count: usize = 0;
        let mut i: usize = 0;
        while i < 256
            invariant
                i <= 256,
                count <= i,
                count == used(freqs@, i as int),
            decreases 256 - i,
        {
            if freqs[i] > 0 {
                count = count + 1;
            }
            i = i + 1;
        }
        if count < 2 {
            return None;
        }
        let mut front: Vec<u32> = Vec::new();
        let mut j: usize = 0;
        while j < high
            invariant
                j <= high <= 256,
                front@ == freqs@.take(j as int),
            decreases high - j,
        {
            front.push(freqs[j]);
            assert(front@ =~= freqs@.take(j + 1));
            j = j + 1;
        }
        let ghost other = choose|k: int| 0 <= k < high - 1 && freqs@[k] > 0;
        proof {
            lemma2_to64();
            if forall|k: int| 0 <= k < high - 1 ==> freqs@[k] == 0 {
                assert forall|k: int| 0 <= k < 256 && k != high - 1 implies #[trigger] freqs@[k]
                    == 0 by {}
                lemma_used_alone(freqs@, high - 1, 256);
            }
            assert(front@[high - 1] > 0);
            lengths::lemma_occurring(front@);
        }
        let lens: Vec<u8> = assign_lengths(&front, MAX_BITS as usize);
        let mut longest: u8 = 0;
        let mut n: usize = 0;
        while n < lens.len()
            invariant
                n <= lens@.len(),
                longest <= 11,
                forall|k: int| 0 <= k < lens@.len() ==> #[trigger] lens@[k] <= 11,
                forall|k: int| 0 <= k < n ==> #[trigger] lens@[k] <= longest,
                longest == longest_of(lens@.take(n as int)),
            decreases lens@.len() - n,
        {
            assert(lens@.take(n + 1).drop_last() =~= lens@.take(n as int));
            if lens[n] > longest {
                longest = lens[n];
            }
            n = n + 1;
        }
        let mut weights: Vec<u8> = Vec::new();
        let mut m: usize = 0;
        while m < lens.len()
            invariant
                m <= lens@.len(),
                longest <= 11,
                forall|k: int| 0 <= k < lens@.len() ==> #[trigger] lens@[k] <= longest,
                weights@ == weights_of(lens@, longest as int).take(m as int),
            decreases lens@.len() - m,
        {
            let len: u8 = lens[m];
            weights.push(
                if len == 0 {
                    0
                } else {
                    longest + 1 - len
                },
            );
            assert(weights@ =~= weights_of(lens@, longest as int).take(m + 1));
            m = m + 1;
        }
        proof {
            let k = lengths::kraft(lens@, longest as int);
            assert(weights@ =~= weights_of(lens@, longest as int));
            assert(front@ =~= freqs@.take(high as int));
            assert(lens@[high - 1] > 0);
            assert(lens@.take(n as int) =~= lens@);
            lemma_weights_of(lens@, longest as int);
            lengths::lemma_kraft_extend(lens@, longest as int, 11);
            let d = pow2((11 - longest) as nat);
            lemma_pow2_adds((11 - longest) as nat, longest as nat);
            lemma_pow2_pos((11 - longest) as nat);
            assert(k == pow2(longest as nat)) by (nonlinear_arith)
                requires
                    d * k == d * pow2(longest as nat),
                    d > 0,
            ;
            lemma_power(longest as nat);
            assert(0 <= other < high - 1 && freqs@[other] > 0);
            assert(front@[other] > 0);
            assert(lens@[other] > 0);
            assert(lens@[high - 1] > 0);
            assert(weights@[other] > 0);
            let rest = weights@.drop_last();
            lemma_unit_total(rest, other);
            lemma_pow2_pos((weights@[other] - 1) as nat);
            assert(unit(rest[other]) > 0);
            assert forall|i: int| 0 <= i < weights@.len() && freqs@[i] > 0 implies #[trigger] weights@[i]
                > 0 by {
                assert(front@[i] > 0);
                assert(lens@[i] > 0);
            }
        }
        Some(weights)
    }

    /// The code for every symbol, as (value, bit count), from a weight list.
    ///
    /// Codes are canonical: symbols are ordered by weight, the lightest first,
    /// and within a weight by symbol number, which is the order the decoder's
    /// table is filled in.
    pub fn codes(weights: &[u8]) -> (r: Result<Vec<(u16, u8)>>)
        ensures
            match completed(weights@) {
                Err(e) => r matches Err(f) && f == e,
                Ok(c) => r matches Ok(v) && c.valid() && v@.len() == SYMBOLS && forall|s: int|
                    0 <= s < SYMBOLS ==> code_of(c, s as u8) == (
                        (#[trigger] v@[s]).0 as nat,
                        v@[s].1 as nat,
                    ),
            },
    {
        let table: Table = match Table::from_complete(weights) {
            Err(e) => {
                return Err(e);
            },
            Ok(t) => t,
        };
        let ghost c = table@;
        let mut codes: Vec<(u16, u8)> = Vec::new();
        while codes.len() < 256
            invariant
                codes@.len() <= 256,
                forall|s: int| 0 <= s < codes@.len() ==> #[trigger] codes@[s] == (0u16, 0u8),
            decreases 256 - codes@.len(),
        {
            codes.push((0, 0));
        }
        let mut seen: Vec<bool> = vec![false; 256];
        let mut slot: usize = 0;
        proof {
            lemma2_to64();
            lemma_pow2_order(c.max_bits, 11);
        }
        while slot < table.cells.len()
            invariant
                slot <= table.cells@.len() <= 2048,
                c == table@,
                c.valid(),
                codes@.len() == 256,
                seen@.len() == 256,
                forall|s: int|
                    0 <= s < 256 ==> if #[trigger] seen@[s] {
                        code_of(c, s as u8) == (codes@[s].0 as nat, codes@[s].1 as nat)
                    } else {
                        codes@[s] == (0u16, 0u8) && first_cell(c.cells, s as u8, 0) == first_cell(
                            c.cells,
                            s as u8,
                            slot as int,
                        )
                    },
            decreases table.cells@.len() - slot,
        {
            let cell: Cell = table.cells[slot];
            let symbol: usize = cell.symbol as usize;
            if !seen[symbol] {
                proof {
                    assert(same_cells(c, slot as int));
                    lemma_pow2_pos((c.max_bits - cell.length) as nat);
                    lemma_div_is_ordered_by_denominator(
                        slot as int,
                        1,
                        pow2((c.max_bits - cell.length) as nat) as int,
                    );
                }
                let code: u64 = shift_right(slot as u64, table.max_bits - cell.length as u32);
                seen.set(symbol, true);
                codes.set(symbol, (code as u16, cell.length));
                assert(code_of(c, cell.symbol) == (code as nat, cell.length as nat));
            }
            slot = slot + 1;
        }
        assert forall|s: int| 0 <= s < 256 implies code_of(c, s as u8) == (
            (#[trigger] codes@[s]).0 as nat,
            codes@[s].1 as nat,
        ) by {
            if seen@[s] {
            }
        }
        Ok(codes)
    }

    /// Write a weight list in the plain four bit form.
    pub fn describe(weights: &[u8]) -> (r: Vec<u8>)
        requires
            2 <= weights.len() <= MAX_DIRECT_SYMBOLS,
            forall|i: int| 0 <= i < weights@.len() ==> #[trigger] weights@[i] <= 15,
        ensures
            r@ == description(weights@),
    {
        let count: usize = weights.len() - 1;
        let mut out: Vec<u8> = Vec::new();
        out.push((127 + count) as u8);
        let mut i: usize = 0;
        let ghost d = description(weights@);
        assert(out@ =~= d.take(1));
        while i < count
            invariant
                i % 2 == 0,
                i <= count + 1,
                1 <= count <= 128,
                weights.len() == count + 1,
                d == description(weights@),
                out@ =~= d.take(1 + i / 2),
                forall|k: int| 0 <= k < weights@.len() ==> #[trigger] weights@[k] <= 15,
            decreases count + 1 - i,
        {
            assert(weights@[i as int] <= 15);
            let high: u8 = weights[i] * 16;
            let low: u8 = if i + 1 < count {
                assert(weights@[i + 1] <= 15);
                weights[i + 1]
            } else {
                0
            };
            out.push(high + low);
            assert(d[1 + i / 2] == high + low);
            i = i + 2;
        }
        assert(out@ =~= d);
        out
    }
}

} // verus!
