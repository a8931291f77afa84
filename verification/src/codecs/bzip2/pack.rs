//! How the parts of a bzip2 block are written, and that they read back.
use crate::codecs::bzip2::bitio;
use crate::codecs::bzip2::bwt;
use crate::codecs::bzip2::crc;
use crate::codecs::bzip2::syntax;
use crate::codecs::bzip2::syntax::{Fed, Mtf, BLOCK_MAGIC, MAX_BLOCK};
use crate::codecs::lengths;
use crate::utils::error;
use crate::utils::error::Error;
use crate::utils::sorting;
use vstd::arithmetic::div_mod::*;
use vstd::arithmetic::power2::*;
use vstd::prelude::*;

verus! {

/// Lengths of a code in which each symbol has a word.
pub open spec fn code_ok(lens: Seq<u8>) -> bool {
    &&& lengths::complete(lens, 17)
    &&& forall|i: int| 0 <= i < lens.len() ==> 1 <= #[trigger] lens[i] <= 17
}

/// The number of a symbol's code word.
pub open spec fn code_of(lens: Seq<u8>, s: int) -> nat {
    (syntax::first_code(lens, lens[s] as int) + lengths::cnt(lens.take(s), lens[s] as int)) as nat
}

/// A symbol's code word.
pub open spec fn word(lens: Seq<u8>, s: int) -> Seq<bool> {
    bitio::digits(code_of(lens, s), lens[s] as nat)
}

pub proof fn lemma_code_fits(lens: Seq<u8>, s: int)
    requires
        code_ok(lens),
        0 <= s < lens.len(),
    ensures
        code_of(lens, s) < pow2(lens[s] as nat),
        syntax::first_code(lens, lens[s] as int) <= code_of(lens, s) < lengths::kraft(
            lens,
            lens[s] as int,
        ),
        word(lens, s).len() == lens[s],
        bitio::value(word(lens, s)) == code_of(lens, s),
        sorting::positions(syntax::lens_keys(lens), lens[s] as int)[code_of(lens, s)
            - syntax::first_code(lens, lens[s] as int)] == s,
{
    let l = lens[s] as int;
    let keys = syntax::lens_keys(lens);
    sorting::lemma_position_of(keys, s);
    assert(keys.take(s) =~= syntax::lens_keys(lens.take(s)));
    syntax::lemma_cnt_positions(lens.take(s), l);
    syntax::lemma_cnt_positions(lens, l);
    lengths::lemma_kraft_step(lens, l);
    lengths::lemma_kraft_bound(lens, l, 17);
    bitio::lemma_value_digits(code_of(lens, s), l as nat);
}

proof fn lemma_symbol_from_back(b: Seq<bool>, p: int, lens: Seq<u8>, s: int, t: int)
    requires
        code_ok(lens),
        0 <= s < lens.len(),
        bitio::has(b, p, word(lens, s)),
        1 <= t <= lens[s],
    ensures
        syntax::symbol_from(b, p, lens, t) == Some((s, p + lens[s])),
    decreases lens[s] - t,
{
    let l = lens[s] as int;
    let w = word(lens, s);
    lemma_code_fits(lens, s);
    if t < l {
        lemma_symbol_from_back(b, p, lens, s, t + 1);
        let x = w.take(t);
        let y = w.skip(t);
        assert(w =~= x + y);
        assert(b.subrange(p, p + t) =~= x) by {
            assert(b.subrange(p, p + l).take(t) =~= b.subrange(p, p + t));
        }
        bitio::lemma_value_concat(x, y);
        bitio::lemma_value_bound(y);
        lengths::lemma_kraft_monotone(lens, t, l - 1);
        let d = pow2((l - 1 - t) as nat);
        let e = pow2((l - t) as nat);
        lemma_pow2_unfold((l - t) as nat);
        let k = lengths::kraft(lens, t);
        let v = bitio::value(x);
        assert(v >= k) by (nonlinear_arith)
            requires
                v * e + e > 2 * (k * d),
                e == 2 * d,
                v >= 0,
                d >= 0,
        ;
    }
}

/// A code word is read as its symbol.
pub proof fn lemma_symbol_back(b: Seq<bool>, p: int, lens: Seq<u8>, s: int)
    requires
        code_ok(lens),
        0 <= s < lens.len(),
        bitio::has(b, p, word(lens, s)),
    ensures
        syntax::symbol(b, p, lens) == Some((s, p + lens[s])),
{
    lemma_symbol_from_back(b, p, lens, s, 1);
}

/// What a list of symbols decodes to, the last of them ending it.
pub open spec fn fed_all(m: Mtf, symbols: Seq<int>, limit: nat) -> Option<Seq<u8>>
    decreases symbols.len(),
{
    if symbols.len() == 0 {
        None
    } else {
        match syntax::feed(m, symbols[0], limit) {
            Fed::Bad => None,
            Fed::End(out) => if symbols.len() == 1 {
                Some(out)
            } else {
                None
            },
            Fed::More(n) => fed_all(n, symbols.skip(1), limit),
        }
    }
}

/// Symbols from the `k`th on in the codes of their groups.
pub open spec fn body_bits(
    tables: Seq<Seq<u8>>,
    selectors: Seq<int>,
    k: nat,
    symbols: Seq<int>,
) -> Seq<bool>
    decreases symbols.len(),
{
    if symbols.len() == 0 {
        Seq::empty()
    } else {
        word(tables[selectors[(k / 50) as int]], symbols[0]) + body_bits(
            tables,
            selectors,
            k + 1,
            symbols.skip(1),
        )
    }
}

/// Tables and selectors that symbols can be written with.
pub open spec fn codes_ok(tables: Seq<Seq<u8>>, selectors: Seq<int>, n: nat) -> bool {
    &&& 2 <= tables.len() <= 6
    &&& forall|t: int| 0 <= t < tables.len() ==> code_ok(#[trigger] tables[t]) && tables[t].len() == n
    &&& forall|g: int| 0 <= g < selectors.len() ==> 0 <= #[trigger] selectors[g] < tables.len()
}

/// Symbols read back from their codes.
pub proof fn lemma_body_back(
    b: Seq<bool>,
    p: int,
    tables: Seq<Seq<u8>>,
    selectors: Seq<int>,
    k: nat,
    m: Mtf,
    symbols: Seq<int>,
    limit: nat,
    n: nat,
)
    requires
        codes_ok(tables, selectors, n),
        k + symbols.len() <= 50 * selectors.len(),
        forall|i: int| 0 <= i < symbols.len() ==> 0 <= #[trigger] symbols[i] < n,
        bitio::has(b, p, body_bits(tables, selectors, k, symbols)),
        fed_all(m, symbols, limit) is Some,
    ensures
        syntax::body(b, p, tables, selectors, k, m, limit) == Some(
            (
                fed_all(m, symbols, limit)->Some_0,
                p + body_bits(tables, selectors, k, symbols).len(),
            ),
        ),
    decreases symbols.len(),
{
    let g = (k / 50) as int;
    assert(g < selectors.len());
    let lens = tables[selectors[g]];
    let s = symbols[0];
    let rest = body_bits(tables, selectors, k + 1, symbols.skip(1));
    assert(0 <= selectors[g] < tables.len());
    assert(code_ok(lens) && lens.len() == n);
    bitio::lemma_has_concat(b, p, word(lens, s), rest);
    lemma_code_fits(lens, s);
    lemma_symbol_back(b, p, lens, s);
    match syntax::feed(m, s, limit) {
        Fed::Bad => {},
        Fed::End(out) => {
            assert(symbols.skip(1).len() == 0);
            assert(rest.len() == 0);
        },
        Fed::More(x) => {
            let q = p + lens[s];
            let more = symbols.skip(1);
            assert forall|i: int| 0 <= i < more.len() implies 0 <= #[trigger] more[i] < n by {
                assert(more[i] == symbols[i + 1]);
            }
            lemma_body_back(b, q, tables, selectors, k + 1, x, more, limit, n);
        },
    }
}

/// A run of the first byte of the list, in digits.
pub open spec fn run_digits(z: nat) -> Seq<int>
    decreases z,
{
    if z == 0 {
        Seq::empty()
    } else if z % 2 == 1 {
        seq![0int] + run_digits(((z - 1) / 2) as nat)
    } else {
        seq![1int] + run_digits(((z - 2) / 2) as nat)
    }
}

/// The digits of a run add up to it.
pub proof fn lemma_run_digits(m: Mtf, z: nat, rest: Seq<int>, limit: nat) -> (n: Mtf)
    requires
        m.place * z <= MAX_BLOCK,
        m.place > 0,
        rest.len() > 0,
    ensures
        n.list == m.list,
        n.out == m.out,
        n.run == m.run + m.place * z,
        n.place > 0,
        fed_all(m, run_digits(z) + rest, limit) == fed_all(n, rest, limit),
    decreases z,
{
    if z == 0 {
        assert(run_digits(z) + rest =~= rest);
        assert(m.place * z == 0) by (nonlinear_arith)
            requires
                z == 0,
        ;
        m
    } else {
        let d: nat = if z % 2 == 1 {
            1
        } else {
            2
        };
        let y = ((z - d) / 2) as nat;
        assert(z == 2 * y + d);
        let q = m.place;
        assert(q <= MAX_BLOCK && (2 * q) * y <= q * z && d * q + (2 * q) * y == q * z)
            by (nonlinear_arith)
            requires
                q * z <= MAX_BLOCK,
                q > 0,
                z == 2 * y + d,
                d == 1 || d == 2,
                z > 0,
        ;
        let s = run_digits(z) + rest;
        assert(s[0] == d - 1);
        assert(s.skip(1) =~= run_digits(y) + rest);
        assert((s[0] + 1) * q == d * q);
        let x = Mtf { run: (m.run + (s[0] + 1) * q) as nat, place: 2 * q, ..m };
        lemma_run_digits(x, y, rest, limit)
    }
}

/// `j` ones and a zero.
pub open spec fn unary_bits(j: nat) -> Seq<bool>
    decreases j,
{
    if j == 0 {
        seq![false]
    } else {
        seq![true] + unary_bits((j - 1) as nat)
    }
}

proof fn lemma_unary_back(b: Seq<bool>, p: int, i: int, j: nat, count: int)
    requires
        bitio::has(b, p, unary_bits(j)),
        0 <= i,
        i + j < count,
    ensures
        syntax::unary(b, p, i, count) == Some((i + j, p + unary_bits(j).len())),
    decreases j,
{
    if j > 0 {
        bitio::lemma_has_concat(b, p, seq![true], unary_bits((j - 1) as nat));
        assert(b.subrange(p, p + 1)[0] == b[p]);
        lemma_unary_back(b, p + 1, i + 1, (j - 1) as nat, count);
    } else {
        assert(b.subrange(p, p + 1)[0] == b[p]);
    }
}

/// Where a table stands in a list, from `i` on.
pub open spec fn place_of(order: Seq<int>, x: int, i: int) -> int
    decreases order.len() - i,
{
    if i >= order.len() || i < 0 {
        i
    } else if order[i] == x {
        i
    } else {
        place_of(order, x, i + 1)
    }
}

proof fn lemma_place_of(order: Seq<int>, x: int, i: int, k: int)
    requires
        0 <= i <= k < order.len(),
        order[k] == x,
    ensures
        i <= place_of(order, x, i) < order.len(),
        order[place_of(order, x, i)] == x,
    decreases order.len() - i,
{
    if order[i] != x {
        lemma_place_of(order, x, i + 1, k);
    }
}

/// The tables of groups, each by its place in the order last used.
pub open spec fn selector_bits(order: Seq<int>, selectors: Seq<int>) -> Seq<bool>
    decreases selectors.len(),
{
    if selectors.len() == 0 {
        Seq::empty()
    } else {
        let j = place_of(order, selectors[0], 0);
        unary_bits(j as nat) + selector_bits(syntax::front(order, j), selectors.skip(1))
    }
}

/// Every table stands in the list.
pub open spec fn lists_all(order: Seq<int>, count: nat) -> bool {
    &&& order.len() == count
    &&& forall|x: int| 0 <= x < count ==> #[trigger] order.contains(x)
}

/// It still does once one was moved to the front.
pub proof fn lemma_front_lists(order: Seq<int>, count: nat, j: int)
    requires
        lists_all(order, count),
        0 <= j < count,
    ensures
        lists_all(syntax::front(order, j), count),
{
    let f = syntax::front(order, j);
    assert forall|x: int| 0 <= x < count implies #[trigger] f.contains(x) by {
        assert(order.contains(x));
        let k = choose|k: int| 0 <= k < order.len() && order[k] == x;
        if k == j {
            assert(f[0] == x);
        } else if k < j {
            assert(f[k + 1] == x);
        } else {
            assert(f[k] == x);
        }
    }
}

pub proof fn lemma_place_in(order: Seq<int>, count: nat, x: int)
    requires
        lists_all(order, count),
        0 <= x < count,
    ensures
        0 <= place_of(order, x, 0) < count,
        order[place_of(order, x, 0)] == x,
{
    assert(order.contains(x));
    let k = choose|k: int| 0 <= k < order.len() && order[k] == x;
    lemma_place_of(order, x, 0, k);
}

/// Selectors read back.
pub proof fn lemma_selectors_back(
    b: Seq<bool>,
    p: int,
    order: Seq<int>,
    selectors: Seq<int>,
    count: nat,
)
    requires
        lists_all(order, count),
        forall|i: int| 0 <= i < selectors.len() ==> 0 <= #[trigger] selectors[i] < count,
        bitio::has(b, p, selector_bits(order, selectors)),
    ensures
        syntax::picks(b, p, order, selectors.len()) == Some(
            (selectors, p + selector_bits(order, selectors).len()),
        ),
    decreases selectors.len(),
{
    if selectors.len() > 0 {
        let x = selectors[0];
        let more = selectors.skip(1);
        lemma_place_in(order, count, x);
        let j = place_of(order, x, 0);
        let f = syntax::front(order, j);
        bitio::lemma_has_concat(b, p, unary_bits(j as nat), selector_bits(f, more));
        lemma_unary_back(b, p, 0, j as nat, count as int);
        lemma_front_lists(order, count, j);
        assert forall|i: int| 0 <= i < more.len() implies 0 <= #[trigger] more[i] < count by {
            assert(more[i] == selectors[i + 1]);
        }
        lemma_selectors_back(b, p + unary_bits(j as nat).len(), f, more, count);
        assert(seq![x] + more =~= selectors);
    } else {
        assert(selectors =~= Seq::<int>::empty());
    }
}

/// The steps from one code length to another.
pub open spec fn length_bits(from: int, want: int) -> Seq<bool>
    decreases (if from < want {
        want - from
    } else {
        from - want
    }),
{
    if from < want {
        seq![true, false] + length_bits(from + 1, want)
    } else if from > want {
        seq![true, true] + length_bits(from - 1, want)
    } else {
        seq![false]
    }
}

proof fn lemma_length_back(b: Seq<bool>, p: int, from: int, want: int)
    requires
        1 <= from <= 20,
        1 <= want <= 20,
        bitio::has(b, p, length_bits(from, want)),
    ensures
        syntax::length_at(b, p, from) == Some((want, p + length_bits(from, want).len())),
    decreases (if from < want {
        want - from
    } else {
        from - want
    }),
{
    let w = length_bits(from, want);
    assert(b.subrange(p, p + w.len())[0] == b[p]);
    if from != want {
        assert(b.subrange(p, p + w.len())[1] == b[p + 1]);
        let next = if from < want {
            from + 1
        } else {
            from - 1
        };
        bitio::lemma_has_concat(b, p, seq![true, from > want], length_bits(next, want));
        lemma_length_back(b, p + 2, next, want);
    }
}

/// Code lengths, each by the steps from the one before.
pub open spec fn lengths_bits(from: int, lens: Seq<u8>) -> Seq<bool>
    decreases lens.len(),
{
    if lens.len() == 0 {
        Seq::empty()
    } else {
        length_bits(from, lens[0] as int) + lengths_bits(lens[0] as int, lens.skip(1))
    }
}

pub proof fn lemma_lengths_back(b: Seq<bool>, p: int, from: int, lens: Seq<u8>)
    requires
        1 <= from <= 20,
        forall|i: int| 0 <= i < lens.len() ==> 1 <= #[trigger] lens[i] <= 20,
        bitio::has(b, p, lengths_bits(from, lens)),
    ensures
        syntax::lengths_at(b, p, from, lens.len()) == Some(
            (lens, p + lengths_bits(from, lens).len()),
        ),
    decreases lens.len(),
{
    if lens.len() > 0 {
        let l = lens[0] as int;
        let more = lens.skip(1);
        bitio::lemma_has_concat(b, p, length_bits(from, l), lengths_bits(l, more));
        lemma_length_back(b, p, from, l);
        assert forall|i: int| 0 <= i < more.len() implies 1 <= #[trigger] more[i] <= 20 by {
            assert(more[i] == lens[i + 1]);
        }
        lemma_lengths_back(b, p + length_bits(from, l).len(), l, more);
        assert(seq![lens[0]] + more =~= lens);
    } else {
        assert(lens =~= Seq::<u8>::empty());
    }
}

/// Tables of code lengths.
pub open spec fn tables_bits(tables: Seq<Seq<u8>>) -> Seq<bool>
    decreases tables.len(),
{
    if tables.len() == 0 {
        Seq::empty()
    } else {
        let t = tables[0];
        bitio::digits(t[0] as nat, 5) + lengths_bits(t[0] as int, t) + tables_bits(tables.skip(1))
    }
}

pub proof fn lemma_tables_back(b: Seq<bool>, p: int, tables: Seq<Seq<u8>>, n: nat)
    requires
        n > 0,
        forall|t: int|
            0 <= t < tables.len() ==> code_ok(#[trigger] tables[t]) && tables[t].len() == n,
        bitio::has(b, p, tables_bits(tables)),
    ensures
        syntax::tables_at(b, p, n, tables.len()) == Some((tables, p + tables_bits(tables).len())),
    decreases tables.len(),
{
    if tables.len() > 0 {
        let t = tables[0];
        let more = tables.skip(1);
        assert(code_ok(t));
        let first = t[0];
        assert(1 <= first <= 17);
        let w = bitio::digits(first as nat, 5);
        let x = lengths_bits(first as int, t);
        bitio::lemma_has_concat(b, p, w + x, tables_bits(more));
        bitio::lemma_has_concat(b, p, w, x);
        lemma2_to64();
        bitio::lemma_digits_len(first as nat, 5);
        bitio::lemma_field_back(b, p, first as nat, 5);
        lemma_lengths_back(b, p + 5, first as int, t);
        assert forall|i: int| 0 <= i < more.len() implies code_ok(#[trigger] more[i])
            && more[i].len() == n by {
            assert(more[i] == tables[i + 1]);
        }
        lemma_tables_back(b, p + 5 + x.len(), more, n);
        assert(seq![t] + more =~= tables);
    } else {
        assert(tables =~= Seq::<Seq<u8>>::empty());
    }
}

/// The code tables of a block and which group uses which.
pub open spec fn codes_bits(tables: Seq<Seq<u8>>, selectors: Seq<int>) -> Seq<bool> {
    bitio::digits(tables.len(), 3) + bitio::digits(selectors.len(), 15) + selector_bits(
        syntax::upto(tables.len()),
        selectors,
    ) + tables_bits(tables)
}

pub proof fn lemma_codes_back(
    b: Seq<bool>,
    p: int,
    tables: Seq<Seq<u8>>,
    selectors: Seq<int>,
    n: nat,
)
    requires
        n > 0,
        codes_ok(tables, selectors, n),
        0 < selectors.len() < 0x8000,
        bitio::has(b, p, codes_bits(tables, selectors)),
    ensures
        syntax::codes(b, p, n) == Some(
            (tables, selectors, p + codes_bits(tables, selectors).len()),
        ),
{
    let w = bitio::digits(tables.len(), 3);
    let x = bitio::digits(selectors.len(), 15);
    let order = syntax::upto(tables.len());
    let y = selector_bits(order, selectors);
    let z = tables_bits(tables);
    bitio::lemma_has_concat(b, p, w + x + y, z);
    bitio::lemma_has_concat(b, p, w + x, y);
    bitio::lemma_has_concat(b, p, w, x);
    lemma2_to64();
    bitio::lemma_digits_len(tables.len(), 3);
    bitio::lemma_digits_len(selectors.len(), 15);
    bitio::lemma_field_back(b, p, tables.len(), 3);
    bitio::lemma_field_back(b, p + 3, selectors.len(), 15);
    assert(lists_all(order, tables.len())) by {
        assert forall|v: int| 0 <= v < tables.len() implies #[trigger] order.contains(v) by {
            assert(order[v] == v);
        }
    }
    lemma_selectors_back(b, p + 18, order, selectors, tables.len());
    lemma_tables_back(b, p + 18 + y.len(), tables, n);
}

/// Whether one of the flags is set.
pub open spec fn any(flags: Seq<bool>) -> bool {
    exists|i: int| 0 <= i < flags.len() && #[trigger] flags[i]
}

/// One of the sixteen groups of bytes.
pub open spec fn group(present: Seq<bool>, g: int) -> Seq<bool> {
    present.subrange(16 * g, 16 * g + 16)
}

/// Which groups have bytes that are used.
pub open spec fn group_flags(present: Seq<bool>) -> Seq<bool> {
    Seq::new(16, |g: int| any(group(present, g)))
}

/// The bytes used, of the groups from `g` on.
pub open spec fn chart_bits(present: Seq<bool>, g: int) -> Seq<bool>
    decreases 16 - g,
{
    if g >= 16 {
        Seq::empty()
    } else if any(group(present, g)) {
        group(present, g) + chart_bits(present, g + 1)
    } else {
        chart_bits(present, g + 1)
    }
}

pub proof fn lemma_members_concat(x: Seq<bool>, y: Seq<bool>, base: int)
    ensures
        syntax::members(x + y, base) == syntax::members(x, base) + syntax::members(
            y,
            base + x.len(),
        ),
    decreases y.len(),
{
    if y.len() == 0 {
        assert(x + y =~= x);
        assert(syntax::members(x, base) + Seq::<u8>::empty() =~= syntax::members(x, base));
    } else {
        assert((x + y).drop_last() =~= x + y.drop_last());
        lemma_members_concat(x, y.drop_last(), base);
        let a = syntax::members(x, base);
        let c = syntax::members(y.drop_last(), base + x.len());
        let last = (base + x.len() + y.len() - 1) as u8;
        assert((a + c).push(last) =~= a + c.push(last));
    }
}

proof fn lemma_members_none(x: Seq<bool>, base: int)
    requires
        !any(x),
    ensures
        syntax::members(x, base).len() == 0,
    decreases x.len(),
{
    if x.len() > 0 {
        let d = x.drop_last();
        assert(!any(d)) by {
            if any(d) {
                let i = choose|i: int| 0 <= i < d.len() && #[trigger] d[i];
                assert(x[i]);
            }
        }
        assert(!x[x.len() - 1]);
        lemma_members_none(d, base);
    }
}

proof fn lemma_chart_back(b: Seq<bool>, p: int, present: Seq<bool>, g: int)
    requires
        present.len() == 256,
        0 <= g <= 16,
        bitio::has(b, p, chart_bits(present, g)),
    ensures
        syntax::chart(b, group_flags(present), p, g) == Some(
            (
                syntax::members(present.skip(16 * g), 16 * g),
                p + chart_bits(present, g).len(),
            ),
        ),
    decreases 16 - g,
{
    if g < 16 {
        let x = group(present, g);
        assert(present.skip(16 * g) =~= x + present.skip(16 * (g + 1)));
        lemma_members_concat(x, present.skip(16 * (g + 1)), 16 * g);
        if any(x) {
            bitio::lemma_has_concat(b, p, x, chart_bits(present, g + 1));
            lemma_chart_back(b, p + 16, present, g + 1);
        } else {
            lemma_members_none(x, 16 * g);
            lemma_chart_back(b, p, present, g + 1);
            assert(syntax::members(x, 16 * g) + syntax::members(
                present.skip(16 * (g + 1)),
                16 * (g + 1),
            ) =~= syntax::members(present.skip(16 * (g + 1)), 16 * (g + 1)));
        }
    } else {
        assert(present.skip(256) =~= Seq::<bool>::empty());
    }
}

/// The map of the bytes that a block uses.
pub open spec fn map_bits(present: Seq<bool>) -> Seq<bool> {
    group_flags(present) + chart_bits(present, 0)
}

pub proof fn lemma_map_back(b: Seq<bool>, p: int, present: Seq<bool>)
    requires
        present.len() == 256,
        syntax::members(present, 0).len() > 0,
        bitio::has(b, p, map_bits(present)),
    ensures
        syntax::symbol_map(b, p) == Some(
            (syntax::members(present, 0), p + map_bits(present).len()),
        ),
{
    bitio::lemma_has_concat(b, p, group_flags(present), chart_bits(present, 0));
    lemma_chart_back(b, p + 16, present, 0);
    assert(present.skip(0) =~= present);
}

/// A block, its marker before it.
pub open spec fn block_bits(
    check: u32,
    origin: nat,
    present: Seq<bool>,
    tables: Seq<Seq<u8>>,
    selectors: Seq<int>,
    symbols: Seq<int>,
) -> Seq<bool> {
    bitio::digits(0x314159, 24) + bitio::digits(0x265359, 24) + bitio::digits(check as nat, 32)
        + seq![false] + bitio::digits(origin, 24) + map_bits(present) + codes_bits(
        tables,
        selectors,
    ) + body_bits(tables, selectors, 0, symbols)
}

/// Bits that a decoder takes for one block with its marker.
pub open spec fn is_block(w: Seq<bool>, plain: Seq<u8>, limit: nat) -> bool {
    forall|b: Seq<bool>, p: int| #[trigger]
        bitio::has(b, p, w) ==> {
            &&& bitio::field(b, p, 48) == Some((BLOCK_MAGIC as nat, p + 48))
            &&& syntax::block(b, p + 48, limit) == Ok::<(Seq<u8>, u32, int), Error>(
                (plain, crc::crc_of(plain), p + w.len()),
            )
        }
}

/// A block reads back.
#[verifier::spinoff_prover]
#[verifier::rlimit(40)]
pub proof fn lemma_block_back(
    packed: Seq<u8>,
    plain: Seq<u8>,
    last: Seq<u8>,
    origin: nat,
    present: Seq<bool>,
    tables: Seq<Seq<u8>>,
    selectors: Seq<int>,
    symbols: Seq<int>,
    limit: nat,
)
    requires
        syntax::unpacked(packed) == Some(plain),
        0 < packed.len() <= limit,
        limit <= MAX_BLOCK,
        bwt::transformed(packed, last, origin as int),
        present.len() == 256,
        syntax::members(present, 0).len() > 0,
        codes_ok(tables, selectors, syntax::members(present, 0).len() + 2),
        0 < selectors.len() < 0x8000,
        symbols.len() <= 50 * selectors.len(),
        forall|i: int|
            0 <= i < symbols.len() ==> 0 <= #[trigger] symbols[i] < syntax::members(
                present,
                0,
            ).len() + 2,
        fed_all(syntax::fresh(syntax::members(present, 0)), symbols, limit) == Some(last),
    ensures
        is_block(
            block_bits(crc::crc_of(plain), origin, present, tables, selectors, symbols),
            plain,
            limit,
        ),
{
    let check = crc::crc_of(plain);
    let map = syntax::members(present, 0);
    let w = block_bits(check, origin, present, tables, selectors, symbols);
    let m1 = bitio::digits(0x314159, 24);
    let m2 = bitio::digits(0x265359, 24);
    let c = bitio::digits(check as nat, 32);
    let f = seq![false];
    let o = bitio::digits(origin, 24);
    let mb = map_bits(present);
    let cb = codes_bits(tables, selectors);
    let bb = body_bits(tables, selectors, 0, symbols);
    lemma2_to64();
    lemma2_to64_rest();
    bitio::lemma_value_digits(0x314159, 24);
    bitio::lemma_value_digits(0x265359, 24);
    bitio::lemma_value_digits(check as nat, 32);
    bitio::lemma_value_digits(origin, 24);
    bwt::lemma_restored(packed, last, origin as int);
    assert forall|b: Seq<bool>, p: int| #[trigger] bitio::has(b, p, w) implies {
        &&& bitio::field(b, p, 48) == Some((BLOCK_MAGIC as nat, p + 48))
        &&& syntax::block(b, p + 48, limit) == Ok::<(Seq<u8>, u32, int), Error>(
            (plain, check, p + w.len()),
        )
    } by {
        bitio::lemma_has_concat(b, p, m1 + m2 + c + f + o + mb + cb, bb);
        bitio::lemma_has_concat(b, p, m1 + m2 + c + f + o + mb, cb);
        bitio::lemma_has_concat(b, p, m1 + m2 + c + f + o, mb);
        bitio::lemma_has_concat(b, p, m1 + m2 + c + f, o);
        bitio::lemma_has_concat(b, p, m1 + m2 + c, f);
        bitio::lemma_has_concat(b, p, m1 + m2, c);
        bitio::lemma_value_concat(m1, m2);
        assert(bitio::value(m1 + m2) == BLOCK_MAGIC);
        let q = p + 48;
        assert(b.subrange(q + 32, q + 33)[0] == b[q + 32]);
        lemma_map_back(b, q + 57, present);
        lemma_codes_back(b, q + 57 + mb.len(), tables, selectors, map.len() + 2);
        lemma_body_back(
            b,
            q + 57 + mb.len() + cb.len(),
            tables,
            selectors,
            0,
            syntax::fresh(map),
            symbols,
            limit,
            map.len() + 2,
        );
        reveal(syntax::block);
    }
}

/// Bits that a decoder takes for whole blocks: after them it goes on, its
/// checksum being `to` where it was `from`.
pub open spec fn carries(
    w: Seq<bool>,
    plain: Seq<u8>,
    limit: nat,
    from: u32,
    to: u32,
) -> bool {
    forall|b: Seq<bool>, p: int| #[trigger]
        bitio::has(b, p, w) ==> syntax::run(b, p, limit, from) == error::joined(
            plain,
            syntax::run(b, p + w.len(), limit, to),
        )
}

pub proof fn lemma_carries_none(limit: nat)
    ensures
        carries(Seq::empty(), Seq::empty(), limit, 0, 0),
{
    assert forall|b: Seq<bool>, p: int| #[trigger]
        bitio::has(b, p, Seq::<bool>::empty()) implies syntax::run(b, p, limit, 0)
        == error::joined(Seq::empty(), syntax::run(b, p, limit, 0)) by {
        if let Ok(s) = syntax::run(b, p, limit, 0) {
            assert(Seq::<u8>::empty() + s =~= s);
        }
    }
}

/// One more block.
pub proof fn lemma_carries_block(
    w: Seq<bool>,
    plain: Seq<u8>,
    limit: nat,
    check: u32,
    x: Seq<bool>,
    more: Seq<u8>,
)
    requires
        carries(w, plain, limit, 0, check),
        is_block(x, more, limit),
        x.len() > 48,
    ensures
        carries(w + x, plain + more, limit, 0, crc::combined(check, crc::crc_of(more))),
{
    let next = crc::combined(check, crc::crc_of(more));
    assert forall|b: Seq<bool>, p: int| #[trigger] bitio::has(b, p, w + x) implies syntax::run(
        b,
        p,
        limit,
        0,
    ) == error::joined(plain + more, syntax::run(b, p + (w + x).len(), limit, next)) by {
        bitio::lemma_has_concat(b, p, w, x);
        let q = p + w.len();
        let rest = syntax::run(b, q + x.len(), limit, next);
        assert(syntax::run(b, q, limit, check) == error::joined(more, rest));
        if let Ok(s) = rest {
            assert(plain + (more + s) =~= plain + more + s);
        }
    }
}

/// A stream header.
pub open spec fn header_bits(level: nat) -> Seq<bool> {
    bitio::digits(0x425A68, 24) + bitio::digits(0x30 + level, 8)
}

/// The end of a stream.
pub open spec fn end_bits(check: u32) -> Seq<bool> {
    bitio::digits(0x177245, 24) + bitio::digits(0x385090, 24) + bitio::digits(check as nat, 32)
}

/// Bytes that unpack to `plain`, whatever follows them, as long as it does
/// not start with the byte that a short run at their end is made of.
pub open spec fn packs(packed: Seq<u8>, plain: Seq<u8>, tail: Option<u8>) -> bool {
    forall|rest: Seq<u8>|
        (tail matches Some(t) ==> rest.len() == 0 || rest[0] != t) ==> #[trigger] syntax::unpacked(
            packed + rest,
        ) == match syntax::unpacked(rest) {
            None => None,
            Some(more) => Some(plain + more),
        }
}

/// A run of up to 259 equal bytes.
pub open spec fn packed_run(byte: u8, n: nat) -> Seq<u8> {
    if n < 4 {
        crc::run_of(byte, n)
    } else {
        crc::run_of(byte, 4).push((n - 4) as u8)
    }
}

pub proof fn lemma_packs_none()
    ensures
        packs(Seq::empty(), Seq::empty(), None),
{
    assert forall|rest: Seq<u8>| #[trigger] syntax::unpacked(Seq::<u8>::empty() + rest)
        == match syntax::unpacked(rest) {
        None => None,
        Some(more) => Some(Seq::<u8>::empty() + more),
    } by {
        assert(Seq::<u8>::empty() + rest =~= rest);
        if let Some(more) = syntax::unpacked(rest) {
            assert(Seq::<u8>::empty() + more =~= more);
        }
    }
}

/// One run more.
pub proof fn lemma_packs_run(packed: Seq<u8>, plain: Seq<u8>, tail: Option<u8>, byte: u8, n: nat)
    requires
        packs(packed, plain, tail),
        tail != Some(byte),
        0 < n <= 259,
    ensures
        packs(
            packed + packed_run(byte, n),
            plain + crc::run_of(byte, n),
            if n < 4 {
                Some(byte)
            } else {
                None
            },
        ),
{
    let e = packed_run(byte, n);
    let after = if n < 4 {
        Some(byte)
    } else {
        None
    };
    assert forall|rest: Seq<u8>|
        (after matches Some(t) ==> rest.len() == 0 || rest[0] != t) implies
        #[trigger] syntax::unpacked(packed + e + rest) == match syntax::unpacked(rest) {
        None => None,
        Some(more) => Some(plain + crc::run_of(byte, n) + more),
    } by {
        let s = e + rest;
        assert(packed + e + rest =~= packed + s);
        assert(s[0] == byte);
        if n < 4 {
            assert(syntax::lead(s) == n);
            assert(s.skip(n as int) =~= rest);
            assert(s.take(n as int) =~= crc::run_of(byte, n));
        } else {
            assert(s[4] == n - 4);
            assert(syntax::lead(s) == 4);
            assert(s.skip(5) =~= rest);
        }
        if let Some(more) = syntax::unpacked(rest) {
            assert(plain + (crc::run_of(byte, n) + more) =~= plain + crc::run_of(byte, n) + more);
        }
    }
}

/// What unpacks whatever follows unpacks alone.
pub proof fn lemma_packs_alone(packed: Seq<u8>, plain: Seq<u8>, tail: Option<u8>)
    requires
        packs(packed, plain, tail),
    ensures
        syntax::unpacked(packed) == Some(plain),
{
    let none = Seq::<u8>::empty();
    assert(syntax::unpacked(packed + none) == Some(plain + none));
    assert(packed + none =~= packed);
    assert(plain + none =~= plain);
}

} // verus!
