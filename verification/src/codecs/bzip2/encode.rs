//! Encoding.
use crate::codecs::bzip2::bitio;
use crate::codecs::bzip2::bitio::BitWriter;
use crate::codecs::bzip2::bwt;
use crate::codecs::bzip2::bwt::burrows_wheeler;
use crate::codecs::bzip2::crc;
use crate::codecs::bzip2::crc::{combine, Crc};
use crate::codecs::bzip2::join;
use crate::codecs::bzip2::pack;
use crate::codecs::bzip2::plan;
use crate::codecs::bzip2::syntax;
use crate::codecs::bzip2::syntax::{GROUP_SIZE, MAX_BLOCK};
use crate::codecs::lengths;
use crate::codecs::lengths::assign_lengths;
use crate::utils::error::Error;
use vstd::arithmetic::power2::*;
use vstd::prelude::*;

verus! {

/// How often the tables are fitted to the groups that use them.
const REFINE_ROUNDS: usize = 4;

/// The longest code word written.
const MAX_CODE_LEN: usize = 17;

/// The cost that keeps a symbol out of a table at first.
const SEED_HIGH_COST: u8 = 15;

/// The longest run that is written as one.
const MAX_RLE1_RUN: usize = 259;

/// Symbols as numbers.
spec fn ints(v: Seq<u16>) -> Seq<int> {
    Seq::new(v.len(), |i: int| v[i] as int)
}

/// Table numbers as numbers.
spec fn picked(v: Seq<u8>) -> Seq<int> {
    Seq::new(v.len(), |i: int| v[i] as int)
}

/// Tables as sequences.
spec fn rows(v: Seq<Vec<u8>>) -> Seq<Seq<u8>> {
    Seq::new(v.len(), |i: int| v[i]@)
}

proof fn lemma_members(present: Seq<bool>, x: int)
    requires
        present.len() <= 256,
        0 <= x < present.len(),
        present[x],
    ensures
        syntax::members(present, 0).contains(x as u8),
        syntax::members(present, 0).len() <= present.len(),
    decreases present.len(),
{
    lemma_members_len(present);
    let d = present.drop_last();
    let m = syntax::members(present, 0);
    if x == d.len() {
        assert(m[m.len() - 1] == x as u8);
    } else {
        lemma_members(d, x);
        let k = choose|k: int|
            0 <= k < syntax::members(d, 0).len() && syntax::members(d, 0)[k] == x as u8;
        assert(m[k] == x as u8);
    }
}

proof fn lemma_members_len(present: Seq<bool>)
    ensures
        syntax::members(present, 0).len() <= present.len(),
    decreases present.len(),
{
    if present.len() > 0 {
        lemma_members_len(present.drop_last());
    }
}

proof fn lemma_run_digits_len(z: nat)
    ensures
        pack::run_digits(z).len() <= z,
        z > 0 ==> pack::run_digits(z).len() > 0,
        forall|i: int|
            0 <= i < pack::run_digits(z).len() ==> 0 <= #[trigger] pack::run_digits(z)[i] <= 1,
    decreases z,
{
    if z > 0 {
        let y = if z % 2 == 1 {
            ((z - 1) / 2) as nat
        } else {
            ((z - 2) / 2) as nat
        };
        lemma_run_digits_len(y);
    }
}

/// Write a run of the first byte of the list.
fn flush_zero_run(out: &mut Vec<u16>, zeros: usize)
    ensures
        ints(final(out)@) == ints(old(out)@) + pack::run_digits(zeros as nat),
{
    let mut z: usize = zeros;
    let ghost start = ints(out@);
    while z > 0
        invariant
            ints(out@) + pack::run_digits(z as nat) == start + pack::run_digits(zeros as nat),
        decreases z,
    {
        let ghost had = ints(out@);
        if z % 2 == 1 {
            out.push(0);
            z = (z - 1) / 2;
            proof {
                assert(ints(out@) + pack::run_digits(z as nat) =~= had + (seq![0int]
                    + pack::run_digits(z as nat)));
            }
        } else {
            out.push(1);
            z = (z - 2) / 2;
            proof {
                assert(ints(out@) + pack::run_digits(z as nat) =~= had + (seq![1int]
                    + pack::run_digits(z as nat)));
            }
        }
    }
    proof {
        assert(ints(out@) + Seq::<int>::empty() =~= ints(out@));
    }
}

/// Where a byte stands in the list.
fn find(list: &Vec<u8>, byte: u8) -> (r: usize)
    requires
        list@.contains(byte),
    ensures
        r < list.len(),
        list[r as int] == byte,
        r == plan::place_from(list@, byte, 0),
{
    let mut i: usize = 0;
    let ghost k = choose|k: int| 0 <= k < list@.len() && list@[k] == byte;
    while list[i] != byte
        invariant
            i <= k < list.len(),
            list[k] == byte,
            plan::place_from(list@, byte, 0) == plan::place_from(list@, byte, i as int),
        decreases k - i,
    {
        i = i + 1;
    }
    i
}

/// The state of a decoder that has read everything before a pending run.
spec fn midway(list: Seq<u8>, out: Seq<u8>) -> syntax::Mtf {
    syntax::Mtf { list, run: 0, place: 1, out }
}

/// The symbols decode to what they were made of, whatever follows.
spec fn leads(map: Seq<u8>, symbols: Seq<int>, m: syntax::Mtf, limit: nat) -> bool {
    forall|rest: Seq<int>|
        rest.len() > 0 ==> #[trigger] pack::fed_all(syntax::fresh(map), symbols + rest, limit)
            == pack::fed_all(m, rest, limit)
}

/// A run and the symbol after it.
proof fn lemma_leads(
    map: Seq<u8>,
    symbols: Seq<int>,
    m: syntax::Mtf,
    limit: nat,
    zeros: nat,
    s: int,
)
    requires
        leads(map, symbols, m, limit),
        m.place == 1,
        m.run == 0,
        zeros <= MAX_BLOCK,
        m.out.len() + zeros < limit,
        2 <= s <= m.list.len(),
    ensures
        leads(
            map,
            (symbols + pack::run_digits(zeros)).push(s),
            midway(
                syntax::front(m.list, s - 1),
                (m.out + crc::run_of(m.list[0], zeros)).push(m.list[s - 1]),
            ),
            limit,
        ),
{
    let t = (symbols + pack::run_digits(zeros)).push(s);
    let after = midway(
        syntax::front(m.list, s - 1),
        (m.out + crc::run_of(m.list[0], zeros)).push(m.list[s - 1]),
    );
    assert forall|rest: Seq<int>| rest.len() > 0 implies #[trigger] pack::fed_all(
        syntax::fresh(map),
        t + rest,
        limit,
    ) == pack::fed_all(after, rest, limit) by {
        let q = seq![s] + rest;
        assert(t + rest =~= symbols + (pack::run_digits(zeros) + q));
        let n = pack::lemma_run_digits(m, zeros, q, limit);
        assert(n.run == zeros);
        assert(q.skip(1) =~= rest);
        assert(syntax::feed(n, s, limit) == syntax::Fed::More(after));
    }
}

/// The last run and the end.
proof fn lemma_leads_end(
    map: Seq<u8>,
    symbols: Seq<int>,
    m: syntax::Mtf,
    limit: nat,
    zeros: nat,
)
    requires
        leads(map, symbols, m, limit),
        m.place == 1,
        m.run == 0,
        m.list.len() > 0,
        zeros <= MAX_BLOCK,
        m.out.len() + zeros <= limit,
    ensures
        pack::fed_all(
            syntax::fresh(map),
            (symbols + pack::run_digits(zeros)).push(m.list.len() as int + 1),
            limit,
        ) == Some(m.out + crc::run_of(m.list[0], zeros)),
{
    let s = m.list.len() as int + 1;
    let q = seq![s];
    assert((symbols + pack::run_digits(zeros)).push(s) =~= symbols + (pack::run_digits(zeros) + q));
    let n = pack::lemma_run_digits(m, zeros, q, limit);
    assert(n.run == zeros);
}

/// Move-to-front symbols of a last column, and which bytes it uses.
#[verifier::spinoff_prover]
#[verifier::rlimit(60)]
fn move_to_front(last: &Vec<u8>) -> (r: (Vec<u16>, Vec<bool>, usize))
    requires
        0 < last.len() <= MAX_BLOCK,
    ensures
        ({
            let map = syntax::members(r.1@, 0);
            &&& r.1@ == plan::present_in(last@)
            &&& ints(r.0@) == plan::symbols_of(last@)
            &&& r.1.len() == 256
            &&& r.2 == map.len()
            &&& 0 < map.len() <= 256
            &&& 0 < r.0.len() <= last.len() + 1
            &&& forall|i: int| 0 <= i < r.0.len() ==> #[trigger] r.0[i] < map.len() + 2
            &&& forall|limit: nat|
                limit >= last.len() ==> #[trigger] pack::fed_all(
                    syntax::fresh(map),
                    ints(r.0@),
                    limit,
                ) == Some(last@)
        }),
{
    let n: usize = last.len();
    let mut present: Vec<bool> = vec![false; 256];
    let mut i: usize = 0;
    while i < n
        invariant
            i <= n,
            n == last.len(),
            present.len() == 256,
            forall|k: int| 0 <= k < i ==> present[#[trigger] last[k] as int],
            forall|b: int| 0 <= b < 256 && #[trigger] present[b] ==> last@.contains(b as u8),
        decreases n - i,
    {
        assert(last@.contains(last[i as int]));
        present.set(last[i] as usize, true);
        i = i + 1;
    }
    proof {
        assert forall|b: int| 0 <= b < 256 implies #[trigger] present@[b] == last@.contains(
            b as u8,
        ) by {
            if last@.contains(b as u8) {
                let k = choose|k: int| 0 <= k < last@.len() && last@[k] == b as u8;
                assert(present[last[k] as int]);
            }
        }
        assert(present@ =~= plan::present_in(last@));
    }
    let mut list: Vec<u8> = Vec::with_capacity(256);
    i = 0;
    proof {
        assert(present@.take(0) =~= Seq::<bool>::empty());
    }
    while i < 256
        invariant
            i <= 256,
            present.len() == 256,
            list@ == syntax::members(present@.take(i as int), 0),
        decreases 256 - i,
    {
        proof {
            assert(present@.take(i + 1).drop_last() =~= present@.take(i as int));
        }
        if present[i] {
            list.push(i as u8);
        }
        i = i + 1;
    }
    let size: usize = list.len();
    let ghost map = list@;
    proof {
        assert(present@.take(256) =~= present@);
        lemma_members_len(present@);
        assert(present[last[0] as int]);
        lemma_members(present@, last[0] as int);
        assert forall|k: int| 0 <= k < n implies list@.contains(#[trigger] last[k]) by {
            lemma_members(present@, last[k] as int);
        }
    }
    let mut out: Vec<u16> = Vec::new();
    let mut zeros: usize = 0;
    i = 0;
    proof {
        assert(last@.skip(0) =~= last@);
        assert(ints(out@) + plan::symbols_of(last@) =~= plan::symbols_of(last@));
        assert forall|limit: nat| limit >= n implies #[trigger] leads(
            map,
            ints(out@),
            midway(list@, last@.take(0)),
            limit,
        ) by {
            assert(syntax::fresh(map) == midway(list@, last@.take(0))) by {
                assert(last@.take(0) =~= Seq::<u8>::empty());
            }
            assert forall|rest: Seq<int>| rest.len() > 0 implies #[trigger] pack::fed_all(
                syntax::fresh(map),
                ints(out@) + rest,
                limit,
            ) == pack::fed_all(midway(list@, last@.take(0)), rest, limit) by {
                assert(ints(out@) + rest =~= rest);
            }
        }
    }
    while i < n
        invariant
            zeros <= i <= n,
            n == last.len(),
            n <= MAX_BLOCK,
            size == list.len(),
            0 < size <= 256,
            out.len() + zeros <= i,
            forall|k: int| 0 <= k < n ==> list@.contains(#[trigger] last[k]),
            forall|k: int| i - zeros <= k < i ==> #[trigger] last[k] == list[0],
            forall|k: int| 0 <= k < out.len() ==> #[trigger] out[k] < size + 2,
            plan::symbols_of(last@) == ints(out@) + plan::symbols_from(
                list@,
                zeros as nat,
                last@.skip(i as int),
            ),
            forall|limit: nat|
                limit >= n ==> #[trigger] leads(
                    map,
                    ints(out@),
                    midway(list@, last@.take(i - zeros)),
                    limit,
                ),
        decreases n - i,
    {
        let byte: u8 = last[i];
        assert(list@.contains(last[i as int]));
        let index: usize = find(&list, byte);
        assert(last@.skip(i as int).skip(1) =~= last@.skip(i + 1));
        if list[0] == byte {
            zeros = zeros + 1;
        } else {
            let ghost was = out@;
            let ghost before = list@;
            let ghost m = midway(before, last@.take(i - zeros));
            flush_zero_run(&mut out, zeros);
            let ghost flushed = out@;
            let symbol: u16 = index as u16 + 1;
            out.push(symbol);
            let _ = list.remove(index);
            list.insert(0, byte);
            proof {
                lemma_run_digits_len(zeros as nat);
                assert(ints(flushed).len() == flushed.len());
                assert(ints(out@) =~= (ints(was) + pack::run_digits(zeros as nat)).push(
                    symbol as int,
                ));
                assert(list@ =~= syntax::front(before, index as int));
                let more = plan::symbols_from(list@, 0, last@.skip(i + 1));
                assert(ints(was) + (pack::run_digits(zeros as nat).push(symbol as int) + more)
                    =~= ints(out@) + more);
                assert(last@.take(i - zeros) + crc::run_of(before[0], zeros as nat)
                    =~= last@.take(i as int));
                assert(last@.take(i as int).push(byte) =~= last@.take(i + 1));
                assert forall|k: int| 0 <= k < out.len() implies #[trigger] out[k] < size + 2 by {
                    if k < was.len() {
                        assert(ints(out@)[k] == ints(was)[k]);
                        assert(was[k] < size + 2);
                    } else if k < flushed.len() {
                        assert(ints(out@)[k] == pack::run_digits(zeros as nat)[k - was.len()]);
                    }
                }
                assert forall|k: int| 0 <= k < n implies list@.contains(#[trigger] last[k]) by {
                    assert(before.contains(last[k]));
                    let j = choose|j: int| 0 <= j < before.len() && before[j] == last[k];
                    if j == index {
                        assert(list@[0] == last[k]);
                    } else if j < index {
                        assert(list@[j + 1] == last[k]);
                    } else {
                        assert(list@[j] == last[k]);
                    }
                }
                assert forall|limit: nat| limit >= n implies #[trigger] leads(
                    map,
                    ints(out@),
                    midway(list@, last@.take(i + 1)),
                    limit,
                ) by {
                    assert(leads(map, ints(was), m, limit));
                    lemma_leads(map, ints(was), m, limit, zeros as nat, symbol as int);
                }
            }
            zeros = 0;
        }
        i = i + 1;
    }
    let ghost was = out@;
    flush_zero_run(&mut out, zeros);
    let ghost flushed = out@;
    out.push(size as u16 + 1);
    proof {
        lemma_run_digits_len(zeros as nat);
        assert(ints(flushed).len() == flushed.len());
        let m = midway(list@, last@.take(n - zeros));
        assert(last@.skip(n as int).len() == 0);
        assert(ints(was) + pack::run_digits(zeros as nat).push(size + 1) =~= (ints(was)
            + pack::run_digits(zeros as nat)).push(size + 1));
        assert(ints(out@) =~= (ints(was) + pack::run_digits(zeros as nat)).push(size + 1));
        assert(last@.take(n - zeros) + crc::run_of(list@[0], zeros as nat) =~= last@);
        assert forall|k: int| 0 <= k < out.len() implies #[trigger] out[k] < size + 2 by {
            if k < was.len() {
                assert(ints(out@)[k] == ints(was)[k]);
                assert(was[k] < size + 2);
            } else if k < flushed.len() {
                assert(ints(out@)[k] == pack::run_digits(zeros as nat)[k - was.len()]);
            }
        }
        assert forall|limit: nat| limit >= n implies #[trigger] pack::fed_all(
            syntax::fresh(map),
            ints(out@),
            limit,
        ) == Some(last@) by {
            assert(leads(map, ints(was), m, limit));
            lemma_leads_end(map, ints(was), m, limit, zeros as nat);
        }
    }
    (out, present, size)
}

fn table_count(symbols: usize) -> (r: usize)
    ensures
        r == plan::codes_for(symbols as nat),
{
    if symbols < 200 {
        2
    } else if symbols < 600 {
        3
    } else if symbols < 1200 {
        4
    } else if symbols < 2400 {
        5
    } else {
        6
    }
}

/// Tables that each favour some of the symbols.
fn seed_tables(frequencies: &Vec<u32>, alpha_size: usize, count: usize) -> (r: Vec<Vec<u8>>)
    requires
        frequencies.len() == alpha_size,
        alpha_size <= 258,
        2 <= count <= 6,
    ensures
        r.len() == count,
        forall|t: int| 0 <= t < count ==> (#[trigger] r[t]).len() == alpha_size,
        forall|t: int, i: int|
            0 <= t < count && 0 <= i < alpha_size ==> #[trigger] r[t][i] <= SEED_HIGH_COST,
        rows(r@) == plan::seeds_from(
            frequencies@,
            0,
            plan::total_of(frequencies@),
            count as nat,
        ),
{
    let mut total: u64 = 0;
    let mut i: usize = 0;
    let ghost freqs = frequencies@;
    assert(freqs.take(0) =~= Seq::<u32>::empty());
    while i < alpha_size
        invariant
            i <= alpha_size <= 258,
            frequencies.len() == alpha_size,
            freqs == frequencies@,
            total <= 0xffff_ffff * i,
            total == plan::total_of(freqs.take(i as int)),
        decreases alpha_size - i,
    {
        assert(freqs.take(i + 1).drop_last() =~= freqs.take(i as int));
        total = total + frequencies[i] as u64;
        i = i + 1;
    }
    let mut tables: Vec<Vec<u8>> = Vec::with_capacity(count);
    let mut start: usize = 0;
    let mut remaining: u64 = total;
    let ghost all = plan::seeds_from(freqs, 0, total as int, count as nat);
    proof {
        assert(freqs.take(alpha_size as int) =~= freqs);
        assert(rows(tables@) + all =~= all);
    }
    while tables.len() < count
        invariant
            tables.len() <= count,
            freqs == frequencies@,
            all == rows(tables@) + plan::seeds_from(
                freqs,
                start as int,
                remaining as int,
                (count - tables.len()) as nat,
            ),
            count <= 6,
            alpha_size <= 258,
            start <= alpha_size,
            frequencies.len() == alpha_size,
            forall|t: int| 0 <= t < tables.len() ==> (#[trigger] tables[t]).len() == alpha_size,
            forall|t: int, i: int|
                0 <= t < tables.len() && 0 <= i < alpha_size ==> #[trigger] tables[t][i]
                    <= SEED_HIGH_COST,
        decreases count - tables.len(),
    {
        let target: u64 = remaining / ((count - tables.len()) as u64);
        let mut end: usize = start;
        let mut accumulated: u64 = 0;
        while end < alpha_size && (accumulated < target || end == start)
            invariant
                start <= end <= alpha_size <= 258,
                frequencies.len() == alpha_size,
                accumulated <= 0xffff_ffff * (end - start),
                freqs == frequencies@,
                plan::gather(freqs, start as int, start as int, 0, target as int) == plan::gather(
                    freqs,
                    start as int,
                    end as int,
                    accumulated as int,
                    target as int,
                ),
            decreases alpha_size - end,
        {
            accumulated = accumulated + frequencies[end] as u64;
            end = end + 1;
        }
        let mut lens: Vec<u8> = vec![SEED_HIGH_COST; alpha_size];
        let mut k: usize = start;
        while k < end
            invariant
                start <= k <= end <= alpha_size,
                lens.len() == alpha_size,
                forall|i: int|
                    0 <= i < alpha_size ==> #[trigger] lens[i] == if start <= i < k {
                        1
                    } else {
                        SEED_HIGH_COST
                    },
            decreases end - k,
        {
            lens.set(k, 1);
            k = k + 1;
        }
        let ghost had = rows(tables@);
        let ghost one = lens@;
        let ghost was = remaining;
        let ghost left = (count - tables.len()) as nat;
        tables.push(lens);
        remaining = if remaining > accumulated {
            remaining - accumulated
        } else {
            0
        };
        proof {
            assert(one =~= plan::seed(freqs.len(), start as int, end as int));
            assert(rows(tables@) =~= had.push(one));
            let more = plan::seeds_from(freqs, end as int, remaining as int, (left - 1) as nat);
            assert(plan::seeds_from(freqs, start as int, was as int, left) == seq![one] + more);
            assert(had + (seq![one] + more) =~= had.push(one) + more);
        }
        start = end;
    }
    proof {
        assert(rows(tables@) + Seq::<Seq<u8>>::empty() =~= rows(tables@));
    }
    tables
}

/// A code for symbols used that often, with a word for each.
fn complete_lengths(frequencies: &Vec<u32>) -> (r: Vec<u8>)
    requires
        2 <= frequencies.len() <= 258,
    ensures
        r.len() == frequencies.len(),
        pack::code_ok(r@),
        r@ == plan::code_for(frequencies@),
{
    let n: usize = frequencies.len();
    let mut padded: Vec<u32> = Vec::with_capacity(n);
    while padded.len() < n
        invariant
            padded.len() <= n,
            n == frequencies.len(),
            forall|i: int|
                0 <= i < padded.len() ==> #[trigger] padded[i] == if frequencies[i] > 1 {
                    frequencies[i]
                } else {
                    1
                },
        decreases n - padded.len(),
    {
        let f: u32 = frequencies[padded.len()];
        padded.push(
            if f > 1 {
                f
            } else {
                1
            },
        );
    }
    proof {
        lemma2_to64();
        assert(padded[0] > 0);
        lengths::lemma_occurring(padded@);
    }
    let lens: Vec<u8> = assign_lengths(padded.as_slice(), MAX_CODE_LEN);
    proof {
        assert forall|i: int| 0 <= i < lens.len() implies 1 <= #[trigger] lens@[i] <= 17 by {
            assert(padded[i] > 0);
            assert(lens[i] > 0);
            assert(lens[i] <= 17);
        }
        assert(padded@ =~= Seq::new(
            frequencies@.len(),
            |i: int|
                if frequencies@[i] > 1 {
                    frequencies@[i]
                } else {
                    1u32
                },
        ));
    }
    lens
}

/// What some of the symbols cost with a table.
fn cost(symbols: &Vec<u16>, from: usize, to: usize, table: &Vec<u8>) -> (r: u32)
    requires
        from <= to <= symbols.len(),
        to - from <= 50,
        forall|i: int| 0 <= i < symbols.len() ==> #[trigger] symbols[i] < table.len(),
    ensures
        r == plan::cost_of(ints(symbols@).subrange(from as int, to as int), table@),
{
    let mut sum: u32 = 0;
    let mut i: usize = from;
    let ghost all = ints(symbols@);
    while i < to
        invariant
            from <= i <= to <= symbols.len(),
            to - from <= 50,
            forall|i: int| 0 <= i < symbols.len() ==> #[trigger] symbols[i] < table.len(),
            sum <= 255 * (i - from),
            all == ints(symbols@),
            sum == plan::cost_of(all.subrange(from as int, i as int), table@),
        decreases to - i,
    {
        proof {
            assert(all.subrange(from as int, i + 1).drop_last() =~= all.subrange(
                from as int,
                i as int,
            ));
        }
        sum = sum + table[symbols[i] as usize] as u32;
        i = i + 1;
    }
    sum
}

/// Codes for the symbols, and which code each group of them uses.
#[verifier::spinoff_prover]
#[verifier::rlimit(60)]
fn build_tables(symbols: &Vec<u16>, alpha_size: usize) -> (r: (Vec<Vec<u8>>, Vec<u8>))
    requires
        0 < symbols.len() <= MAX_BLOCK + 1,
        2 <= alpha_size <= 258,
        forall|i: int| 0 <= i < symbols.len() ==> #[trigger] symbols[i] < alpha_size,
    ensures
        pack::codes_ok(rows(r.0@), picked(r.1@), alpha_size as nat),
        r.1.len() == (symbols.len() + 49) / 50,
        rows(r.0@) == plan::fitted(ints(symbols@), alpha_size as nat, 4),
        picked(r.1@) == plan::selected(ints(symbols@), alpha_size as nat, 4),
{
    let ghost all = ints(symbols@);
    let count: usize = table_count(symbols.len());
    let groups: usize = (symbols.len() + (GROUP_SIZE - 1)) / GROUP_SIZE;
    let mut frequencies: Vec<u32> = vec![0; alpha_size];
    let mut i: usize = 0;
    while i < symbols.len()
        invariant
            i <= symbols.len() <= MAX_BLOCK + 1,
            frequencies.len() == alpha_size,
            all == ints(symbols@),
            forall|k: int| 0 <= k < symbols.len() ==> #[trigger] symbols[k] < alpha_size,
            forall|k: int|
                0 <= k < alpha_size ==> #[trigger] frequencies[k] == plan::count_of(
                    all.take(i as int),
                    k,
                ),
        decreases symbols.len() - i,
    {
        let s: usize = symbols[i] as usize;
        proof {
            assert(all.take(i + 1).drop_last() =~= all.take(i as int));
            assert(all.take(i + 1).last() == s);
            plan::lemma_count(all.take(i as int), s as int);
        }
        frequencies.set(s, frequencies[s] + 1);
        i = i + 1;
    }
    proof {
        assert(all.take(all.len() as int) =~= all);
        assert(frequencies@ =~= plan::counts_of(all, alpha_size as nat));
    }
    let mut tables: Vec<Vec<u8>> = seed_tables(&frequencies, alpha_size, count);
    let mut selectors: Vec<u8> = vec![0; groups];
    let mut round: usize = 0;
    while round < REFINE_ROUNDS
        invariant
            round <= REFINE_ROUNDS,
            2 <= count <= 6,
            count == plan::codes_for(all.len()),
            2 <= alpha_size <= 258,
            all == ints(symbols@),
            rows(tables@) == plan::fitted(all, alpha_size as nat, round as nat),
            round > 0 ==> picked(selectors@) == plan::selected(
                all,
                alpha_size as nat,
                round as nat,
            ),
            groups == (symbols.len() + 49) / 50,
            0 < symbols.len() <= MAX_BLOCK + 1,
            forall|k: int| 0 <= k < symbols.len() ==> #[trigger] symbols[k] < alpha_size,
            tables.len() == count,
            selectors.len() == groups,
            forall|t: int| 0 <= t < count ==> (#[trigger] tables[t]).len() == alpha_size,
            round > 0 ==> forall|t: int| 0 <= t < count ==> pack::code_ok(#[trigger] tables[t]@),
            forall|g: int| 0 <= g < groups ==> #[trigger] selectors[g] < count,
        decreases REFINE_ROUNDS - round,
    {
        let mut per_table: Vec<Vec<u32>> = Vec::with_capacity(count);
        while per_table.len() < count
            invariant
                per_table.len() <= count,
                forall|t: int|
                    0 <= t < per_table.len() ==> (#[trigger] per_table[t]).len() == alpha_size,
                forall|t: int, k: int|
                    0 <= t < per_table.len() && 0 <= k < alpha_size ==> #[trigger] per_table[t][k]
                        == 0,
            decreases count - per_table.len(),
        {
            let zeros: Vec<u32> = vec![0; alpha_size];
            per_table.push(zeros);
        }
        let ghost ts = rows(tables@);
        let ghost want = plan::chosen(ts, all);
        let mut g: usize = 0;
        while g < groups
            invariant
                g <= groups,
                2 <= count <= 6,
                all == ints(symbols@),
                ts == rows(tables@),
                want == plan::chosen(ts, all),
                forall|j: int| 0 <= j < g ==> #[trigger] selectors[j] == want[j],
                forall|t: int, k: int|
                    0 <= t < count && 0 <= k < alpha_size ==> #[trigger] per_table[t][k]
                        == plan::used_by(all, want, t, g as int, k),
                groups == (symbols.len() + 49) / 50,
                0 < symbols.len() <= MAX_BLOCK + 1,
                forall|k: int| 0 <= k < symbols.len() ==> #[trigger] symbols[k] < alpha_size,
                tables.len() == count,
                selectors.len() == groups,
                per_table.len() == count,
                forall|t: int| 0 <= t < count ==> (#[trigger] tables[t]).len() == alpha_size,
                forall|t: int| 0 <= t < count ==> (#[trigger] per_table[t]).len() == alpha_size,
                forall|t: int, k: int|
                    0 <= t < count && 0 <= k < alpha_size ==> #[trigger] per_table[t][k] <= 50 * g,
                forall|g: int| 0 <= g < groups ==> #[trigger] selectors[g] < count,
            decreases groups - g,
        {
            let from: usize = GROUP_SIZE * g;
            let to: usize = if symbols.len() - from < GROUP_SIZE {
                symbols.len()
            } else {
                from + GROUP_SIZE
            };
            let ghost part = plan::group_of(all, g as int);
            let mut best: usize = 0;
            let mut least: u32 = cost(symbols, from, to, &tables[0]);
            let mut t: usize = 1;
            while t < count
                invariant
                    1 <= t <= count,
                    best < count,
                    all == ints(symbols@),
                    ts == rows(tables@),
                    part == all.subrange(from as int, to as int),
                    best == plan::best_of(part, ts, t as int),
                    least == plan::cost_of(part, ts[best as int]),
                    from <= to <= symbols.len(),
                    to - from <= 50,
                    tables.len() == count,
                    forall|k: int| 0 <= k < symbols.len() ==> #[trigger] symbols[k] < alpha_size,
                    forall|t: int| 0 <= t < count ==> (#[trigger] tables[t]).len() == alpha_size,
                decreases count - t,
            {
                let c: u32 = cost(symbols, from, to, &tables[t]);
                if c < least {
                    least = c;
                    best = t;
                }
                t = t + 1;
            }
            selectors.set(g, best as u8);
            let ghost before = per_table@;
            let mut counts: Vec<u32> = Vec::new();
            std::mem::swap(&mut counts, &mut per_table[best]);
            let mut k: usize = from;
            while k < to
                invariant
                    from <= k <= to <= symbols.len(),
                    to - from <= 50,
                    from == 50 * g,
                    symbols.len() <= MAX_BLOCK + 1,
                    counts.len() == alpha_size,
                    all == ints(symbols@),
                    forall|k: int| 0 <= k < symbols.len() ==> #[trigger] symbols[k] < alpha_size,
                    forall|j: int| 0 <= j < alpha_size ==> #[trigger] counts[j] <= k,
                    forall|j: int|
                        0 <= j < alpha_size ==> #[trigger] counts[j] == before[best as int][j]
                            + plan::count_of(all.subrange(from as int, k as int), j),
                decreases to - k,
            {
                let s: usize = symbols[k] as usize;
                proof {
                    let w = all.subrange(from as int, k + 1);
                    assert(w.drop_last() =~= all.subrange(from as int, k as int));
                    assert(w.last() == s);
                }
                counts.set(s, counts[s] + 1);
                k = k + 1;
            }
            std::mem::swap(&mut counts, &mut per_table[best]);
            proof {
                assert(want[g as int] == best);
                assert forall|t: int, k: int| 0 <= t < count && 0 <= k < alpha_size implies #[trigger]
                    per_table[t][k] == plan::used_by(all, want, t, g + 1, k) by {
                    assert(before[t][k] == plan::used_by(all, want, t, g as int, k));
                }
            }
            g = g + 1;
        }
        proof {
            assert(picked(selectors@) =~= want);
        }
        let mut next: Vec<Vec<u8>> = Vec::with_capacity(count);
        while next.len() < count
            invariant
                next.len() <= count,
                2 <= alpha_size <= 258,
                per_table.len() == count,
                groups == want.len(),
                forall|t: int| 0 <= t < count ==> (#[trigger] per_table[t]).len() == alpha_size,
                forall|t: int, k: int|
                    0 <= t < count && 0 <= k < alpha_size ==> #[trigger] per_table[t][k]
                        == plan::used_by(all, want, t, groups as int, k),
                forall|t: int| 0 <= t < next.len() ==> (#[trigger] next[t]).len() == alpha_size,
                forall|t: int| 0 <= t < next.len() ==> pack::code_ok(#[trigger] next[t]@),
                forall|t: int|
                    0 <= t < next.len() ==> (#[trigger] next[t])@ == plan::refitted(
                        all,
                        want,
                        alpha_size as nat,
                        t,
                    ),
            decreases count - next.len(),
        {
            let lens: Vec<u8> = complete_lengths(&per_table[next.len()]);
            proof {
                let t = next.len() as int;
                assert(per_table[t]@ =~= Seq::new(
                    alpha_size as nat,
                    |s: int| plan::used_by(all, want, t, want.len() as int, s) as u32,
                )) by {
                    assert forall|k: int| 0 <= k < alpha_size implies #[trigger] per_table[t]@[k]
                        == plan::used_by(all, want, t, want.len() as int, k) as u32 by {
                        assert(per_table[t][k] == plan::used_by(all, want, t, groups as int, k));
                    }
                }
            }
            next.push(lens);
        }
        tables = next;
        proof {
            assert(rows(tables@) =~= plan::fitted(all, alpha_size as nat, (round + 1) as nat));
        }
        round = round + 1;
    }
    proof {
        let ts = rows(tables@);
        assert forall|t: int| 0 <= t < ts.len() implies pack::code_ok(#[trigger] ts[t])
            && ts[t].len() == alpha_size by {
            assert(ts[t] == tables[t]@);
        }
    }
    (tables, selectors)
}

/// The code words of a code.
#[verifier::spinoff_prover]
fn canonical_codes(lens: &Vec<u8>) -> (r: Vec<u32>)
    requires
        pack::code_ok(lens@),
    ensures
        r.len() == lens.len(),
        forall|s: int| 0 <= s < r.len() ==> #[trigger] r[s] == pack::code_of(lens@, s),
{
    let n: usize = lens.len();
    let ghost d = lens@;
    let mut count: Vec<u32> = vec![0; 18];
    let mut i: usize = 0;
    proof {
        lemma2_to64();
        assert forall|l: int| 0 <= l <= 17 implies lengths::cnt(#[trigger] d.take(0), l) == 0 by {}
    }
    while i < n
        invariant
            i <= n,
            n == lens.len(),
            d == lens@,
            pack::code_ok(d),
            count.len() == 18,
            forall|l: int|
                0 <= l <= 17 ==> #[trigger] count[l] == lengths::cnt(d.take(i as int), l),
        decreases n - i,
    {
        let l: usize = lens[i] as usize;
        proof {
            assert(d.take(i + 1).drop_last() =~= d.take(i as int));
            pack::lemma_code_fits(d, i as int);
            lengths::lemma_kraft_bound(d, l as int, 17);
            lemma2_to64();
            if l < 17 {
                lemma_pow2_strictly_increases(l as nat, 17);
            }
        }
        count.set(l, count[l] + 1);
        i = i + 1;
    }
    let mut next: Vec<u32> = vec![0, 0];
    let mut l: usize = 2;
    proof {
        assert(d.take(n as int) =~= d);
        lengths::lemma_kraft_zero(d);
    }
    while l <= 17
        invariant
            2 <= l <= 18,
            next.len() == l,
            count.len() == 18,
            pack::code_ok(d),
            forall|l: int| 0 <= l <= 17 ==> #[trigger] count[l] == lengths::cnt(d, l),
            forall|m: int| 1 <= m < l ==> #[trigger] next[m] == syntax::first_code(d, m),
        decreases 18 - l,
    {
        proof {
            lengths::lemma_kraft_step(d, l - 1);
            lengths::lemma_kraft_bound(d, l - 1, 17);
            lemma2_to64();
            lemma_pow2_strictly_increases((l - 1) as nat, 17);
        }
        let v: u32 = 2 * (next[l - 1] + count[l - 1]);
        next.push(v);
        l = l + 1;
    }
    let mut codes: Vec<u32> = Vec::with_capacity(n);
    i = 0;
    while i < n
        invariant
            i <= n,
            n == lens.len(),
            d == lens@,
            pack::code_ok(d),
            next.len() == 18,
            codes.len() == i,
            forall|m: int|
                1 <= m <= 17 ==> #[trigger] next[m] == syntax::first_code(d, m) + lengths::cnt(
                    d.take(i as int),
                    m,
                ),
            forall|s: int| 0 <= s < i ==> #[trigger] codes[s] == pack::code_of(d, s),
        decreases n - i,
    {
        let l: usize = lens[i] as usize;
        proof {
            assert(d.take(i + 1).drop_last() =~= d.take(i as int));
            pack::lemma_code_fits(d, i as int);
            lemma2_to64();
            if l < 17 {
                lemma_pow2_strictly_increases(l as nat, 17);
            }
        }
        codes.push(next[l]);
        next.set(l, next[l] + 1);
        i = i + 1;
    }
    codes
}

/// Write sixteen flags.
fn write_flags(w: &mut BitWriter, flags: &Vec<bool>, from: usize)
    requires
        old(w).wf(),
        from + 16 <= flags.len(),
    ensures
        final(w).wf(),
        final(w).before() == old(w).before(),
        final(w).bits() == old(w).bits() + flags@.subrange(from as int, from + 16),
{
    let mut i: usize = 0;
    proof {
        assert(w.bits() + flags@.subrange(from as int, from as int) =~= w.bits());
    }
    while i < 16
        invariant
            i <= 16,
            from + 16 <= flags.len(),
            w.wf(),
            w.before() == old(w).before(),
            w.bits() == old(w).bits() + flags@.subrange(from as int, from + i),
        decreases 16 - i,
    {
        w.put_bit(flags[from + i]);
        i = i + 1;
        proof {
            assert(w.bits() =~= old(w).bits() + flags@.subrange(from as int, from + i));
        }
    }
}

/// Write which bytes are used.
#[verifier::spinoff_prover]
fn write_symbol_map(w: &mut BitWriter, present: &Vec<bool>)
    requires
        old(w).wf(),
        present.len() == 256,
    ensures
        final(w).wf(),
        final(w).before() == old(w).before(),
        final(w).bits() == old(w).bits() + pack::map_bits(present@),
{
    let mut groups: Vec<bool> = Vec::with_capacity(16);
    while groups.len() < 16
        invariant
            groups.len() <= 16,
            present.len() == 256,
            forall|g: int|
                0 <= g < groups.len() ==> #[trigger] groups[g] == pack::any(
                    pack::group(present@, g),
                ),
        decreases 16 - groups.len(),
    {
        let from: usize = 16 * groups.len();
        let ghost flags = pack::group(present@, groups.len() as int);
        let mut any: bool = false;
        let mut i: usize = 0;
        while i < 16
            invariant
                i <= 16,
                from + 16 <= 256,
                present.len() == 256,
                flags == present@.subrange(from as int, from + 16),
                any ==> pack::any(flags),
                !any ==> forall|k: int| 0 <= k < i ==> !#[trigger] flags[k],
            decreases 16 - i,
        {
            assert(flags[i as int] == present[from + i]);
            if present[from + i] {
                any = true;
            }
            i = i + 1;
        }
        groups.push(any);
    }
    write_flags(w, &groups, 0);
    let ghost start = w.bits();
    proof {
        assert(groups@.subrange(0, 16) =~= pack::group_flags(present@));
    }
    let mut g: usize = 0;
    while g < 16
        invariant
            g <= 16,
            present.len() == 256,
            groups.len() == 16,
            forall|g: int|
                0 <= g < 16 ==> #[trigger] groups[g] == pack::any(pack::group(present@, g)),
            w.wf(),
            w.before() == old(w).before(),
            w.bits() + pack::chart_bits(present@, g as int) == start + pack::chart_bits(
                present@,
                0,
            ),
        decreases 16 - g,
    {
        let ghost had = w.bits();
        assert(groups[g as int] == pack::any(pack::group(present@, g as int)));
        if groups[g] {
            write_flags(w, present, 16 * g);
            proof {
                let rest = pack::chart_bits(present@, g + 1);
                assert(w.bits() + rest =~= had + (pack::group(present@, g as int) + rest));
            }
        }
        g = g + 1;
    }
    proof {
        assert(w.bits() + Seq::<bool>::empty() =~= w.bits());
        assert(start + pack::chart_bits(present@, 0) =~= old(w).bits() + pack::map_bits(present@));
    }
}

/// Write which table each group uses.
#[verifier::spinoff_prover]
fn write_selectors(w: &mut BitWriter, selectors: &Vec<u8>, count: usize)
    requires
        old(w).wf(),
        2 <= count <= 6,
        forall|g: int| 0 <= g < selectors.len() ==> #[trigger] selectors[g] < count,
    ensures
        final(w).wf(),
        final(w).before() == old(w).before(),
        final(w).bits() == old(w).bits() + pack::selector_bits(
            syntax::upto(count as nat),
            picked(selectors@),
        ),
{
    let ghost start = w.bits();
    let ghost all = picked(selectors@);
    let mut order: Vec<u8> = Vec::with_capacity(6);
    while order.len() < count
        invariant
            order.len() <= count <= 6,
            forall|k: int| 0 <= k < order.len() ==> #[trigger] order[k] == k,
        decreases count - order.len(),
    {
        order.push(order.len() as u8);
    }
    proof {
        assert(picked(order@) =~= syntax::upto(count as nat));
        assert(pack::lists_all(picked(order@), count as nat)) by {
            assert forall|v: int| 0 <= v < count implies #[trigger] picked(order@).contains(v) by {
                assert(picked(order@)[v] == v);
            }
        }
        assert(all.skip(0) =~= all);
    }
    let mut i: usize = 0;
    while i < selectors.len()
        invariant
            i <= selectors.len(),
            2 <= count <= 6,
            all == picked(selectors@),
            forall|g: int| 0 <= g < selectors.len() ==> #[trigger] selectors[g] < count,
            w.wf(),
            w.before() == old(w).before(),
            pack::lists_all(picked(order@), count as nat),
            w.bits() + pack::selector_bits(picked(order@), all.skip(i as int)) == start
                + pack::selector_bits(syntax::upto(count as nat), all),
        decreases selectors.len() - i,
    {
        let ghost o = picked(order@);
        let ghost had = w.bits();
        let ghost before = order@;
        let x: u8 = selectors[i];
        let ghost place = pack::place_of(o, x as int, 0);
        proof {
            pack::lemma_place_in(o, count as nat, x as int);
            assert(had + pack::unary_bits(place as nat) =~= had + pack::unary_bits(place as nat));
        }
        let mut j: usize = 0;
        while order[j] != x
            invariant
                j <= place < order.len(),
                order@ == before,
                o == picked(before),
                place == pack::place_of(o, x as int, 0),
                place == pack::place_of(o, x as int, j as int),
                o[place] == x,
                w.wf(),
                w.before() == old(w).before(),
                w.bits() + pack::unary_bits((place - j) as nat) == had + pack::unary_bits(
                    place as nat,
                ),
            decreases place - j,
        {
            assert(o[j as int] == order[j as int]);
            let ghost mid = w.bits();
            w.put_bit(true);
            proof {
                let rest = pack::unary_bits((place - j - 1) as nat);
                assert(w.bits() + rest =~= mid + (seq![true] + rest));
            }
            j = j + 1;
        }
        proof {
            assert(o[j as int] == order[j as int]);
            assert(place == j);
        }
        let ghost mid = w.bits();
        w.put_bit(false);
        let p: u8 = order.remove(j);
        order.insert(0, p);
        proof {
            assert(w.bits() =~= mid + seq![false]);
            assert(picked(order@) =~= syntax::front(o, j as int));
            pack::lemma_front_lists(o, count as nat, j as int);
            assert(all.skip(i as int)[0] == x);
            assert(all.skip(i as int).skip(1) =~= all.skip(i + 1));
            let rest = pack::selector_bits(picked(order@), all.skip(i + 1));
            assert(w.bits() + rest =~= had + (pack::unary_bits(place as nat) + rest));
        }
        i = i + 1;
    }
    proof {
        assert(all.skip(i as int).len() == 0);
        assert(w.bits() + Seq::<bool>::empty() =~= w.bits());
    }
}

/// Write the code lengths of one table.
#[verifier::spinoff_prover]
fn write_lengths(w: &mut BitWriter, lens: &Vec<u8>)
    requires
        old(w).wf(),
        lens.len() > 0,
        forall|i: int| 0 <= i < lens.len() ==> 1 <= #[trigger] lens[i] <= 17,
    ensures
        final(w).wf(),
        final(w).before() == old(w).before(),
        final(w).bits() == old(w).bits() + (bitio::digits(lens@[0] as nat, 5)
            + pack::lengths_bits(lens@[0] as int, lens@)),
{
    let mut current: u32 = lens[0] as u32;
    proof {
        lemma2_to64();
    }
    w.put(current, 5);
    let ghost start = w.bits();
    let mut i: usize = 0;
    proof {
        assert(lens@.skip(0) =~= lens@);
    }
    while i < lens.len()
        invariant
            i <= lens.len(),
            1 <= current <= 17,
            forall|i: int| 0 <= i < lens.len() ==> 1 <= #[trigger] lens[i] <= 17,
            w.wf(),
            w.before() == old(w).before(),
            w.bits() + pack::lengths_bits(current as int, lens@.skip(i as int)) == start
                + pack::lengths_bits(lens@[0] as int, lens@),
        decreases lens.len() - i,
    {
        let want: u32 = lens[i] as u32;
        let ghost had = w.bits();
        let ghost from = current as int;
        let ghost whole = pack::length_bits(from, want as int);
        while current != want
            invariant
                1 <= current <= 17,
                1 <= want <= 17,
                w.wf(),
                w.before() == old(w).before(),
                w.bits() + pack::length_bits(current as int, want as int) == had + whole,
            decreases (if current < want {
                want - current
            } else {
                current - want
            }),
        {
            let ghost mid = w.bits();
            let up: bool = current < want;
            w.put_bit(true);
            w.put_bit(!up);
            current = if up {
                current + 1
            } else {
                current - 1
            };
            proof {
                let rest = pack::length_bits(current as int, want as int);
                assert(w.bits() + rest =~= mid + (seq![true, !up] + rest));
            }
        }
        let ghost mid = w.bits();
        w.put_bit(false);
        proof {
            assert(w.bits() =~= mid + seq![false]);
            assert(w.bits() == had + whole);
            assert(lens@.skip(i as int)[0] == want);
            assert(lens@.skip(i as int).skip(1) =~= lens@.skip(i + 1));
            let rest = pack::lengths_bits(want as int, lens@.skip(i + 1));
            assert(w.bits() + rest =~= had + (whole + rest));
        }
        i = i + 1;
    }
    proof {
        assert(lens@.skip(i as int).len() == 0);
        assert(w.bits() + Seq::<bool>::empty() =~= w.bits());
        let a = old(w).bits();
        let b = bitio::digits(lens@[0] as nat, 5);
        let c = pack::lengths_bits(lens@[0] as int, lens@);
        assert(a + b + c =~= a + (b + c));
    }
}

/// Write the tables and which group uses which.
#[verifier::spinoff_prover]
fn write_tables(w: &mut BitWriter, tables: &Vec<Vec<u8>>, selectors: &Vec<u8>, alpha_size: usize)
    requires
        old(w).wf(),
        alpha_size > 0,
        pack::codes_ok(rows(tables@), picked(selectors@), alpha_size as nat),
        selectors.len() < 0x8000,
    ensures
        final(w).wf(),
        final(w).before() == old(w).before(),
        final(w).bits() == old(w).bits() + pack::codes_bits(rows(tables@), picked(selectors@)),
{
    let ghost ts = rows(tables@);
    let ghost ss = picked(selectors@);
    let ghost a = w.bits();
    proof {
        lemma2_to64();
        assert forall|g: int| 0 <= g < selectors.len() implies #[trigger] selectors[g]
            < tables.len() by {
            assert(ss[g] == selectors[g]);
        }
    }
    w.put(tables.len() as u32, 3);
    w.put(selectors.len() as u32, 15);
    write_selectors(w, selectors, tables.len());
    let ghost start = w.bits();
    let mut t: usize = 0;
    proof {
        assert(ts.skip(0) =~= ts);
    }
    while t < tables.len()
        invariant
            t <= tables.len(),
            alpha_size > 0,
            ts == rows(tables@),
            pack::codes_ok(ts, ss, alpha_size as nat),
            w.wf(),
            w.before() == old(w).before(),
            w.bits() + pack::tables_bits(ts.skip(t as int)) == start + pack::tables_bits(ts),
        decreases tables.len() - t,
    {
        let ghost had = w.bits();
        proof {
            assert(ts[t as int] == tables[t as int]@);
            assert(pack::code_ok(ts[t as int]) && ts[t as int].len() == alpha_size);
            assert forall|i: int| 0 <= i < tables[t as int].len() implies 1
                <= #[trigger] tables[t as int][i] <= 17 by {
                assert(ts[t as int][i] == tables[t as int]@[i]);
            }
        }
        write_lengths(w, &tables[t]);
        proof {
            assert(ts.skip(t as int)[0] == ts[t as int]);
            assert(ts.skip(t as int).skip(1) =~= ts.skip(t + 1));
            let rest = pack::tables_bits(ts.skip(t + 1));
            let one = ts[t as int];
            let x = bitio::digits(one[0] as nat, 5) + pack::lengths_bits(one[0] as int, one);
            assert(w.bits() + rest =~= had + (x + rest));
        }
        t = t + 1;
    }
    proof {
        assert(ts.skip(t as int).len() == 0);
        assert(w.bits() + Seq::<bool>::empty() =~= w.bits());
        let b = bitio::digits(ts.len(), 3);
        let c = bitio::digits(ss.len(), 15);
        let d = pack::selector_bits(syntax::upto(ts.len()), ss);
        let e = pack::tables_bits(ts);
        assert(a + b + c + d + e =~= a + (b + c + d + e));
    }
}

/// Write the symbols, each in the code of its group.
#[verifier::spinoff_prover]
fn write_symbols(
    w: &mut BitWriter,
    symbols: &Vec<u16>,
    tables: &Vec<Vec<u8>>,
    selectors: &Vec<u8>,
    alpha_size: usize,
)
    requires
        old(w).wf(),
        pack::codes_ok(rows(tables@), picked(selectors@), alpha_size as nat),
        symbols.len() <= 50 * selectors.len(),
        forall|i: int| 0 <= i < symbols.len() ==> #[trigger] symbols[i] < alpha_size,
    ensures
        final(w).wf(),
        final(w).before() == old(w).before(),
        final(w).bits() == old(w).bits() + pack::body_bits(
            rows(tables@),
            picked(selectors@),
            0,
            ints(symbols@),
        ),
{
    let ghost ts = rows(tables@);
    let ghost ss = picked(selectors@);
    let ghost all = ints(symbols@);
    let ghost start = w.bits();
    let mut codes: Vec<Vec<u32>> = Vec::with_capacity(tables.len());
    while codes.len() < tables.len()
        invariant
            codes.len() <= tables.len(),
            ts == rows(tables@),
            pack::codes_ok(ts, ss, alpha_size as nat),
            forall|t: int| 0 <= t < codes.len() ==> (#[trigger] codes[t]).len() == alpha_size,
            forall|t: int, s: int|
                0 <= t < codes.len() && 0 <= s < alpha_size ==> #[trigger] codes[t][s]
                    == pack::code_of(ts[t], s),
        decreases tables.len() - codes.len(),
    {
        assert(ts[codes.len() as int] == tables[codes.len() as int]@);
        let c: Vec<u32> = canonical_codes(&tables[codes.len()]);
        codes.push(c);
    }
    let mut i: usize = 0;
    proof {
        assert(all.skip(0) =~= all);
    }
    while i < symbols.len()
        invariant
            i <= symbols.len(),
            symbols.len() <= 50 * selectors.len(),
            ts == rows(tables@),
            ss == picked(selectors@),
            all == ints(symbols@),
            pack::codes_ok(ts, ss, alpha_size as nat),
            forall|i: int| 0 <= i < symbols.len() ==> #[trigger] symbols[i] < alpha_size,
            codes.len() == tables.len(),
            forall|t: int| 0 <= t < codes.len() ==> (#[trigger] codes[t]).len() == alpha_size,
            forall|t: int, s: int|
                0 <= t < codes.len() && 0 <= s < alpha_size ==> #[trigger] codes[t][s]
                    == pack::code_of(ts[t], s),
            w.wf(),
            w.before() == old(w).before(),
            w.bits() + pack::body_bits(ts, ss, i as nat, all.skip(i as int)) == start
                + pack::body_bits(ts, ss, 0, all),
        decreases symbols.len() - i,
    {
        let ghost had = w.bits();
        let g: usize = i / GROUP_SIZE;
        let t: usize = selectors[g] as usize;
        let s: usize = symbols[i] as usize;
        proof {
            assert(ss[g as int] == t);
            assert(ts[t as int] == tables[t as int]@);
            assert(pack::code_ok(ts[t as int]));
            pack::lemma_code_fits(ts[t as int], s as int);
            assert(codes[t as int][s as int] == pack::code_of(ts[t as int], s as int));
        }
        let length: u32 = tables[t][s] as u32;
        let code: u32 = codes[t][s];
        w.put(code, length);
        proof {
            assert(all.skip(i as int)[0] == s);
            assert(all.skip(i as int).skip(1) =~= all.skip(i + 1));
            let rest = pack::body_bits(ts, ss, (i + 1) as nat, all.skip(i + 1));
            assert(w.bits() + rest =~= had + (pack::word(ts[t as int], s as int) + rest));
        }
        i = i + 1;
    }
    proof {
        assert(all.skip(i as int).len() == 0);
        assert(w.bits() + Seq::<bool>::empty() =~= w.bits());
    }
}

/// Write a block with its marker.
#[verifier::spinoff_prover]
#[verifier::rlimit(60)]
fn write_whole(w: &mut BitWriter, block: &Vec<u8>, check: u32, Ghost(plain): Ghost<Seq<u8>>, Ghost(
    limit,
): Ghost<nat>) -> (r: (Ghost<Seq<bool>>, Ghost<(Seq<u8>, int)>))
    requires
        old(w).wf(),
        0 < block.len() <= limit,
        limit <= MAX_BLOCK,
        syntax::unpacked(block@) == Some(plain),
        check == crc::crc_of(plain),
    ensures
        final(w).wf(),
        final(w).before() == old(w).before(),
        final(w).bits() == old(w).bits() + r.0@,
        pack::is_block(r.0@, plain, limit),
        r.0@.len() > 48,
        bwt::transformed(block@, r.1@.0, r.1@.1),
        r.0@ == plan::column_bits(check, r.1@.0, r.1@.1),
{
    let ghost a = w.bits();
    let (last, origin) = burrows_wheeler(block.as_slice());
    let (symbols, present, size) = move_to_front(&last);
    let alpha_size: usize = size + 2;
    proof {
        lemma2_to64();
        lemma2_to64_rest();
    }
    w.put(0x314159, 24);
    w.put(0x265359, 24);
    w.put(check, 32);
    w.put_bit(false);
    w.put(origin as u32, 24);
    write_symbol_map(w, &present);
    let (tables, selectors) = build_tables(&symbols, alpha_size);
    write_tables(w, &tables, &selectors, alpha_size);
    write_symbols(w, &symbols, &tables, &selectors, alpha_size);
    let ghost x = pack::block_bits(
        check,
        origin as nat,
        present@,
        rows(tables@),
        picked(selectors@),
        ints(symbols@),
    );
    proof {
        let all = ints(symbols@);
        let map = syntax::members(present@, 0);
        assert forall|i: int| 0 <= i < all.len() implies 0 <= #[trigger] all[i] < map.len() + 2 by {
            assert(all[i] == symbols[i]);
        }
        pack::lemma_block_back(
            block@,
            plain,
            last@,
            origin as nat,
            present@,
            rows(tables@),
            picked(selectors@),
            all,
            limit,
        );
        let m1 = bitio::digits(0x314159, 24);
        let m2 = bitio::digits(0x265359, 24);
        let c = bitio::digits(check as nat, 32);
        let f = seq![false];
        let o = bitio::digits(origin as nat, 24);
        let mb = pack::map_bits(present@);
        let cb = pack::codes_bits(rows(tables@), picked(selectors@));
        let bb = pack::body_bits(rows(tables@), picked(selectors@), 0, all);
        bitio::lemma_digits_len(0x314159, 24);
        bitio::lemma_digits_len(0x265359, 24);
        assert((a + m1 + m2 + c).push(false) =~= a + m1 + m2 + c + f);
        assert(a + m1 + m2 + c + f + o + mb + cb + bb =~= a + (m1 + m2 + c + f + o + mb + cb
            + bb));
    }
    (Ghost(x), Ghost((last@, origin as int)))
}

/// What starts with a sequence and one byte more.
proof fn lemma_prefix(had: Seq<u8>, byte: u8, d: Seq<u8>)
    requires
        had.push(byte).is_prefix_of(d),
    ensures
        had.is_prefix_of(d),
        d.len() > had.len(),
        d[had.len() as int] == byte,
{
    let n = had.len() as int;
    assert(had.push(byte)[n] == d.take(n + 1)[n]);
    assert(had =~= d.take(n)) by {
        assert forall|i: int| 0 <= i < n implies had[i] == d[i] by {
            assert(had.push(byte)[i] == d.take(n + 1)[i]);
        }
    }
}

/// What starts with a longer sequence starts with the shorter one.
proof fn lemma_longer(had: Seq<u8>, byte: u8, taken: Seq<u8>, d: Seq<u8>)
    requires
        taken.is_prefix_of(d),
        had.is_prefix_of(taken),
        taken.len() > had.len(),
        taken[had.len() as int] == byte,
    ensures
        had.push(byte).is_prefix_of(d),
{
    let n = had.len() as int;
    assert(had.push(byte) =~= d.take(n + 1)) by {
        assert forall|i: int| 0 <= i <= n implies had.push(byte)[i] == d[i] by {
            assert(taken[i] == d.take(taken.len() as int)[i]);
            if i < n {
                assert(had[i] == taken.take(n)[i]);
            }
        }
    }
}

/// Writes bzip2 data.
pub struct Bzip2Encoder {
    out: BitWriter,
    start: usize,
    level: u8,
    block_max: usize,
    block: Vec<u8>,
    run_byte: u8,
    run_len: usize,
    block_crc: Crc,
    stream_crc: u32,
    header_written: bool,
    written: Ghost<Seq<bool>>,
    finished: Ghost<Seq<u8>>,
    plain: Ghost<Seq<u8>>,
    tail: Ghost<Option<u8>>,
    pieces: Ghost<Seq<plan::Piece>>,
    turns: Ghost<Seq<(Seq<u8>, int)>>,
}

impl Bzip2Encoder {
    /// What was in the output before.
    pub closed spec fn before(&self) -> Seq<u8> {
        self.out.before()
    }

    /// Everything taken so far.
    pub closed spec fn taken(&self) -> Seq<u8> {
        self.finished@ + self.plain@ + crc::run_of(self.run_byte, self.run_len as nat)
    }

    /// The level that blocks are made for.
    pub closed spec fn made_for(&self) -> nat {
        self.level as nat
    }

    spec fn limit(&self) -> nat {
        self.level as nat * 100_000
    }

    /// What was written and what is held stand for what was taken.
    pub closed spec fn wf(&self) -> bool {
        &&& self.holds()
        &&& self.run_len == 0 ==> self.tail@ is None
        &&& forall|d: Seq<u8>| self.taken().is_prefix_of(d) ==> #[trigger] self.cuts(d)
    }

    /// The blocks of `d` are those written, and then those that start with
    /// what is held.
    spec fn cuts(&self, d: Seq<u8>) -> bool {
        let from = self.finished@.len() as int;
        let most = self.block_max as int;
        plan::cut(d, 0, 0, Seq::empty(), most) == self.pieces@ + plan::cut(
            d,
            from,
            from + self.plain@.len(),
            self.block@,
            most,
        )
    }

    /// As above, in the middle of taking something.
    spec fn holds(&self) -> bool {
        &&& 1 <= self.level <= 9
        &&& self.block_max == self.level * 100_000 - 19
        &&& self.block@.len() <= self.block_max
        &&& self.run_len <= MAX_RLE1_RUN
        &&& self.out.wf()
        &&& self.start == self.out.before().len()
        &&& if self.header_written {
            self.out.bits() == pack::header_bits(self.level as nat) + self.written@
        } else {
            &&& self.out.bits() == Seq::<bool>::empty()
            &&& self.written@ == Seq::<bool>::empty()
        }
        &&& pack::carries(self.written@, self.finished@, self.limit(), 0, self.stream_crc)
        &&& plan::turned(self.pieces@, self.turns@)
        &&& self.written@ == plan::blocks_bits(self.pieces@, self.turns@)
        &&& self.stream_crc == plan::check_of(self.pieces@)
        &&& pack::packs(self.block@, self.plain@, self.tail@)
        &&& self.block_crc.wf()
        &&& self.block_crc.covers(self.plain@)
        &&& self.run_len > 0 ==> self.tail@ != Some(self.run_byte)
    }

    /// Write bzip2 data to the end of `out`, in blocks of `level` times
    /// 100,000 bytes, `level` being held between 1 and 9.
    pub fn new(out: Vec<u8>, level: u8) -> (r: Self)
        ensures
            r.wf(),
            r.before() == out@,
            r.taken() == Seq::<u8>::empty(),
            r.made_for() == join::held_level(level),
    {
        let level: u8 = if level < 1 {
            1
        } else if level > 9 {
            9
        } else {
            level
        };
        let start: usize = out.len();
        let r: Bzip2Encoder = Bzip2Encoder {
            out: BitWriter::new(out),
            start,
            level,
            block_max: level as usize * 100_000 - 19,
            block: Vec::new(),
            run_byte: 0,
            run_len: 0,
            block_crc: Crc::new(),
            stream_crc: 0,
            header_written: false,
            written: Ghost(Seq::empty()),
            finished: Ghost(Seq::empty()),
            plain: Ghost(Seq::empty()),
            tail: Ghost(None),
            pieces: Ghost(Seq::empty()),
            turns: Ghost(Seq::empty()),
        };
        proof {
            assert forall|d: Seq<u8>| #[trigger] r.cuts(d) by {
                assert(r.block@ =~= Seq::<u8>::empty());
                let all = plan::cut(d, 0, 0, Seq::empty(), r.block_max as int);
                assert(Seq::<plan::Piece>::empty() + all =~= all);
            }
            pack::lemma_carries_none(r.limit());
            pack::lemma_packs_none();
            assert(r.block@ =~= Seq::<u8>::empty());
            assert(r.taken() =~= Seq::<u8>::empty());
        }
        r
    }

    /// How long the output was before.
    pub fn start_len(&self) -> (r: usize)
        requires
            self.wf(),
        ensures
            r == self.before().len(),
    {
        self.start
    }

    fn write_header(&mut self)
        requires
            old(self).holds(),
            !old(self).header_written,
        ensures
            final(self).holds(),
            final(self).header_written,
            final(self).before() == old(self).before(),
            final(self).taken() == old(self).taken(),
            final(self).block == old(self).block,
            final(self).run_byte == old(self).run_byte,
            final(self).run_len == old(self).run_len,
            final(self).plain == old(self).plain,
            final(self).finished == old(self).finished,
            final(self).level == old(self).level,
            final(self).tail == old(self).tail,
            final(self).pieces == old(self).pieces,
            final(self).turns == old(self).turns,
    {
        proof {
            lemma2_to64();
        }
        self.out.put(0x425A68, 24);
        self.out.put(0x30 + self.level as u32, 8);
        self.header_written = true;
        proof {
            let e = Seq::<bool>::empty();
            let x = bitio::digits(0x425A68, 24);
            let y = bitio::digits((0x30 + self.level) as nat, 8);
            assert(e + x + y =~= x + y + e);
        }
    }

    /// Write the block that is held.
    #[verifier::spinoff_prover]
    fn write_block(&mut self)
        requires
            old(self).holds(),
        ensures
            final(self).holds(),
            final(self).before() == old(self).before(),
            final(self).taken() == old(self).taken(),
            final(self).block@.len() == 0,
            final(self).plain@ == Seq::<u8>::empty(),
            final(self).tail@ is None || old(self).block@.len() == 0
                && final(self).tail == old(self).tail,
            final(self).run_byte == old(self).run_byte,
            final(self).run_len == old(self).run_len,
            final(self).block_max == old(self).block_max,
            final(self).level == old(self).level,
            final(self).finished@ == old(self).finished@ + old(self).plain@,
            final(self).pieces@ == if old(self).block@.len() == 0 {
                old(self).pieces@
            } else {
                old(self).pieces@.push(
                    (plan::Piece { packed: old(self).block@, plain: old(self).plain@ }),
                )
            },
            old(self).block@.len() == 0 ==> old(self).plain@.len() == 0,
    {
        proof {
            pack::lemma_packs_alone(self.block@, self.plain@, self.tail@);
        }
        if self.block.len() == 0 {
            proof {
                assert(self.block@ =~= Seq::<u8>::empty());
                assert(self.finished@ + self.plain@ =~= self.finished@);
            }
            return;
        }
        let ghost packed = self.block@;
        let ghost pieces = self.pieces@;
        let ghost turns = self.turns@;
        if !self.header_written {
            self.write_header();
        }
        let ghost w = self.written@;
        let ghost done = self.finished@;
        let ghost plain = self.plain@;
        let ghost limit = self.limit();
        let check: u32 = self.block_crc.finish();
        let mut block: Vec<u8> = Vec::new();
        std::mem::swap(&mut block, &mut self.block);
        assert(crc::crc_of(plain) == check);
        let (Ghost(x), Ghost(turn)) = write_whole(&mut self.out, &block, check, Ghost(plain), Ghost(limit));
        self.block_crc.reset();
        proof {
            pack::lemma_carries_block(w, done, limit, self.stream_crc, x, plain);
            pack::lemma_packs_none();
            assert(pack::header_bits(self.level as nat) + w + x =~= pack::header_bits(
                self.level as nat,
            ) + (w + x));
        }
        self.stream_crc = combine(self.stream_crc, check);
        self.written = Ghost(w + x);
        self.finished = Ghost(done + plain);
        self.plain = Ghost(Seq::empty());
        self.tail = Ghost(None);
        self.pieces = Ghost(pieces.push(plan::Piece { packed, plain }));
        self.turns = Ghost(turns.push(turn));
        proof {
            assert(self.pieces@.drop_last() =~= pieces);
            assert(self.turns@.drop_last() =~= turns);
            assert(self.block@ =~= Seq::<u8>::empty());
            let run = crc::run_of(self.run_byte, self.run_len as nat);
            assert(done + plain + Seq::<u8>::empty() + run =~= done + plain + run);
        }
    }

    /// Put the run that is held into the block.
    #[verifier::spinoff_prover]
    fn flush_run(&mut self)
        requires
            old(self).holds(),
        ensures
            final(self).holds(),
            final(self).before() == old(self).before(),
            final(self).taken() == old(self).taken(),
            final(self).level == old(self).level,
            final(self).run_len == 0,
            old(self).run_len > 0 ==> final(self).tail@ == if old(self).run_len < 4 {
                Some(old(self).run_byte)
            } else {
                None
            },
            old(self).run_len == 0 ==> final(self).tail == old(self).tail,
            forall|d: Seq<u8>|
                old(self).cuts(d) && old(self).taken().is_prefix_of(d) && (old(self).run_len == 0
                    || old(self).run_len == MAX_RLE1_RUN || d.len() == old(self).taken().len()
                    || d[old(self).taken().len() as int] != old(self).run_byte)
                    ==> #[trigger] final(self).cuts(d),
    {
        if self.run_len == 0 {
            return;
        }
        if self.block.len() + 5 > self.block_max {
            self.write_block();
        }
        let byte: u8 = self.run_byte;
        let n: usize = self.run_len;
        let ghost packed = self.block@;
        let ghost plain = self.plain@;
        self.block_crc.update_run(byte, n);
        let literals: usize = if n < 4 {
            n
        } else {
            4
        };
        let mut i: usize = 0;
        assert(self.block@ =~= packed + crc::run_of(byte, 0));
        let ghost this = *self;
        while i < literals
            invariant
                i <= literals,
                self.block@ == packed + crc::run_of(byte, i as nat),
                *self == (Bzip2Encoder { block: self.block, ..this }),
            decreases literals - i,
        {
            self.block.push(byte);
            i = i + 1;
            assert(self.block@ =~= packed + crc::run_of(byte, i as nat));
        }
        if n >= 4 {
            self.block.push((n - 4) as u8);
        }
        proof {
            assert(self.block@ =~= packed + pack::packed_run(byte, n as nat));
            pack::lemma_packs_run(packed, plain, self.tail@, byte, n as nat);
            assert(self.block_crc.covers(plain + crc::run_of(byte, n as nat)));
            assert(self.finished@ + (plain + crc::run_of(byte, n as nat)) + crc::run_of(byte, 0)
                =~= self.finished@ + plain + crc::run_of(byte, n as nat));
        }
        self.plain = Ghost(plain + crc::run_of(byte, n as nat));
        self.tail = Ghost(
            if n < 4 {
                Some(byte)
            } else {
                None
            },
        );
        self.run_len = 0;
        proof {
            assert forall|d: Seq<u8>|
                old(self).cuts(d) && old(self).taken().is_prefix_of(d) && (n == MAX_RLE1_RUN
                    || d.len() == old(self).taken().len() || d[old(self).taken().len() as int]
                    != byte) implies #[trigger] self.cuts(d) by {
                old(self).lemma_flushed(d, self);
            }
        }
    }

    /// Where a run ends the blocks go on after it.
    proof fn lemma_flushed(&self, d: Seq<u8>, next: &Self)
        requires
            self.cuts(d),
            self.taken().is_prefix_of(d),
            0 < self.run_len <= MAX_RLE1_RUN,
            self.run_len == MAX_RLE1_RUN || d.len() == self.taken().len()
                || d[self.taken().len() as int] != self.run_byte,
            next.block_max == self.block_max,
            ({
                let run = pack::packed_run(self.run_byte, self.run_len as nat);
                let plain = crc::run_of(self.run_byte, self.run_len as nat);
                if self.block@.len() + 5 > self.block_max {
                    &&& next.pieces@ == self.pieces@.push(
                        (plan::Piece { packed: self.block@, plain: self.plain@ }),
                    )
                    &&& next.finished@ == self.finished@ + self.plain@
                    &&& next.plain@ == plain
                    &&& next.block@ == run
                } else {
                    &&& next.pieces@ == self.pieces@
                    &&& next.finished@ == self.finished@
                    &&& next.plain@ == self.plain@ + plain
                    &&& next.block@ == self.block@ + run
                }
            }),
        ensures
            next.cuts(d),
    {
        let from = self.finished@.len() as int;
        let at = from + self.plain@.len();
        let n = self.run_len as int;
        let t = self.taken();
        assert(t =~= d.take(t.len() as int));
        assert(t.len() == at + n);
        assert forall|i: int| at <= i < at + n implies #[trigger] d[i] == self.run_byte by {
            assert(t[i] == self.run_byte);
        }
        assert(d[at] == self.run_byte);
        plan::lemma_run_at(d, at, 1, n);
        assert(d.subrange(from, at) =~= self.plain@) by {
            assert forall|i: int| from <= i < at implies #[trigger] d[i] == self.plain@[i - from] by {
                assert(t[i] == self.plain@[i - from]);
            }
        }
        let most = self.block_max as int;
        if self.block@.len() + 5 > self.block_max {
            let piece = plan::Piece { packed: self.block@, plain: self.plain@ };
            let more = plan::cut(d, at, at + n, next.block@, most);
            assert(plan::cut(d, from, at, self.block@, most) == seq![piece] + more);
            assert(self.pieces@ + (seq![piece] + more) =~= self.pieces@.push(piece) + more);
        }
    }

    /// Take the bytes of `buf`.
    #[verifier::spinoff_prover]
    #[verifier::rlimit(40)]
    pub fn push(&mut self, buf: &[u8])
        requires
            old(self).wf(),
        ensures
            final(self).wf(),
            final(self).before() == old(self).before(),
            final(self).taken() == old(self).taken() + buf@,
            final(self).made_for() == old(self).made_for(),
    {
        let mut at: usize = 0;
        let ghost start = self.taken();
        proof {
            assert(start + buf@.take(0) =~= start);
        }
        while at < buf.len()
            invariant
                at <= buf.len(),
                self.wf(),
                self.before() == old(self).before(),
                self.level == old(self).level,
                start == old(self).taken(),
                self.taken() == start + buf@.take(at as int),
            decreases buf.len() - at,
        {
            let byte: u8 = buf[at];
            let ghost had = self.taken();
            let ghost first = *self;
            let ghost mut flushed = *self;
            if self.run_len == 0 || self.run_byte != byte || self.run_len == MAX_RLE1_RUN {
                self.flush_run();
                proof {
                    flushed = *self;
                }
                self.run_byte = byte;
                self.run_len = 0;
            }
            proof {
                assert forall|d: Seq<u8>| had.push(byte).is_prefix_of(
                    d,
                ) implies #[trigger] self.cuts(d) by {
                    lemma_prefix(had, byte, d);
                    assert(first.cuts(d));
                    assert(flushed.cuts(d));
                }
            }
            let ghost ready = *self;
            let ghost held = self.run_len;
            let ghost head = self.finished@ + self.plain@;
            let room: usize = MAX_RLE1_RUN - self.run_len;
            let mut n: usize = 1;
            while n < room && n < buf.len() - at && buf[at + n] == byte
                invariant
                    at < buf.len(),
                    1 <= n <= room,
                    n <= buf.len() - at,
                    forall|k: int| 0 <= k < n ==> #[trigger] buf[at + k] == byte,
                decreases room - n,
            {
                n = n + 1;
            }
            self.run_len = self.run_len + n;
            proof {
                assert(self.taken() =~= head + crc::run_of(byte, held as nat) + buf@.subrange(
                    at as int,
                    at + n,
                )) by {
                    assert forall|k: int| 0 <= k < n implies #[trigger] buf@.subrange(
                        at as int,
                        at + n,
                    )[k] == byte by {
                        assert(buf[at + k] == byte);
                    }
                }
                assert(start + buf@.take(at as int) + buf@.subrange(at as int, at + n) =~= start
                    + buf@.take(at + n));
                assert forall|d: Seq<u8>| self.taken().is_prefix_of(d) implies #[trigger] self.cuts(
                    d,
                ) by {
                    lemma_longer(had, byte, self.taken(), d);
                    assert(ready.cuts(d));
                }
            }
            at = at + n;
        }
        proof {
            assert(buf@.take(at as int) =~= buf@);
        }
    }

    /// Write what is held and end the stream. It is the same however what was
    /// taken was cut into pushes.
    #[verifier::spinoff_prover]
    pub fn finish(self) -> (r: Vec<u8>)
        requires
            self.wf(),
        ensures
            self.before().is_prefix_of(r@),
            plan::is_made(
                r@.skip(self.before().len() as int),
                self.made_for(),
                self.taken(),
            ),
            join::is_stream(
                r@.skip(self.before().len() as int),
                self.made_for(),
                self.taken(),
            ),
            syntax::decoded(r@.skip(self.before().len() as int)) == Ok::<Seq<u8>, Error>(
                self.taken(),
            ),
    {
        let mut this: Bzip2Encoder = self;
        let ghost plain = self.taken();
        assert(self.cuts(plain));
        this.flush_run();
        let ghost held = this;
        assert(held.cuts(plain));
        this.write_block();
        proof {
            let from = held.finished@.len() as int;
            let at = from + held.plain@.len();
            assert(held.taken() =~= held.finished@ + held.plain@);
            assert(plain.subrange(from, at) =~= held.plain@);
            assert(this.pieces@ =~= plan::pieces_of(held.level as nat, plain));
        }
        if !this.header_written {
            this.write_header();
        }
        let check: u32 = this.stream_crc;
        let level: u8 = this.level;
        let ghost w = this.written@;
        let ghost done = this.finished@;
        proof {
            assert(this.taken() =~= done);
            lemma2_to64();
            lemma2_to64_rest();
        }
        let Bzip2Encoder { out, .. } = this;
        let mut out: BitWriter = out;
        out.put(0x177245, 24);
        out.put(0x385090, 24);
        out.put(check, 32);
        let ghost all = out.bits();
        let ghost before = out.before();
        let r: Vec<u8> = out.finish();
        proof {
            let h = pack::header_bits(level as nat);
            let e1 = bitio::digits(0x177245, 24);
            let e2 = bitio::digits(0x385090, 24);
            let e3 = bitio::digits(check as nat, 32);
            assert(h + w + e1 + e2 + e3 =~= h + w + (e1 + e2 + e3));
            assert(all == h + w + pack::end_bits(check));
            let data = r@.skip(before.len() as int);
            assert(join::made_of(data, level as nat, done, w, check));
            assert(plan::turned(this.pieces@, this.turns@));
            assert(bitio::bits_of(data) =~= plan::padded(all));
            join::lemma_one_stream(data, level as nat, done);
        }
        r
    }
}

/// Encode `data` as one stream, in blocks of `level` times 100,000 bytes,
/// `level` being held between 1 and 9.
pub fn compress(data: &[u8], level: u8) -> (r: Vec<u8>)
    ensures
        plan::is_made(r@, join::held_level(level), data@),
        join::is_stream(r@, join::held_level(level), data@),
        r@.len() >= 4,
        r@[0] == 0x42,
        r@[1] == 0x5A,
        r@[2] == 0x68,
        r@[3] == 0x30 + join::held_level(level),
        syntax::decoded(r@) == Ok::<Seq<u8>, Error>(data@),
{
    let mut encoder: Bzip2Encoder = Bzip2Encoder::new(Vec::new(), level);
    encoder.push(data);
    proof {
        assert(Seq::<u8>::empty() + data@ =~= data@);
    }
    let r: Vec<u8> = encoder.finish();
    proof {
        assert(r@.skip(0) =~= r@);
        join::lemma_level_byte(r@, join::held_level(level), data@);
    }
    r
}

} // verus!
