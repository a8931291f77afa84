//! Decoding.
use crate::codecs::bzip2::bitio;
use crate::codecs::bzip2::bitio::BitReader;
use crate::codecs::bzip2::bwt;
use crate::codecs::bzip2::bwt::restore;
use crate::codecs::bzip2::crc;
use crate::codecs::bzip2::crc::{combine, Crc};
use crate::codecs::bzip2::syntax;
use crate::codecs::bzip2::syntax::{BLOCK_MAGIC, GROUP_SIZE, MAX_BLOCK, STREAM_MAGIC};
use crate::codecs::lengths;
use crate::utils::bits as words;
use crate::utils::error;
use crate::utils::error::{Error, Result, Unsupported};
use crate::utils::sorting;
use crate::utils::sorting::stable_order;
use vstd::arithmetic::power2::*;
use vstd::prelude::*;

verus! {

/// The longest code.
const MAX_LEN: usize = 20;

/// A code ready for decoding.
struct Table {
    lens: Ghost<Seq<u8>>,
    min: u32,
    limit: Vec<u32>,
    start: Vec<u32>,
    perm: Vec<u32>,
}

/// Lengths that a table can be made of.
spec fn lens_ok(lens: Seq<u8>) -> bool {
    &&& 0 < lens.len() <= 258
    &&& forall|i: int| 0 <= i < lens.len() ==> 1 <= #[trigger] lens[i] <= MAX_LEN
}

proof fn lemma_kraft_small(lens: Seq<u8>, l: int)
    requires
        0 <= l <= 20,
    ensures
        lengths::kraft(lens, l) <= lens.len() * 0x10_0000,
    decreases lens.len(),
{
    if lens.len() > 0 {
        lemma_kraft_small(lens.drop_last(), l);
        let x = lens.last() as int;
        if 0 < x <= l {
            lemma2_to64();
            lemma_pow2_strictly_increases((l - x) as nat, 20);
        }
    }
}

/// No code is shorter than the shortest.
proof fn lemma_skip(b: Seq<bool>, p: int, lens: Seq<u8>, l: int, m: int)
    requires
        1 <= l <= m <= 20,
        0 <= p,
        forall|i: int| 0 <= i < lens.len() ==> m <= #[trigger] lens[i],
    ensures
        syntax::symbol_from(b, p, lens, l) == syntax::symbol_from(b, p, lens, m),
    decreases m - l,
{
    if l < m {
        lemma_skip(b, p, lens, l + 1, m);
        lemma_kraft_none(lens, l);
        if bitio::field(b, p, l as nat) is None {
            assert(bitio::field(b, p, m as nat) is None);
        }
    }
}

proof fn lemma_kraft_none(lens: Seq<u8>, l: int)
    requires
        forall|i: int| 0 <= i < lens.len() ==> l < #[trigger] lens[i],
    ensures
        lengths::kraft(lens, l) == 0,
    decreases lens.len(),
{
    if lens.len() > 0 {
        let d = lens.drop_last();
        assert forall|i: int| 0 <= i < d.len() implies l < #[trigger] d[i] by {
            assert(d[i] == lens[i]);
        }
        lemma_kraft_none(d, l);
        assert(l < lens[lens.len() - 1]);
    }
}

impl Table {
    spec fn wf(&self) -> bool {
        let lens = self.lens@;
        let keys = syntax::lens_keys(lens);
        &&& lens_ok(lens)
        &&& 1 <= self.min <= 20
        &&& forall|i: int| 0 <= i < lens.len() ==> self.min <= #[trigger] lens[i]
        &&& self.limit@.len() == 21
        &&& self.start@.len() == 21
        &&& self.perm@.len() == lens.len()
        &&& forall|l: int| 0 <= l <= 20 ==> #[trigger] self.limit@[l] == lengths::kraft(lens, l)
        &&& forall|l: int|
            0 <= l <= 20 ==> #[trigger] self.start@[l] == sorting::ordered(keys, l as nat).len()
        &&& sorting::ordered(keys, 21).len() == lens.len()
        &&& forall|j: int|
            0 <= j < lens.len() ==> #[trigger] self.perm@[j] == sorting::ordered(keys, 21)[j]
    }

    #[verifier::spinoff_prover]
    fn new(lens: &Vec<u8>) -> (r: Table)
        requires
            lens_ok(lens@),
        ensures
            r.wf(),
            r.lens@ == lens@,
    {
        let n: usize = lens.len();
        let ghost keys = syntax::lens_keys(lens@);
        let mut wide: Vec<u32> = Vec::with_capacity(n);
        let mut count: Vec<u32> = vec![0; 21];
        let mut min: u8 = 20;
        let mut i: usize = 0;
        while i < n
            invariant
                i <= n,
                n == lens.len(),
                lens_ok(lens@),
                wide.len() == i,
                count.len() == 21,
                1 <= min <= 20,
                forall|k: int| 0 <= k < i ==> #[trigger] wide[k] == lens[k],
                forall|k: int| 0 <= k < i ==> min <= #[trigger] lens[k],
                forall|l: int|
                    0 <= l <= 20 ==> #[trigger] count[l] == lengths::cnt(
                        lens@.take(i as int),
                        l,
                    ),
                forall|l: int| 0 <= l <= 20 ==> #[trigger] count[l] <= i,
            decreases n - i,
        {
            let l: u8 = lens[i];
            wide.push(l as u32);
            count.set(l as usize, count[l as usize] + 1);
            if l < min {
                min = l;
            }
            proof {
                assert(lens@.take(i + 1).drop_last() =~= lens@.take(i as int));
            }
            i = i + 1;
        }
        let perm: Vec<u32> = stable_order(wide.as_slice(), 21);
        proof {
            assert(wide@ =~= keys);
            assert(lens@.take(n as int) =~= lens@);
            lengths::lemma_kraft_zero(lens@);
        }
        let mut limit: Vec<u32> = vec![0];
        let mut start: Vec<u32> = vec![0];
        let mut l: usize = 1;
        proof {
            assert forall|k: int| 0 <= k < n implies #[trigger] keys[k] != 0 by {
                assert(1 <= lens@[k]);
            }
        }
        while l <= 20
            invariant
                1 <= l <= 21,
                n == lens.len(),
                n <= 258,
                limit.len() == l,
                start.len() == l,
                count.len() == 21,
                keys == syntax::lens_keys(lens@),
                sorting::ordered(keys, 21).len() == n,
                forall|l: int| 0 <= l <= 20 ==> #[trigger] count[l] == lengths::cnt(lens@, l),
                forall|m: int| 0 <= m < l ==> #[trigger] limit[m] == lengths::kraft(lens@, m),
                forall|m: int|
                    0 <= m < l ==> #[trigger] start[m] == sorting::ordered(keys, m as nat).len(),
            decreases 21 - l,
        {
            proof {
                lengths::lemma_kraft_step(lens@, l as int);
                lemma_kraft_small(lens@, l as int);
                syntax::lemma_cnt_positions(lens@, l - 1);
                sorting::lemma_ordered_prefix(keys, l as nat, 21);
                assert(sorting::ordered(keys, l as nat).len() == sorting::ordered(
                    keys,
                    (l - 1) as nat,
                ).len() + sorting::positions(keys, l - 1).len());
            }
            let v: u32 = 2 * limit[l - 1] + count[l];
            let s: u32 = start[l - 1] + count[l - 1];
            limit.push(v);
            start.push(s);
            l = l + 1;
        }
        Table { lens: Ghost(lens@), min: min as u32, limit, start, perm }
    }

    #[verifier::spinoff_prover]
    fn decode(&self, reader: &mut BitReader) -> (r: Result<u32>)
        requires
            self.wf(),
            old(reader).wf(),
        ensures
            final(reader).wf(),
            final(reader).data() == old(reader).data(),
            final(reader).bits() == old(reader).bits(),
            match syntax::symbol(old(reader).bits(), old(reader).at(), self.lens@) {
                Some((s, q)) => r == Ok::<u32, Error>(s as u32) && 0 <= s < self.lens@.len()
                    && final(reader).at() == q && old(reader).at() < q <= old(reader).bits().len(),
                None => r == Err::<u32, Error>(Error::Malformed),
            },
    {
        let ghost b = reader.bits();
        let ghost p = reader.at();
        let ghost lens = self.lens@;
        let ghost keys = syntax::lens_keys(lens);
        proof {
            reader.lemma_at();
            lemma_skip(b, p, lens, 1, self.min as int);
            lemma_kraft_none(lens, self.min - 1);
        }
        let mut l: u32 = self.min;
        let mut code: u32 = match reader.take(l) {
            Err(e) => {
                return Err(e);
            },
            Ok(v) => v,
        };
        proof {
            bitio::lemma_value_bound(b.subrange(p, p + l));
            lemma2_to64();
            if l < 20 {
                lemma_pow2_strictly_increases(l as nat, 20);
            }
        }
        while l <= 20
            invariant
                self.wf(),
                reader.wf(),
                reader.data() == old(reader).data(),
                reader.bits() == b,
                b == old(reader).bits(),
                p == old(reader).at(),
                0 <= p,
                lens == self.lens@,
                keys == syntax::lens_keys(lens),
                1 <= l <= 21,
                l <= 20 ==> reader.at() == p + l && reader.at() <= b.len() && code
                    == bitio::value(b.subrange(p, p + l)) && code < 0x10_0000
                    && syntax::symbol(b, p, lens) == syntax::symbol_from(b, p, lens, l as int)
                    && code >= syntax::first_code(lens, l as int),
                l == 21 ==> syntax::symbol(b, p, lens) is None,
            decreases 21 - l,
        {
            if code < self.limit[l as usize] {
                proof {
                    lengths::lemma_kraft_step(lens, l as int);
                    syntax::lemma_cnt_positions(lens, l as int);
                    sorting::lemma_ordered_prefix(keys, (l + 1) as nat, 21);
                    let o = sorting::ordered(keys, (l + 1) as nat);
                    let i = code - syntax::first_code(lens, l as int);
                    let j = sorting::ordered(keys, l as nat).len() + i;
                    assert(o[j] == sorting::positions(keys, l as int)[i]);
                    assert(sorting::ordered(keys, 21)[j] == sorting::ordered(keys, 21).take(
                        o.len() as int,
                    )[j]);
                    assert(self.limit@[l - 1] == lengths::kraft(lens, l - 1));
                    sorting::lemma_at_slot(keys, 21, j);
                    lemma_kraft_small(lens, l - 1);
                }
                let i: u32 = code - 2 * self.limit[l as usize - 1];
                let j: u32 = self.start[l as usize] + i;
                return Ok(self.perm[j as usize]);
            }
            if l == 20 {
                assert(syntax::symbol_from(b, p, lens, 21) is None);
                return Err(Error::Malformed);
            }
            proof {
                lemma2_to64();
                reveal_with_fuel(syntax::symbol_from, 2);
                assert(syntax::symbol_from(b, p, lens, l as int) == syntax::symbol_from(
                    b,
                    p,
                    lens,
                    l + 1,
                ));
                if p + l + 1 <= b.len() {
                    let w = b.subrange(p, p + l);
                    let z = b.subrange(p + l, p + l + 1);
                    assert(b.subrange(p, p + l + 1) =~= w + z);
                    bitio::lemma_value_concat(w, z);
                    assert(bitio::value(w + z) == bitio::value(w) * 2 + bitio::value(z));
                    assert(self.limit@[l as int] == lengths::kraft(lens, l as int));
                    bitio::lemma_value_bound(b.subrange(p, p + l + 1));
                    lemma_pow2_strictly_increases((l + 1) as nat, 21);
                    if l + 1 < 20 {
                        lemma_pow2_strictly_increases((l + 1) as nat, 20);
                    }
                }
            }
            match reader.take(1) {
                Err(e) => {
                    return Err(e);
                },
                Ok(v) => {
                    code = 2 * code + v;
                },
            }
            l = l + 1;
        }
        Err(Error::Malformed)
    }
}

fn read_flags(reader: &mut BitReader) -> (r: Result<Vec<bool>>)
    requires
        old(reader).wf(),
    ensures
        final(reader).wf(),
        final(reader).data() == old(reader).data(),
        final(reader).bits() == old(reader).bits(),
        old(reader).at() + 16 <= old(reader).bits().len() ==> {
            &&& r matches Ok(v)
            &&& v@ == old(reader).bits().subrange(old(reader).at(), old(reader).at() + 16)
            &&& final(reader).at() == old(reader).at() + 16
        },
        old(reader).at() + 16 > old(reader).bits().len() ==> r == Err::<Vec<bool>, Error>(
            Error::Malformed,
        ),
{
    let mut out: Vec<bool> = Vec::with_capacity(16);
    proof {
        reader.lemma_at();
        assert(out@ =~= reader.bits().subrange(reader.at(), reader.at()));
    }
    while out.len() < 16
        invariant
            out.len() <= 16,
            reader.wf(),
            reader.data() == old(reader).data(),
            reader.bits() == old(reader).bits(),
            0 <= old(reader).at(),
            reader.at() == old(reader).at() + out.len(),
            reader.at() <= reader.bits().len(),
            out@ == old(reader).bits().subrange(old(reader).at(), reader.at()),
        decreases 16 - out.len(),
    {
        match reader.bit() {
            Err(e) => {
                return Err(e);
            },
            Ok(x) => {
                out.push(x);
            },
        }
        assert(out@ =~= old(reader).bits().subrange(old(reader).at(), reader.at()));
    }
    Ok(out)
}

/// The bytes that a block uses.
#[verifier::spinoff_prover]
fn read_symbol_map(reader: &mut BitReader) -> (r: Result<Vec<u8>>)
    requires
        old(reader).wf(),
    ensures
        final(reader).wf(),
        final(reader).data() == old(reader).data(),
        final(reader).bits() == old(reader).bits(),
        match syntax::symbol_map(old(reader).bits(), old(reader).at()) {
            Some((map, q)) => r matches Ok(v) && v@ == map && 0 < map.len() <= 256
                && final(reader).at() == q && old(reader).at() <= q <= old(reader).bits().len(),
            None => r matches Err(e) && e == Error::Malformed,
        },
{
    let ghost b = reader.bits();
    let ghost p = reader.at();
    proof {
        reader.lemma_at();
    }
    let groups: Vec<bool> = match read_flags(reader) {
        Err(e) => {
            return Err(e);
        },
        Ok(v) => v,
    };
    let ghost whole = syntax::chart(b, groups@, p + 16, 0);
    let mut out: Vec<u8> = Vec::with_capacity(256);
    let mut g: usize = 0;
    while g < 16
        invariant
            g <= 16,
            groups.len() == 16,
            groups@ == b.subrange(p, p + 16),
            reader.wf(),
            reader.data() == old(reader).data(),
            reader.bits() == b,
            b == old(reader).bits(),
            p == old(reader).at(),
            0 <= p <= reader.at() <= b.len(),
            p + 16 <= b.len(),
            out.len() <= 16 * g,
            whole == syntax::chart(b, groups@, p + 16, 0),
            whole == match syntax::chart(b, groups@, reader.at(), g as int) {
                None => None,
                Some((rest, q)) => Some((out@ + rest, q)),
            },
        decreases 16 - g,
    {
        let ghost at = reader.at();
        let ghost had = out@;
        if groups[g] {
            let flags: Vec<bool> = match read_flags(reader) {
                Err(e) => {
                    return Err(e);
                },
                Ok(v) => v,
            };
            let mut i: usize = 0;
            proof {
                assert(flags@.take(0) =~= Seq::<bool>::empty());
                assert(had + Seq::<u8>::empty() =~= had);
            }
            while i < 16
                invariant
                    i <= 16,
                    g < 16,
                    flags.len() == 16,
                    out@ == had + syntax::members(flags@.take(i as int), 16 * g),
                    out.len() <= had.len() + i,
                decreases 16 - i,
            {
                proof {
                    assert(flags@.take(i + 1).drop_last() =~= flags@.take(i as int));
                }
                if flags[i] {
                    out.push((16 * g + i) as u8);
                }
                i = i + 1;
                proof {
                    assert(out@ =~= had + syntax::members(flags@.take(i as int), 16 * g));
                }
            }
            proof {
                assert(flags@.take(16) =~= flags@);
                if let Some((rest, q)) = syntax::chart(b, groups@, at + 16, g + 1) {
                    let mine = syntax::members(flags@, 16 * g);
                    assert(had + (mine + rest) =~= out@ + rest);
                }
            }
        }
        g = g + 1;
    }
    proof {
        assert(out@ + Seq::<u8>::empty() =~= out@);
    }
    if out.len() == 0 {
        return Err(Error::Malformed);
    }
    Ok(out)
}

/// Small numbers as mathematical ones.
spec fn ints(v: Seq<u8>) -> Seq<int> {
    Seq::new(v.len(), |i: int| v[i] as int)
}

/// A number in unary.
fn read_unary(reader: &mut BitReader, count: usize) -> (r: Result<usize>)
    requires
        old(reader).wf(),
        1 <= count,
    ensures
        final(reader).wf(),
        final(reader).data() == old(reader).data(),
        final(reader).bits() == old(reader).bits(),
        match syntax::unary(old(reader).bits(), old(reader).at(), 0, count as int) {
            Some((j, q)) => r == Ok::<usize, Error>(j as usize) && 0 <= j < count
                && final(reader).at() == q && old(reader).at() <= q <= old(reader).bits().len(),
            None => r == Err::<usize, Error>(Error::Malformed),
        },
{
    let mut j: usize = 0;
    proof {
        reader.lemma_at();
    }
    loop
        invariant
            j < count,
            reader.wf(),
            reader.data() == old(reader).data(),
            reader.bits() == old(reader).bits(),
            0 <= old(reader).at() <= reader.at(),
            syntax::unary(old(reader).bits(), old(reader).at(), 0, count as int) == syntax::unary(
                reader.bits(),
                reader.at(),
                j as int,
                count as int,
            ),
        decreases count - j,
    {
        match reader.bit() {
            Err(e) => {
                return Err(e);
            },
            Ok(x) => {
                if !x {
                    return Ok(j);
                }
            },
        }
        if j + 1 >= count {
            return Err(Error::Malformed);
        }
        j = j + 1;
    }
}

/// Which table each group uses.
#[verifier::spinoff_prover]
fn read_selectors(reader: &mut BitReader, count: usize, groups: usize) -> (r: Result<Vec<u8>>)
    requires
        old(reader).wf(),
        2 <= count <= 6,
    ensures
        final(reader).wf(),
        final(reader).data() == old(reader).data(),
        final(reader).bits() == old(reader).bits(),
        match syntax::picks(
            old(reader).bits(),
            old(reader).at(),
            syntax::upto(count as nat),
            groups as nat,
        ) {
            Some((s, q)) => r matches Ok(v) && ints(v@) == s && v.len() == groups && (forall|i: int|

                0 <= i < v.len() ==> #[trigger] v[i] < count) && final(reader).at() == q
                    && old(reader).at() <= q <= old(reader).bits().len(),
            None => r matches Err(e) && e == Error::Malformed,
        },
{
    let ghost b = reader.bits();
    let ghost p = reader.at();
    let mut order: Vec<u8> = Vec::with_capacity(6);
    let mut i: u8 = 0;
    while (i as usize) < count
        invariant
            i <= count <= 6,
            order.len() == i,
            forall|k: int| 0 <= k < i ==> #[trigger] order[k] == k,
        decreases count - i,
    {
        order.push(i);
        i = i + 1;
    }
    let ghost whole = syntax::picks(b, p, syntax::upto(count as nat), groups as nat);
    let mut out: Vec<u8> = Vec::with_capacity(groups);
    proof {
        reader.lemma_at();
        assert(ints(order@) =~= syntax::upto(count as nat));
        assert(whole == match syntax::picks(b, p, ints(order@), groups as nat) {
            None => None,
            Some((rest, q)) => Some((ints(out@) + rest, q)),
        }) by {
            if let Some((rest, q)) = whole {
                assert(ints(out@) + rest =~= rest);
            }
        }
    }
    while out.len() < groups
        invariant
            out.len() <= groups,
            2 <= count <= 6,
            reader.wf(),
            reader.data() == old(reader).data(),
            reader.bits() == b,
            b == old(reader).bits(),
            p == old(reader).at(),
            0 <= p <= reader.at() <= b.len(),
            order.len() == count,
            forall|k: int| 0 <= k < count ==> #[trigger] order[k] < count,
            forall|k: int| 0 <= k < out.len() ==> #[trigger] out[k] < count,
            whole == syntax::picks(b, p, syntax::upto(count as nat), groups as nat),
            whole == match syntax::picks(
                b,
                reader.at(),
                ints(order@),
                (groups - out.len()) as nat,
            ) {
                None => None,
                Some((rest, q)) => Some((ints(out@) + rest, q)),
            },
        decreases groups - out.len(),
    {
        let ghost was = order@;
        let ghost had = out@;
        let j: usize = match read_unary(reader, count) {
            Err(e) => {
                return Err(e);
            },
            Ok(j) => j,
        };
        let picked: u8 = order.remove(j);
        order.insert(0, picked);
        out.push(picked);
        proof {
            assert(ints(order@) =~= syntax::front(ints(was), j as int));
            assert forall|k: int| 0 <= k < count implies #[trigger] order[k] < count by {
                assert(order@[k] == was[j as int] || (exists|x: int|
                    0 <= x < count && order@[k] == #[trigger] was[x])) by {
                    if k > 0 {
                        if k <= j {
                            assert(order@[k] == was[k - 1]);
                        } else {
                            assert(order@[k] == was[k]);
                        }
                    }
                }
            }
            if let Some((rest, q)) = syntax::picks(
                b,
                reader.at(),
                ints(order@),
                (groups - out.len()) as nat,
            ) {
                assert(ints(out@) + rest =~= ints(had) + (seq![ints(was)[j as int]] + rest));
            }
        }
    }
    proof {
        assert(ints(out@) + Seq::<int>::empty() =~= ints(out@));
    }
    Ok(out)
}

/// One code length, from the one before.
fn read_length(reader: &mut BitReader, from: u32) -> (r: Result<u32>)
    requires
        old(reader).wf(),
        from <= 31,
    ensures
        final(reader).wf(),
        final(reader).data() == old(reader).data(),
        final(reader).bits() == old(reader).bits(),
        match syntax::length_at(old(reader).bits(), old(reader).at(), from as int) {
            Some((l, q)) => r == Ok::<u32, Error>(l as u32) && 1 <= l <= 20 && final(reader).at()
                == q && old(reader).at() <= q <= old(reader).bits().len(),
            None => r == Err::<u32, Error>(Error::Malformed),
        },
{
    let mut len: u32 = from;
    proof {
        reader.lemma_at();
    }
    loop
        invariant
            len <= 31,
            reader.wf(),
            reader.data() == old(reader).data(),
            reader.bits() == old(reader).bits(),
            0 <= old(reader).at() <= reader.at(),
            syntax::length_at(old(reader).bits(), old(reader).at(), from as int)
                == syntax::length_at(reader.bits(), reader.at(), len as int),
        decreases (if reader.at() <= reader.bits().len() {
            reader.bits().len() - reader.at()
        } else {
            0
        }),
    {
        if len < 1 || len > 20 {
            return Err(Error::Malformed);
        }
        match reader.bit() {
            Err(e) => {
                return Err(e);
            },
            Ok(x) => {
                if !x {
                    return Ok(len);
                }
            },
        }
        match reader.bit() {
            Err(e) => {
                return Err(e);
            },
            Ok(x) => {
                if x {
                    len = len - 1;
                } else {
                    len = len + 1;
                }
            },
        }
    }
}

/// The code lengths of one table.
#[verifier::spinoff_prover]
fn read_lengths(reader: &mut BitReader, from: u32, n: usize) -> (r: Result<Vec<u8>>)
    requires
        old(reader).wf(),
        from <= 31,
    ensures
        final(reader).wf(),
        final(reader).data() == old(reader).data(),
        final(reader).bits() == old(reader).bits(),
        match syntax::lengths_at(old(reader).bits(), old(reader).at(), from as int, n as nat) {
            Some((s, q)) => r matches Ok(v) && v@ == s && v.len() == n && (forall|i: int|
                0 <= i < v.len() ==> 1 <= #[trigger] v[i] <= MAX_LEN) && final(reader).at() == q
                && old(reader).at() <= q <= old(reader).bits().len(),
            None => r matches Err(e) && e == Error::Malformed,
        },
{
    let ghost b = reader.bits();
    let ghost p = reader.at();
    let ghost whole = syntax::lengths_at(b, p, from as int, n as nat);
    let mut len: u32 = from;
    let mut out: Vec<u8> = Vec::with_capacity(n);
    proof {
        reader.lemma_at();
        if let Some((rest, q)) = whole {
            assert(out@ + rest =~= rest);
        }
    }
    while out.len() < n
        invariant
            out.len() <= n,
            len <= 31,
            reader.wf(),
            reader.data() == old(reader).data(),
            reader.bits() == b,
            b == old(reader).bits(),
            p == old(reader).at(),
            0 <= p <= reader.at() <= b.len(),
            forall|k: int| 0 <= k < out.len() ==> 1 <= #[trigger] out[k] <= MAX_LEN,
            whole == syntax::lengths_at(b, p, from as int, n as nat),
            whole == match syntax::lengths_at(b, reader.at(), len as int, (n - out.len()) as nat) {
                None => None,
                Some((rest, q)) => Some((out@ + rest, q)),
            },
        decreases n - out.len(),
    {
        let ghost had = out@;
        len = match read_length(reader, len) {
            Err(e) => {
                return Err(e);
            },
            Ok(l) => l,
        };
        out.push(len as u8);
        proof {
            if let Some((rest, q)) = syntax::lengths_at(
                b,
                reader.at(),
                len as int,
                (n - out.len()) as nat,
            ) {
                assert(out@ + rest =~= had + (seq![len as u8] + rest));
            }
        }
    }
    proof {
        assert(out@ + Seq::<u8>::empty() =~= out@);
    }
    Ok(out)
}

/// The lengths that tables were made of.
spec fn lens_of(tables: Seq<Table>) -> Seq<Seq<u8>> {
    Seq::new(tables.len(), |i: int| tables[i].lens@)
}

/// The tables and which group uses which.
#[verifier::spinoff_prover]
#[verifier::rlimit(40)]
fn read_tables(reader: &mut BitReader, n: usize) -> (r: Result<(Vec<Table>, Vec<u8>)>)
    requires
        old(reader).wf(),
        0 < n <= 258,
    ensures
        final(reader).wf(),
        final(reader).data() == old(reader).data(),
        final(reader).bits() == old(reader).bits(),
        match syntax::codes(old(reader).bits(), old(reader).at(), n as nat) {
            Some((tables, selectors, q)) => r matches Ok(v) && lens_of(v.0@) == tables && ints(
                v.1@,
            ) == selectors && (forall|i: int|
                0 <= i < v.0.len() ==> (#[trigger] v.0[i]).wf() && v.0[i].lens@.len() == n) && (
            forall|i: int| 0 <= i < v.1.len() ==> #[trigger] v.1[i] < v.0.len()) && v.1.len()
                <= 0x7fff && final(reader).at() == q
                    && old(reader).at() <= q <= old(reader).bits().len(),
            None => r matches Err(e) && e == Error::Malformed,
        },
{
    let ghost b = reader.bits();
    let ghost p = reader.at();
    proof {
        lemma2_to64();
        reader.lemma_at();
    }
    let count: usize = match reader.take(3) {
        Err(e) => {
            return Err(e);
        },
        Ok(v) => v as usize,
    };
    if count < 2 || count > 6 {
        return Err(Error::Malformed);
    }
    let groups: usize = match reader.take(15) {
        Err(e) => {
            return Err(e);
        },
        Ok(v) => v as usize,
    };
    if groups == 0 {
        return Err(Error::Malformed);
    }
    let selectors: Vec<u8> = match read_selectors(reader, count, groups) {
        Err(e) => {
            return Err(e);
        },
        Ok(v) => v,
    };
    let ghost y = reader.at();
    let ghost whole = syntax::tables_at(b, y, n as nat, count as nat);
    let mut tables: Vec<Table> = Vec::with_capacity(count);
    proof {
        if let Some((rest, q)) = whole {
            assert(lens_of(tables@) + rest =~= rest);
        }
    }
    while tables.len() < count
        invariant
            tables.len() <= count,
            0 < n <= 258,
            reader.wf(),
            reader.data() == old(reader).data(),
            reader.bits() == b,
            b == old(reader).bits(),
            p == old(reader).at(),
            0 <= p <= reader.at() <= b.len(),
            syntax::codes(b, p, n as nat) == match whole {
                None => None,
                Some((t, x)) => Some((t, ints(selectors@), x)),
            },
            forall|k: int|
                0 <= k < tables.len() ==> (#[trigger] tables[k]).wf() && tables[k].lens@.len()
                    == n,
            whole == match syntax::tables_at(
                b,
                reader.at(),
                n as nat,
                (count - tables.len()) as nat,
            ) {
                None => None,
                Some((rest, q)) => Some((lens_of(tables@) + rest, q)),
            },
        decreases count - tables.len(),
    {
        let ghost had = tables@;
        proof {
            lemma2_to64();
        }
        let from: u32 = match reader.take(5) {
            Err(e) => {
                return Err(e);
            },
            Ok(v) => v,
        };
        let lens: Vec<u8> = match read_lengths(reader, from, n) {
            Err(e) => {
                return Err(e);
            },
            Ok(v) => v,
        };
        tables.push(Table::new(&lens));
        proof {
            if let Some((rest, q)) = syntax::tables_at(
                b,
                reader.at(),
                n as nat,
                (count - tables.len()) as nat,
            ) {
                assert(lens_of(tables@) + rest =~= lens_of(had) + (seq![lens@] + rest));
            }
        }
    }
    proof {
        assert(lens_of(tables@) + Seq::<Seq<u8>>::empty() =~= lens_of(tables@));
    }
    Ok((tables, selectors))
}

/// The last column of a block from its symbols.
#[verifier::spinoff_prover]
#[verifier::rlimit(80)]
fn read_mtf_rle2(
    reader: &mut BitReader,
    tables: &Vec<Table>,
    selectors: &Vec<u8>,
    symbol_map: &Vec<u8>,
    limit: usize,
) -> (r: Result<Vec<u8>>)
    requires
        old(reader).wf(),
        forall|i: int|
            0 <= i < tables.len() ==> (#[trigger] tables[i]).wf() && tables[i].lens@.len()
                == symbol_map.len() + 2,
        forall|i: int| 0 <= i < selectors.len() ==> #[trigger] selectors[i] < tables.len(),
        selectors.len() <= 0x7fff,
        0 < symbol_map.len() <= 256,
        limit <= MAX_BLOCK,
    ensures
        final(reader).wf(),
        final(reader).data() == old(reader).data(),
        final(reader).bits() == old(reader).bits(),
        match syntax::body(
            old(reader).bits(),
            old(reader).at(),
            lens_of(tables@),
            ints(selectors@),
            0,
            syntax::fresh(symbol_map@),
            limit as nat,
        ) {
            Some((last, q)) => r matches Ok(v) && v@ == last && v.len() <= limit
                && final(reader).at() == q && old(reader).at() <= q <= old(reader).bits().len(),
            None => r matches Err(e) && e == Error::Malformed,
        },
{
    let ghost b = reader.bits();
    let ghost p = reader.at();
    let ghost ts = lens_of(tables@);
    let ghost ss = ints(selectors@);
    let n: usize = symbol_map.len();
    let mut list: Vec<u8> = Vec::with_capacity(n);
    list.extend_from_slice(symbol_map.as_slice());
    let mut out: Vec<u8> = Vec::new();
    let mut run: u32 = 0;
    let mut place: u32 = 1;
    let mut k: usize = 0;
    let ghost mut m = syntax::fresh(symbol_map@);
    proof {
        reader.lemma_at();
        assert(list@ =~= symbol_map@);
        assert(out@ =~= m.out);
    }
    let ghost whole = syntax::body(b, p, ts, ss, 0, m, limit as nat);
    loop
        invariant
            reader.wf(),
            reader.data() == old(reader).data(),
            reader.bits() == b,
            b == old(reader).bits(),
            p == old(reader).at(),
            0 <= p <= reader.at() <= b.len(),
            ts == lens_of(tables@),
            ss == ints(selectors@),
            forall|i: int|
                0 <= i < tables.len() ==> (#[trigger] tables[i]).wf() && tables[i].lens@.len()
                    == n + 2,
            forall|i: int| 0 <= i < selectors.len() ==> #[trigger] selectors[i] < tables.len(),
            selectors.len() <= 0x7fff,
            0 < n <= 256,
            n == list.len(),
            limit <= MAX_BLOCK,
            k <= 50 * selectors.len(),
            out.len() <= limit,
            1 <= place <= 2 * MAX_BLOCK,
            run <= 2 * (place - 1),
            m.list == list@,
            m.run == run,
            m.place == place,
            m.out == out@,
            whole == syntax::body(
                b,
                p,
                ts,
                ss,
                0,
                syntax::fresh(symbol_map@),
                limit as nat,
            ),
            whole == syntax::body(b, reader.at(), ts, ss, k as nat, m, limit as nat),
        decreases b.len() - reader.at(),
    {
        let group: usize = k / GROUP_SIZE;
        if group >= selectors.len() {
            return Err(Error::Malformed);
        }
        let table: usize = selectors[group] as usize;
        assert(ts[ss[group as int]] == tables[table as int].lens@);
        let s: usize = match tables[table].decode(reader) {
            Err(e) => {
                return Err(e);
            },
            Ok(s) => s as usize,
        };
        k = k + 1;
        let ghost fed = syntax::feed(m, s as int, limit as nat);
        if s <= 1 {
            if 2 * place > 2 * (MAX_BLOCK as u32) {
                return Err(Error::Malformed);
            }
            proof {
                assert((s + 1) * place == if s == 0 {
                    place as int
                } else {
                    2 * place
                }) by (nonlinear_arith)
                    requires
                        s == 0 || s == 1,
                ;
            }
            run = run + if s == 0 {
                place
            } else {
                2 * place
            };
            place = 2 * place;
            proof {
                m = syntax::Mtf { run: run as nat, place: place as nat, ..m };
                assert(fed == syntax::Fed::More(m));
            }
            continue ;
        }
        if run > 0 {
            if out.len() + run as usize > limit {
                return Err(Error::Malformed);
            }
            let byte: u8 = list[0];
            let ghost had = out@;
            let mut i: u32 = 0;
            while i < run
                invariant
                    i <= run,
                    had.len() + run <= limit,
                    out@ == had + crc::run_of(byte, i as nat),
                decreases run - i,
            {
                out.push(byte);
                i = i + 1;
                assert(out@ =~= had + crc::run_of(byte, i as nat));
            }
        }
        let ghost flushed = m.out + crc::run_of(m.list[0], m.run);
        assert(out@ =~= flushed);
        if s == n + 1 {
            return Ok(out);
        }
        if out.len() >= limit {
            return Err(Error::Malformed);
        }
        let ghost was = list@;
        let byte: u8 = list.remove(s - 1);
        list.insert(0, byte);
        out.push(byte);
        run = 0;
        place = 1;
        proof {
            assert(list@ =~= syntax::front(was, s - 1));
            m = syntax::Mtf { list: list@, run: 0, place: 1, out: out@ };
            assert(fed == syntax::Fed::More(m));
        }
    }
}

/// Undo the first run-length code.
#[verifier::spinoff_prover]
fn decode_rle1(input: &[u8]) -> (r: Result<Vec<u8>>)
    ensures
        match syntax::unpacked(input@) {
            Some(s) => r matches Ok(v) && v@ == s,
            None => r matches Err(e) && e == Error::Malformed,
        },
{
    let n: usize = input.len();
    let mut out: Vec<u8> = Vec::with_capacity(n);
    let mut i: usize = 0;
    proof {
        assert(input@.skip(0) =~= input@);
        if let Some(rest) = syntax::unpacked(input@) {
            assert(out@ + rest =~= rest);
        }
    }
    while i < n
        invariant
            i <= n,
            n == input.len(),
            syntax::unpacked(input@) == match syntax::unpacked(input@.skip(i as int)) {
                None => None,
                Some(rest) => Some(out@ + rest),
            },
        decreases n - i,
    {
        let ghost s = input@.skip(i as int);
        let ghost had = out@;
        let byte: u8 = input[i];
        let mut run: usize = 1;
        while run < 4 && n - i > run && input[i + run] == byte
            invariant
                i < n,
                n == input.len(),
                1 <= run <= 4,
                run <= n - i,
                s == input@.skip(i as int),
                byte == s[0],
                forall|k: int| 0 <= k < run ==> #[trigger] s[k] == byte,
            decreases 4 - run,
        {
            assert(s[run as int] == input[i + run]);
            run = run + 1;
        }
        proof {
            if run < 4 && n - i > run {
                assert(s[run as int] == input[i + run]);
            }
            assert(run >= 2 ==> s[1] == byte);
            assert(run >= 3 ==> s[2] == byte);
            assert(run >= 4 ==> s[3] == byte);
            assert(run == syntax::lead(s));
        }
        let ghost rest = syntax::unpacked(
            s.skip(
                if run < 4 {
                    run as int
                } else {
                    5
                },
            ),
        );
        let mut count: usize = run;
        let mut step: usize = run;
        if run == 4 {
            if n - i < 5 {
                return Err(Error::Malformed);
            }
            assert(s[4] == input[i + 4]);
            count = 4 + input[i + 4] as usize;
            step = 5;
        }
        let mut k: usize = 0;
        assert(out@ =~= had + crc::run_of(byte, 0));
        while k < count
            invariant
                k <= count,
                out@ == had + crc::run_of(byte, k as nat),
            decreases count - k,
        {
            out.push(byte);
            k = k + 1;
            assert(out@ =~= had + crc::run_of(byte, k as nat));
        }
        proof {
            assert(s.skip(step as int) =~= input@.skip(i + step));
            if run < 4 {
                assert(crc::run_of(byte, count as nat) =~= s.take(run as int));
            }
            if let Some(t) = rest {
                assert(out@ + t =~= had + (crc::run_of(byte, count as nat) + t));
            }
        }
        i = i + step;
    }
    proof {
        assert(input@.skip(n as int) =~= Seq::<u8>::empty());
        assert(out@ + Seq::<u8>::empty() =~= out@);
    }
    Ok(out)
}

/// Decodes bzip2 data.
pub struct Bzip2Reader {
    reader: BitReader,
    block_limit: usize,
    out: Vec<u8>,
    out_read: usize,
    stream_crc: u32,
    started: bool,
    done: bool,
    all: Ghost<Seq<u8>>,
}

impl Bzip2Reader {
    /// The bytes it decodes.
    pub closed spec fn input(&self) -> Seq<u8> {
        self.reader.data()
    }

    /// What the input decodes to.
    pub open spec fn stream(&self) -> Result<Seq<u8>> {
        syntax::decoded(self.input())
    }

    /// What the input holds, or where it cannot be decoded to its end, what it
    /// holds before the fault.
    pub open spec fn held(&self) -> Seq<u8> {
        syntax::held(self.input())
    }

    /// What was read so far.
    pub closed spec fn delivered(&self) -> Seq<u8> {
        self.all@.take(self.all@.len() - (self.out@.len() - self.out_read))
    }

    /// Whether the end of the input was reached and everything was read.
    pub closed spec fn finished(&self) -> bool {
        self.done && self.out@.len() == self.out_read
    }

    /// What is still to be decoded.
    spec fn rest(&self) -> Result<Seq<u8>> {
        if self.done {
            Ok(Seq::empty())
        } else if !self.started {
            self.stream()
        } else {
            syntax::run(
                self.reader.bits(),
                self.reader.at(),
                self.block_limit as nat,
                self.stream_crc,
            )
        }
    }

    /// What is still held.
    spec fn held_rest(&self) -> Seq<u8> {
        if self.done {
            Seq::empty()
        } else if !self.started {
            self.held()
        } else {
            syntax::held_from(
                self.reader.bits(),
                self.reader.at(),
                self.block_limit as nat,
                self.stream_crc,
            )
        }
    }

    /// The reader stands somewhere in the input that it was given.
    pub closed spec fn wf(&self) -> bool {
        &&& self.reader.wf()
        &&& self.block_limit <= MAX_BLOCK
        &&& self.out_read <= self.out@.len() <= self.all@.len()
        &&& self.out@ == self.all@.skip(self.all@.len() - self.out@.len())
        &&& !self.started ==> self.reader.at() == 0 && self.stream_crc == 0
        &&& self.stream() == error::joined(self.all@, self.rest())
        &&& self.held() == self.all@ + self.held_rest()
    }

    /// How much reading is left at most.
    pub closed spec fn budget(&self) -> (nat, nat) {
        (
            (self.reader.bits().len() - self.reader.at() + if self.done {
                0int
            } else {
                1
            }) as nat,
            (self.out@.len() - self.out_read) as nat,
        )
    }

    /// What was read is a start of what the input decodes to; at the end it is
    /// all of it.
    pub proof fn lemma_delivered(&self)
        requires
            self.wf(),
        ensures
            self.stream() matches Ok(all) ==> self.delivered().is_prefix_of(all),
            self.delivered().is_prefix_of(self.held()),
            self.finished() ==> self.stream() == Ok::<Seq<u8>, Error>(self.delivered()),
    {
        assert(self.delivered() =~= self.held().take(self.delivered().len() as int));
        if let Ok(all) = self.stream() {
            let more = self.rest()->Ok_0;
            assert(all == self.all@ + more);
            assert(self.delivered() =~= all.take(self.delivered().len() as int));
        }
        if self.finished() {
            assert(self.delivered() =~= self.all@);
            assert(self.all@ + Seq::<u8>::empty() =~= self.all@);
        }
    }

    /// Wrap `inner` at the start of bzip2 data.
    pub fn new(inner: Vec<u8>) -> (r: Self)
        ensures
            r.wf(),
            r.input() == inner@,
            r.delivered() == Seq::<u8>::empty(),
    {
        let r: Bzip2Reader = Bzip2Reader {
            reader: BitReader::new(inner),
            block_limit: MAX_BLOCK,
            out: Vec::new(),
            out_read: 0,
            stream_crc: 0,
            started: false,
            done: false,
            all: Ghost(Seq::empty()),
        };
        proof {
            assert(r.delivered() =~= Seq::<u8>::empty());
            assert(r.out@ =~= r.all@.skip(0));
            if let Ok(s) = r.stream() {
                assert(r.all@ + s =~= s);
            }
            assert(r.all@ + r.held() =~= r.held());
        }
        r
    }

    /// The rest of a stream header, its first byte being read.
    #[verifier::spinoff_prover]
    fn read_stream_header(&mut self, first: u8) -> (r: Result<()>)
        requires
            old(self).reader.wf(),
            old(self).reader.at() >= 8,
            bitio::field(old(self).reader.bits(), old(self).reader.at() - 8, 8) == Some(
                (first as nat, old(self).reader.at()),
            ),
        ensures
            final(self).reader.wf(),
            final(self).reader.data() == old(self).reader.data(),
            final(self).reader.bits() == old(self).reader.bits(),
            final(self).out == old(self).out,
            final(self).out_read == old(self).out_read,
            final(self).done == old(self).done,
            final(self).all == old(self).all,
            final(self).stream_crc == old(self).stream_crc,
            match syntax::header(old(self).reader.bits(), old(self).reader.at() - 8) {
                Some((limit, q)) => r is Ok && final(self).block_limit == limit && limit
                    <= MAX_BLOCK && final(self).reader.at() == q && final(self).started && q
                    <= old(self).reader.bits().len() && q == old(self).reader.at() + 24,
                None => r == Err::<(), Error>(Error::Malformed),
            },
    {
        let ghost b = self.reader.bits();
        let ghost p = self.reader.at() - 8;
        proof {
            self.reader.lemma_at();
            lemma2_to64();
            if p + 32 <= b.len() {
                let x = b.subrange(p, p + 8);
                let y = b.subrange(p + 8, p + 32);
                assert(b.subrange(p, p + 32) =~= x + y);
                bitio::lemma_value_concat(x, y);
                bitio::lemma_value_bound(y);
            }
        }
        let low: u32 = match self.reader.take(24) {
            Err(e) => {
                return Err(e);
            },
            Ok(v) => v,
        };
        assert(low < 0x100_0000);
        assert(first as int * 0x100_0000 <= 0xff00_0000) by (nonlinear_arith)
            requires
                first <= 255,
        ;
        let v: u32 = (first as u32) * 0x100_0000 + low;
        assert(bitio::value(b.subrange(p, p + 32)) == v);
        let digit: u32 = v % 256;
        if v / 256 != 0x425A68 || digit < 0x31 || digit > 0x39 {
            return Err(Error::Malformed);
        }
        self.block_limit = (digit - 0x30) as usize * 100_000;
        self.started = true;
        Ok(())
    }

    /// Go on to the next stream, if there is one.
    #[verifier::spinoff_prover]
    fn start_next_stream(&mut self) -> (r: Result<bool>)
        requires
            old(self).reader.wf(),
            old(self).started,
        ensures
            final(self).reader.wf(),
            final(self).reader.data() == old(self).reader.data(),
            final(self).reader.bits() == old(self).reader.bits(),
            final(self).out == old(self).out,
            final(self).out_read == old(self).out_read,
            final(self).done == old(self).done,
            final(self).all == old(self).all,
            r is Ok ==> final(self).started
                && (final(self).block_limit <= MAX_BLOCK || final(self).block_limit == old(self).block_limit)
                && final(self).reader.at() >= old(self).reader.at(),
            match syntax::next_start(
                old(self).reader.bits(),
                words::align8(old(self).reader.at()),
            ) {
                None => r == Ok::<bool, Error>(false),
                Some(y) => match syntax::header(old(self).reader.bits(), y) {
                    None => r == Err::<bool, Error>(Error::Malformed),
                    Some((limit, q)) => r == Ok::<bool, Error>(true) && final(self).block_limit
                        == limit && final(self).stream_crc == 0 && final(self).reader.at() == q
                        && old(self).reader.at() < q <= old(self).reader.bits().len(),
                },
            },
    {
        let ghost b = self.reader.bits();
        let ghost p = self.reader.at();
        self.reader.align();
        let mut first: u8 = 0;
        while first == 0
            invariant
                self.reader.wf(),
                self.reader.data() == old(self).reader.data(),
                self.reader.bits() == b,
                b == old(self).reader.bits(),
                p == old(self).reader.at(),
                p <= self.reader.at(),
                self.started,
                self.out == old(self).out,
                self.out_read == old(self).out_read,
                self.done == old(self).done,
                self.all == old(self).all,
                self.block_limit == old(self).block_limit,
                first == 0 ==> syntax::next_start(b, words::align8(p)) == syntax::next_start(
                    b,
                    self.reader.at(),
                ),
                first != 0 ==> self.reader.at() >= p + 8 && syntax::next_start(
                    b,
                    words::align8(p),
                ) == Some(self.reader.at() - 8) && bitio::field(b, self.reader.at() - 8, 8) == Some(
                    (first as nat, self.reader.at()),
                ),
            decreases (if self.reader.at() <= b.len() && first == 0 {
                b.len() - self.reader.at() + 1
            } else {
                0
            }),
        {
            proof {
                lemma2_to64();
                self.reader.lemma_at();
            }
            match self.reader.take(8) {
                Err(_) => {
                    return Ok(false);
                },
                Ok(v) => {
                    first = v as u8;
                },
            }
        }
        self.stream_crc = 0;
        match self.read_stream_header(first) {
            Err(e) => Err(e),
            Ok(_) => Ok(true),
        }
    }

    /// One block after its marker.
    #[verifier::spinoff_prover]
    fn read_block(&mut self) -> (r: Result<(Vec<u8>, u32)>)
        requires
            old(self).reader.wf(),
            old(self).block_limit <= MAX_BLOCK,
        ensures
            final(self).reader.wf(),
            final(self).reader.data() == old(self).reader.data(),
            final(self).reader.bits() == old(self).reader.bits(),
            final(self).out == old(self).out,
            final(self).out_read == old(self).out_read,
            final(self).done == old(self).done,
            final(self).started == old(self).started,
            final(self).stream_crc == old(self).stream_crc,
            final(self).block_limit == old(self).block_limit,
            final(self).all == old(self).all,
            match syntax::block(
                old(self).reader.bits(),
                old(self).reader.at(),
                old(self).block_limit as nat,
            ) {
                Ok((out, check, q)) => r matches Ok(v) && v.0@ == out && v.1 == check
                    && final(self).reader.at() == q
                    && old(self).reader.at() <= q <= old(self).reader.bits().len(),
                Err(e) => r matches Err(f) && f == e,
            },
    {
        reveal(syntax::block);
        proof {
            lemma2_to64();
            self.reader.lemma_at();
        }
        let check: u32 = match self.reader.take(32) {
            Err(e) => {
                return Err(e);
            },
            Ok(v) => v,
        };
        match self.reader.bit() {
            Err(e) => {
                return Err(e);
            },
            Ok(x) => {
                if x {
                    return Err(Error::Unsupported(Unsupported::Other));
                }
            },
        }
        let origin: usize = match self.reader.take(24) {
            Err(e) => {
                return Err(e);
            },
            Ok(v) => v as usize,
        };
        let map: Vec<u8> = match read_symbol_map(&mut self.reader) {
            Err(e) => {
                return Err(e);
            },
            Ok(v) => v,
        };
        let (tables, selectors) = match read_tables(&mut self.reader, map.len() + 2) {
            Err(e) => {
                return Err(e);
            },
            Ok(v) => v,
        };
        let last: Vec<u8> = match read_mtf_rle2(
            &mut self.reader,
            &tables,
            &selectors,
            &map,
            self.block_limit,
        ) {
            Err(e) => {
                return Err(e);
            },
            Ok(v) => v,
        };
        if origin >= last.len() {
            return Err(Error::Malformed);
        }
        let packed: Vec<u8> = restore(last.as_slice(), origin);
        let out: Vec<u8> = match decode_rle1(packed.as_slice()) {
            Err(e) => {
                return Err(e);
            },
            Ok(v) => v,
        };
        let mut crc: Crc = Crc::new();
        crc.update(out.as_slice());
        proof {
            assert(Seq::<u8>::empty() + out@ =~= out@);
            assert(crc.covers(out@));
        }
        let found: u32 = crc.finish();
        if found != check {
            return Err(Error::Malformed);
        }
        Ok((out, check))
    }

    /// Decode the next block, or go past the end of a stream.
    #[verifier::spinoff_prover]
    #[verifier::rlimit(60)]
    fn next_block(&mut self) -> (r: Result<()>)
        requires
            old(self).wf(),
            !old(self).done,
            old(self).out@.len() == old(self).out_read,
        ensures
            r is Ok ==> {
                &&& final(self).wf()
                &&& final(self).input() == old(self).input()
                &&& final(self).delivered() == old(self).delivered()
                &&& final(self).budget().0 < old(self).budget().0
            },
            r matches Err(e) ==> old(self).stream() == Err::<Seq<u8>, Error>(e) && old(self).held()
                == old(self).delivered(),
    {
        let ghost b = self.reader.bits();
        let ghost data = self.reader.data();
        proof {
            lemma2_to64();
            self.reader.lemma_at();
            assert(self.delivered() =~= self.all@);
            assert(self.all@ + Seq::<u8>::empty() =~= self.all@);
        }
        if !self.started {
            let first: u8 = match self.reader.take(8) {
                Err(e) => {
                    assert(syntax::header(b, 0) is None);
                    return Err(e);
                },
                Ok(v) => v as u8,
            };
            if let Err(e) = self.read_stream_header(first) {
                return Err(e);
            }
        }
        let ghost p = self.reader.at();
        let ghost limit = self.block_limit as nat;
        let ghost check = self.stream_crc;
        let ghost after = syntax::run(b, p, limit, check);
        assert(old(self).stream() == error::joined(self.all@, after));
        assert(old(self).held() == self.all@ + syntax::held_from(b, p, limit, check));
        proof {
            if p + 48 <= b.len() {
                let x = b.subrange(p, p + 24);
                let y = b.subrange(p + 24, p + 48);
                assert(b.subrange(p, p + 48) =~= x + y);
                bitio::lemma_value_concat(x, y);
            }
        }
        let high: u32 = match self.reader.take(24) {
            Err(e) => {
                return Err(e);
            },
            Ok(v) => v,
        };
        let low: u32 = match self.reader.take(24) {
            Err(e) => {
                return Err(e);
            },
            Ok(v) => v,
        };
        let magic: u64 = (high as u64) * 0x100_0000 + low as u64;
        assert(bitio::field(b, p, 48) == Some((magic as nat, p + 48)));
        if magic == STREAM_MAGIC {
            let declared: u32 = match self.reader.take(32) {
                Err(e) => {
                    return Err(e);
                },
                Ok(v) => v,
            };
            if declared != self.stream_crc {
                return Err(Error::Malformed);
            }
            let more: bool = match self.start_next_stream() {
                Err(e) => {
                    return Err(e);
                },
                Ok(x) => x,
            };
            self.done = !more;
            proof {
                self.reader.lemma_at();
                assert(self.rest() == after);
                assert(self.delivered() == old(self).delivered());
            }
            return Ok(());
        }
        if magic != BLOCK_MAGIC {
            return Err(Error::Malformed);
        }
        let (out, found) = match self.read_block() {
            Err(e) => {
                return Err(e);
            },
            Ok(v) => v,
        };
        self.stream_crc = combine(self.stream_crc, found);
        let ghost was = self.all@;
        self.all = Ghost(was + out@);
        self.out = out;
        self.out_read = 0;
        proof {
            assert(self.out@ =~= self.all@.skip(self.all@.len() - self.out@.len()));
            assert(self.delivered() =~= was);
            let rest = self.rest();
            assert(after == error::joined(self.out@, rest));
            if let Ok(more) = rest {
                assert(was + (self.out@ + more) =~= (was + self.out@) + more);
            }
            let more = self.held_rest();
            assert(was + (self.out@ + more) =~= (was + self.out@) + more);
        }
        Ok(())
    }

    /// Read the next bytes of the output into `buf`. Nothing is read only at
    /// the end of the input.
    pub fn read(&mut self, buf: &mut [u8]) -> (r: Result<usize>)
        requires
            old(self).wf(),
        ensures
            final(buf)@.len() == old(buf)@.len(),
            r matches Ok(n) ==> {
                &&& final(self).wf()
                &&& final(self).input() == old(self).input()
                &&& n <= old(buf)@.len()
                &&& final(self).delivered() == old(self).delivered() + final(buf)@.take(n as int)
                &&& final(buf)@.skip(n as int) == old(buf)@.skip(n as int)
                &&& n == 0 && old(buf)@.len() > 0 ==> final(self).finished()
                &&& n > 0 ==> final(self).budget().0 < old(self).budget().0 || final(self).budget().0 == old(self).budget().0
                    && final(self).budget().1 < old(self).budget().1
            },
            r matches Err(e) ==> old(self).stream() == Err::<Seq<u8>, Error>(e) && old(
                self,
            ).delivered() == old(self).held(),
    {
        if buf.len() == 0 {
            assert(buf@.take(0) =~= Seq::<u8>::empty());
            return Ok(0);
        }
        while self.out.len() == self.out_read && !self.done
            invariant
                self.wf(),
                self.input() == old(self).input(),
                self.delivered() == old(self).delivered(),
                self.budget().0 <= old(self).budget().0,
                self.budget().0 == old(self).budget().0 ==> self.budget().1 <= old(self).budget().1,
                buf@ == old(buf)@,
            decreases self.budget().0,
        {
            if let Err(e) = self.next_block() {
                return Err(e);
            }
        }
        let left: usize = self.out.len() - self.out_read;
        let n: usize = if left < buf.len() {
            left
        } else {
            buf.len()
        };
        let ghost before = buf@;
        let mut i: usize = 0;
        while i < n
            invariant
                i <= n <= buf@.len(),
                buf@.len() == before.len(),
                n <= self.out.len() - self.out_read,
                self.out_read <= self.out.len(),
                forall|k: int| 0 <= k < i ==> #[trigger] buf@[k] == self.out@[self.out_read + k],
                forall|k: int| n <= k < buf@.len() ==> #[trigger] buf@[k] == before[k],
            decreases n - i,
        {
            buf[i] = self.out[self.out_read + i];
            i = i + 1;
        }
        let ghost was = self.delivered();
        self.out_read = self.out_read + n;
        proof {
            assert(self.delivered() =~= was + buf@.take(n as int));
            assert(buf@.skip(n as int) =~= before.skip(n as int));
        }
        Ok(n)
    }
}

/// Decode bzip2 data.
pub fn decompress(data: &[u8], size_hint: usize) -> (r: Result<Vec<u8>>)
    ensures
        match syntax::decoded(data@) {
            Ok(all) => r matches Ok(out) && out@ == all,
            Err(e) => r matches Err(f) && f == e,
        },
{
    let mut input: Vec<u8> = Vec::with_capacity(data.len());
    input.extend_from_slice(data);
    assert(input@ =~= data@);
    let mut reader: Bzip2Reader = Bzip2Reader::new(input);
    let mut out: Vec<u8> = Vec::new();
    let mut chunk: Vec<u8> = vec![0u8; 4096];
    loop
        invariant
            reader.wf(),
            reader.input() == data@,
            out@ == reader.delivered(),
            chunk@.len() == 4096,
        decreases reader.budget().0, reader.budget().1,
    {
        match reader.read(chunk.as_mut_slice()) {
            Err(e) => {
                return Err(e);
            },
            Ok(n) => {
                if n == 0 {
                    proof {
                        reader.lemma_delivered();
                        assert(out@ + chunk@.take(0) =~= out@);
                    }
                    return Ok(out);
                }
                out.extend_from_slice(&chunk.as_slice()[0..n]);
                assert(out@ =~= reader.delivered());
            },
        }
    }
}

} // verus!
