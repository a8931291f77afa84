//! Entries imploded by the rules of the method.
use crate::codecs::legacy::implode;
use crate::codecs::legacy::implode::Trees;
use crate::codecs::legacy::reducing;
use crate::utils::bits;
use crate::utils::lz;
use vstd::arithmetic::div_mod::*;
use vstd::arithmetic::mul::*;
use vstd::arithmetic::power2::*;
use vstd::prelude::*;

verus! {

/// How much of the code space a word takes.
pub open spec fn part(len: u8) -> nat {
    pow2((16 - len) as nat)
}

/// How much the words of the first `n` symbols take.
pub open spec fn taken(lens: Seq<u8>, n: nat) -> nat
    decreases n,
{
    if n == 0 {
        0
    } else {
        taken(lens, (n - 1) as nat) + part(lens[n - 1])
    }
}

/// Whether lengths make a code that leaves nothing of the space.
pub open spec fn complete(lens: Seq<u8>) -> bool {
    &&& forall|i: int| 0 <= i < lens.len() ==> 1 <= #[trigger] lens[i] <= 16
    &&& taken(lens, lens.len()) == 65536
}

/// What comes before the word of a symbol: longer words, and words as long of
/// later symbols. The codes count up from there.
spec fn start_of(lens: Seq<u8>, s: int) -> nat {
    implode::space(lens, lens[s] as int, s, lens.len())
}

/// The bits of a number, the most significant first.
pub open spec fn high_bits(v: nat, n: nat) -> Seq<bool> {
    Seq::new(n, |i: int| v / pow2((n - 1 - i) as nat) % 2 == 1)
}

/// The word of a symbol.
pub open spec fn word(lens: Seq<u8>, s: int) -> Seq<bool> {
    high_bits(implode::code_of(lens, s), lens[s] as nat)
}

proof fn lemma_space_part(lens: Seq<u8>, l: int, s: int, n: nat)
    requires
        n <= lens.len(),
        0 <= s < lens.len(),
        lens[s] == l,
    ensures
        implode::space(lens, l, s, n) + (if n > s {
            part(lens[s])
        } else {
            0
        }) <= taken(lens, n),
    decreases n,
{
    if n > 0 {
        lemma_space_part(lens, l, s, (n - 1) as nat);
    }
}

/// A shorter word comes after all of a longer one.
proof fn lemma_shorter_after(lens: Seq<u8>, s: int, t: int, n: nat)
    requires
        n <= lens.len(),
        0 <= s < lens.len(),
        0 <= t < lens.len(),
        lens[t] < lens[s],
    ensures
        implode::space(lens, lens[s] as int, s, n) + (if n > s {
            part(lens[s])
        } else {
            0
        }) <= implode::space(lens, lens[t] as int, t, n),
    decreases n,
{
    if n > 0 {
        lemma_shorter_after(lens, s, t, (n - 1) as nat);
    }
}

/// Of words as long that of the later symbol comes first.
proof fn lemma_later_before(lens: Seq<u8>, s: int, t: int, n: nat)
    requires
        n <= lens.len(),
        0 <= s < t < lens.len(),
        lens[t] == lens[s],
    ensures
        implode::space(lens, lens[t] as int, t, n) + (if n > t {
            part(lens[s])
        } else {
            0
        }) <= implode::space(lens, lens[s] as int, s, n),
    decreases n,
{
    if n > 0 {
        lemma_later_before(lens, s, t, (n - 1) as nat);
    }
}

proof fn lemma_part_multiple(l: int, k: u8)
    requires
        1 <= k <= l <= 16,
    ensures
        part(k) % pow2((16 - l) as nat) == 0,
        pow2((16 - l) as nat) > 0,
{
    let u = pow2((16 - l) as nat);
    lemma_pow2_pos((16 - l) as nat);
    lemma_pow2_adds((16 - l) as nat, (l - k) as nat);
    let d = pow2((l - k) as nat);
    assert(part(k) == u * d);
    lemma_mod_multiples_basic(d as int, u as int);
    lemma_mul_is_commutative(u as int, d as int);
}

/// What is not before a word is a whole number of words as long.
proof fn lemma_rest_multiple(lens: Seq<u8>, l: int, s: int, n: nat)
    requires
        n <= lens.len(),
        1 <= l <= 16,
        forall|i: int| 0 <= i < lens.len() ==> 1 <= #[trigger] lens[i] <= 16,
    ensures
        (taken(lens, n) - implode::space(lens, l, s, n)) % (pow2((16 - l) as nat) as int) == 0,
        implode::space(lens, l, s, n) <= taken(lens, n),
    decreases n,
{
    let u = pow2((16 - l) as nat) as int;
    lemma_pow2_pos((16 - l) as nat);
    if n > 0 {
        lemma_rest_multiple(lens, l, s, (n - 1) as nat);
        let t = n - 1;
        let x = taken(lens, (n - 1) as nat) - implode::space(lens, l, s, (n - 1) as nat);
        if !(lens[t] > l || lens[t] == l && t > s) {
            lemma_part_multiple(l, lens[t]);
            lemma_mod_adds(x, part(lens[t]) as int, u);
            assert((x + part(lens[t])) % u == 0) by {
                lemma_add_mod_noop(x, part(lens[t]) as int, u);
            }
        }
    } else {
        assert(0int % u == 0) by {
            lemma_small_mod(0, u as nat);
        }
    }
}

/// Where a word starts, and that its code is that many words of its length.
proof fn lemma_start(lens: Seq<u8>, s: int)
    requires
        complete(lens),
        0 <= s < lens.len(),
    ensures
        start_of(lens, s) + part(lens[s]) <= 65536,
        start_of(lens, s) == implode::code_of(lens, s) * part(lens[s]),
        implode::code_of(lens, s) < pow2(lens[s] as nat),
{
    let l = lens[s] as int;
    let u = part(lens[s]) as int;
    let x = start_of(lens, s) as int;
    assert(1 <= lens[s] <= 16);
    lemma_pow2_pos((16 - l) as nat);
    lemma_space_part(lens, l, s, lens.len());
    lemma_rest_multiple(lens, l, s, lens.len());
    lemma_pow2_adds((16 - l) as nat, l as nat);
    assert(pow2(16) == 65536) by {
        lemma2_to64();
    }
    let m = pow2(l as nat) as int;
    assert(u * m == 65536);
    lemma_mul_is_commutative(u, m);
    assert(65536int % u == 0) by {
        lemma_mod_multiples_basic(m, u);
    }
    assert(x % u == 0) by {
        let y = 65536 - x;
        lemma_sub_mod_noop(65536, y, u);
        lemma_small_mod(0, u as nat);
    }
    lemma_fundamental_div_mod(x, u);
    let q = x / u;
    assert(x == u * q);
    assert(q < m) by {
        lemma_multiply_divide_lt(x, u, m);
    }
    assert(q >= 0) by {
        lemma_div_pos_is_pos(x, u);
    }
    lemma_small_mod(q as nat, m as nat);
    lemma_mul_is_commutative(u, q);
}

/// What the first bits of a word spell.
proof fn lemma_spelled(data: Seq<u8>, p: int, v: nat, n: nat, k: nat)
    requires
        k <= n,
        v < pow2(n),
        bits::has(data, p, high_bits(v, n)),
    ensures
        implode::spelled(data, p, k) == v / pow2((n - k) as nat),
    decreases k,
{
    lemma_pow2_pos((n - k) as nat);
    if k == 0 {
        assert(v / pow2(n) == 0) by {
            lemma_basic_div(v as int, pow2(n) as int);
        }
    } else {
        let j = (k - 1) as nat;
        lemma_spelled(data, p, v, n, j);
        let w = high_bits(v, n);
        assert(bits::bit(data, p + j) == w[j as int]);
        lemma2_to64();
        reveal_with_fuel(bits::peek, 2);
        let d = pow2((n - k) as nat);
        lemma_pow2_unfold((n - j) as nat);
        assert(pow2((n - j) as nat) == 2 * d);
        lemma_div_denominator(v as int, d as int, 2);
        lemma_mul_is_commutative(d as int, 2);
        let x = v / d;
        assert(v / (2 * d) == x / 2);
        assert(bits::bit(data, p + j) == (x % 2 == 1));
    }
}

/// What no symbol has is not found.
proof fn lemma_none(lens: Seq<u8>, k: nat, v: nat, t: int)
    requires
        0 <= t <= lens.len(),
        forall|i: int|
            0 <= i < lens.len() && lens[i] == k ==> #[trigger] implode::code_of(lens, i) != v,
    ensures
        implode::found(lens, k, v, t) is None,
    decreases lens.len() - t,
{
    if t < lens.len() {
        lemma_none(lens, k, v, t + 1);
        if lens[t] == k {
            assert(implode::code_of(lens, t) != v);
        }
    }
}

/// No shorter word is the start of a word.
proof fn lemma_not_found(lens: Seq<u8>, s: int, k: nat)
    requires
        complete(lens),
        0 <= s < lens.len(),
        1 <= k < lens[s],
    ensures
        implode::found(
            lens,
            k,
            implode::code_of(lens, s) / pow2((lens[s] - k) as nat),
            0,
        ) is None,
{
    let v = implode::code_of(lens, s) / pow2((lens[s] - k) as nat);
    assert forall|t: int| 0 <= t < lens.len() && lens[t] == k implies #[trigger] implode::code_of(
        lens,
        t,
    ) != v by {
        lemma_start(lens, s);
        lemma_start(lens, t);
        lemma_shorter_after(lens, s, t, lens.len());
        let us = part(lens[s]) as int;
        let ut = part(lens[t]) as int;
        let d = pow2((lens[s] - k) as nat) as int;
        assert(1 <= lens[s] <= 16);
        lemma_pow2_adds((16 - lens[s]) as nat, (lens[s] - k) as nat);
        assert(ut == us * d);
        lemma_pow2_pos((16 - lens[s]) as nat);
        lemma_pow2_pos((16 - k) as nat);
        lemma_pow2_pos((lens[s] - k) as nat);
        let x = start_of(lens, s) as int;
        let y = start_of(lens, t) as int;
        let cs = implode::code_of(lens, s) as int;
        let ct = implode::code_of(lens, t) as int;
        assert(x < y);
        assert(y == ut * ct) by {
            lemma_mul_is_commutative(ct, ut);
        }
        lemma_multiply_divide_lt(x, ut, ct);
        lemma_div_denominator(x, us, d);
        assert(x / us == cs) by {
            lemma_div_by_multiple(cs, us);
        }
        assert(cs / d == x / ut);
    }
    lemma_none(lens, k, v, 0);
}

/// A word of its length is found as its symbol.
proof fn lemma_found(lens: Seq<u8>, s: int, t: int)
    requires
        complete(lens),
        0 <= t <= s < lens.len(),
    ensures
        implode::found(lens, lens[s] as nat, implode::code_of(lens, s), t) == Some(s),
    decreases s - t,
{
    if t < s {
        lemma_found(lens, s, t + 1);
        if lens[t] == lens[s] {
            lemma_start(lens, s);
            lemma_start(lens, t);
            lemma_later_before(lens, t, s, lens.len());
            lemma_pow2_pos((16 - lens[s]) as nat);
            assert(implode::code_of(lens, s) != implode::code_of(lens, t));
        }
    }
}

/// A word written is the symbol read.
proof fn lemma_symbol_from(data: Seq<u8>, p: int, lens: Seq<u8>, s: int, n: nat)
    requires
        complete(lens),
        0 <= s < lens.len(),
        n < lens[s],
        bits::has(data, p, word(lens, s)),
    ensures
        implode::symbol_from(data, p, lens, n) == Some((s, p + lens[s])),
    decreases lens[s] - n,
{
    assert(1 <= lens[s] <= 16);
    lemma_start(lens, s);
    let v = implode::code_of(lens, s);
    lemma_spelled(data, p, v, lens[s] as nat, n + 1);
    assert(word(lens, s).len() == lens[s]);
    assert(p + n + 1 <= 8 * data.len());
    if n + 1 == lens[s] {
        assert(pow2(0) == 1) by {
            lemma2_to64();
        }
        assert(v / 1 == v);
        lemma_found(lens, s, 0);
    } else {
        lemma_not_found(lens, s, n + 1);
        lemma_symbol_from(data, p, lens, s, n + 1);
    }
}

/// A literal or a match.
pub enum Item {
    Literal(u8),
    Match { len: int, dist: int },
}

/// How many bits of a distance are written as they are: six, or seven with a
/// large dictionary.
pub open spec fn low_bits(large: bool) -> nat {
    if large {
        7
    } else {
        6
    }
}

/// The shortest match: two bytes, or three if literals have a code.
pub open spec fn shortest(tree: bool) -> int {
    if tree {
        3
    } else {
        2
    }
}

/// The bits of an item: a one and a literal, or a zero, a distance and a
/// length. A length of 63 more than the shortest, or longer, has a byte more.
pub open spec fn item_bits(t: Item, large: bool, c: Trees) -> Seq<bool> {
    match t {
        Item::Literal(b) => seq![true] + match c.literals {
            Some(lens) => word(lens, b as int),
            None => bits::bits_of(b as nat, 8),
        },
        Item::Match { len, dist } => {
            let w = low_bits(large);
            let d = dist - 1;
            let k = len - shortest(c.literals is Some);
            let front = seq![false] + bits::bits_of((d % (pow2(w) as int)) as nat, w) + word(
                c.distances,
                d / (pow2(w) as int),
            );
            if k < 63 {
                front + word(c.lengths, k)
            } else {
                front + word(c.lengths, 63) + bits::bits_of((k - 63) as nat, 8)
            }
        },
    }
}

/// Whether an item can stand after `before` bytes.
pub open spec fn item_ok(t: Item, large: bool, c: Trees, before: nat) -> bool {
    match t {
        Item::Literal(_) => true,
        Item::Match { len, dist } => {
            let k = len - shortest(c.literals is Some);
            &&& 0 <= k <= 63 + 255
            &&& 1 <= dist <= 64 * pow2(low_bits(large))
            &&& dist <= before
        },
    }
}

/// Whether the codes of an entry are in order.
pub open spec fn trees_ok(c: Trees, large: bool) -> bool {
    &&& c.literals matches Some(lens) ==> lens.len() == 256 && complete(lens)
    &&& c.lengths.len() == 64
    &&& complete(c.lengths)
    &&& c.distances.len() == 64
    &&& complete(c.distances)
    &&& c.low == low_bits(large)
    &&& c.least == shortest(c.literals is Some)
}

/// What an item adds.
pub open spec fn added(out: Seq<u8>, t: Item) -> Seq<u8> {
    match t {
        Item::Literal(b) => out.push(b),
        Item::Match { len, dist } => lz::copied(out, dist, len as nat),
    }
}

/// The length of a match reads back.
#[verifier::spinoff_prover]
#[verifier::rlimit(40)]
proof fn lemma_match(
    data: Seq<u8>,
    p: int,
    len: int,
    dist: int,
    large: bool,
    c: Trees,
    before: nat,
)
    requires
        trees_ok(c, large),
        item_ok(Item::Match { len, dist }, large, c, before),
        bits::has(data, p, item_bits(Item::Match { len, dist }, large, c)),
    ensures
        implode::next_at(data, p, c) == implode::Next::Match(
            dist,
            len as nat,
            p + item_bits(Item::Match { len, dist }, large, c).len(),
        ),
{
    let w = low_bits(large);
    let u = pow2(w) as int;
    assert(u == 64 || u == 128) by {
        lemma2_to64();
    }
    assert(pow2(8) == 256) by {
        lemma2_to64();
    }
    let d = dist - 1;
    let k = len - shortest(c.literals is Some);
    let low = d % u;
    let high = d / u;
    lemma_fundamental_div_mod(d, u);
    assert(u * high == high * u) by {
        lemma_mul_is_commutative(high, u);
    }
    assert(0 <= high < 64) by {
        if u == 64 {
            assert(d < 64 * 64);
        } else {
            assert(d < 64 * 128);
        }
    }
    let b1 = bits::bits_of(low as nat, w);
    let b2 = word(c.distances, high);
    let l = if k < 63 {
        k
    } else {
        63
    };
    let b3 = word(c.lengths, l);
    let front = seq![false] + b1 + b2;
    assert(b1.len() == w && b2.len() == c.distances[high] && b3.len() == c.lengths[l]);
    let v = p + 1 + w + b2.len() + b3.len();
    if k >= 63 {
        let b4 = bits::bits_of((k - 63) as nat, 8);
        bits::lemma_has_concat(data, p, front + b3, b4);
        reducing::lemma_field(data, v, (k - 63) as nat, 8);
    }
    bits::lemma_has_concat(data, p, front, b3);
    bits::lemma_has_concat(data, p, seq![false] + b1, b2);
    bits::lemma_has_concat(data, p, seq![false], b1);
    reducing::lemma_flag(data, p, false);
    reducing::lemma_field(data, p + 1, low as nat, w);
    assert(1 <= c.distances[high] <= 16);
    assert(1 <= c.lengths[l] <= 16);
    lemma_symbol_from(data, p + 1 + w, c.distances, high, 0);
    lemma_symbol_from(data, p + 1 + w + b2.len(), c.lengths, l, 0);
}

/// A literal reads back.
proof fn lemma_literal(data: Seq<u8>, p: int, b: u8, large: bool, c: Trees)
    requires
        trees_ok(c, large),
        bits::has(data, p, item_bits(Item::Literal(b), large, c)),
    ensures
        implode::next_at(data, p, c) == implode::Next::Literal(
            b,
            p + item_bits(Item::Literal(b), large, c).len(),
        ),
{
    assert(pow2(8) == 256) by {
        lemma2_to64();
    }
    match c.literals {
        Some(lens) => {
            bits::lemma_has_concat(data, p, seq![true], word(lens, b as int));
            reducing::lemma_flag(data, p, true);
            assert(1 <= lens[b as int] <= 16);
            lemma_symbol_from(data, p + 1, lens, b as int, 0);
        },
        None => {
            bits::lemma_has_concat(data, p, seq![true], bits::bits_of(b as nat, 8));
            reducing::lemma_flag(data, p, true);
            reducing::lemma_field(data, p + 1, b as nat, 8);
        },
    }
}

/// An item written is the item read.
pub proof fn lemma_item(data: Seq<u8>, p: int, t: Item, large: bool, c: Trees, out: Seq<u8>)
    requires
        trees_ok(c, large),
        item_ok(t, large, c, out.len()),
        bits::has(data, p, item_bits(t, large, c)),
    ensures
        implode::run(data, p, c, out) == implode::run(
            data,
            p + item_bits(t, large, c).len(),
            c,
            added(out, t),
        ),
{
    let w = item_bits(t, large, c);
    assert(p + w.len() <= 8 * data.len());
    match t {
        Item::Literal(b) => {
            lemma_literal(data, p, b, large, c);
            assert(w.len() > 0);
        },
        Item::Match { len, dist } => {
            lemma_match(data, p, len, dist, large, c, out.len());
            assert(w.len() > 0);
        },
    }
}

/// A run of equal lengths.
pub struct Run {
    pub len: int,
    pub count: int,
}

/// The lengths that runs stand for.
pub open spec fn runs_lengths(rs: Seq<Run>) -> Seq<u8>
    decreases rs.len(),
{
    if rs.len() == 0 {
        Seq::empty()
    } else {
        runs_lengths(rs.drop_last()) + Seq::new(
            rs.last().count as nat,
            |i: int| rs.last().len as u8,
        )
    }
}

/// The bytes of a code: how many runs there are less one, and for each how
/// many less one in the upper half and the length less one in the lower.
pub open spec fn tree_bytes(rs: Seq<Run>) -> Seq<u8> {
    seq![(rs.len() - 1) as u8] + Seq::new(
        rs.len(),
        |i: int| ((rs[i].count - 1) * 16 + (rs[i].len - 1)) as u8,
    )
}

/// Whether runs can be written.
pub open spec fn runs_ok(rs: Seq<Run>) -> bool {
    &&& 1 <= rs.len() <= 256
    &&& forall|i: int|
        0 <= i < rs.len() ==> 1 <= (#[trigger] rs[i]).len <= 16 && 1 <= rs[i].count <= 16
}

proof fn lemma_runs(data: Seq<u8>, at: int, rs: Seq<Run>, n: nat, symbols: nat)
    requires
        runs_ok(rs),
        n <= rs.len(),
        0 <= at,
        at + rs.len() <= data.len(),
        forall|i: int|
            0 <= i < rs.len() ==> data[at + i] == ((#[trigger] rs[i]).count - 1) * 16 + (rs[i].len
                - 1),
        runs_lengths(rs.take(n as int)).len() <= symbols,
    ensures
        implode::lengths_at(data, at, n, symbols) == Some(runs_lengths(rs.take(n as int))),
    decreases n,
{
    if n == 0 {
        assert(rs.take(0) =~= Seq::<Run>::empty());
    } else {
        let r = rs[n - 1];
        let f = rs.take(n - 1);
        assert(rs.take(n as int).drop_last() =~= f);
        assert(rs.take(n as int).last() == r);
        lemma_runs(data, at, rs, (n - 1) as nat, symbols);
        assert(data[at + (n - 1)] == (rs[n - 1].count - 1) * 16 + (rs[n - 1].len - 1));
        assert(implode::run_of(r.len as u8, r.count as nat) =~= Seq::new(
            r.count as nat,
            |i: int| r.len as u8,
        ));
    }
}

/// A code written is the code read.
pub proof fn lemma_tree(data: Seq<u8>, at: int, rs: Seq<Run>)
    requires
        runs_ok(rs),
        0 <= at,
        at + 1 + rs.len() <= data.len(),
        data.subrange(at, at + 1 + rs.len()) == tree_bytes(rs),
    ensures
        implode::tree_at(data, at, runs_lengths(rs).len()) == Some(
            (runs_lengths(rs), at + 1 + rs.len()),
        ),
{
    let w = tree_bytes(rs);
    let d = data.subrange(at, at + 1 + rs.len());
    assert(d[0] == w[0]);
    assert forall|i: int| 0 <= i < rs.len() implies data[at + 1 + i] == ((
    #[trigger] rs[i]).count - 1) * 16 + (rs[i].len - 1) by {
        assert(d[1 + i] == w[1 + i]);
    }
    assert(rs.take(rs.len() as int) =~= rs);
    lemma_runs(data, at + 1, rs, rs.len(), runs_lengths(rs).len());
}

/// An entry is read with the codes before it, as its flags say: bit 1 for a
/// large dictionary, bit 2 for a code of literals.
pub proof fn lemma_entry(
    data: Seq<u8>,
    large: bool,
    literals: Option<Seq<Run>>,
    lengths: Seq<Run>,
    distances: Seq<Run>,
    body: Seq<u8>,
)
    requires
        literals matches Some(rs) ==> runs_ok(rs) && runs_lengths(rs).len() == 256,
        runs_ok(lengths),
        runs_lengths(lengths).len() == 64,
        runs_ok(distances),
        runs_lengths(distances).len() == 64,
        data == (match literals {
            Some(rs) => tree_bytes(rs),
            None => Seq::empty(),
        }) + tree_bytes(lengths) + tree_bytes(distances) + body,
    ensures
        ({
            let flags = (if large {
                2int
            } else {
                0
            }) + if literals is Some {
                4int
            } else {
                0
            };
            implode::decoded(data, flags as u16) == implode::run(
                body,
                0,
                Trees {
                    literals: match literals {
                        Some(rs) => Some(runs_lengths(rs)),
                        None => None,
                    },
                    lengths: runs_lengths(lengths),
                    distances: runs_lengths(distances),
                    low: low_bits(large),
                    least: shortest(literals is Some) as nat,
                },
                Seq::empty(),
            )
        }),
{
    let t0 = match literals {
        Some(rs) => tree_bytes(rs),
        None => Seq::empty(),
    };
    let a = t0.len() as int;
    let b = a + 1 + lengths.len();
    let c = b + 1 + distances.len();
    if let Some(rs) = literals {
        assert(data.subrange(0, a) =~= tree_bytes(rs));
        lemma_tree(data, 0, rs);
    }
    assert(data.subrange(a, b) =~= tree_bytes(lengths));
    lemma_tree(data, a, lengths);
    assert(data.subrange(b, c) =~= tree_bytes(distances));
    lemma_tree(data, b, distances);
    assert(data.skip(c) =~= body);
}

} // verus!
