//! Entries reduced by the rules of the method.
//!
//! Repeats become three or four bytes that start with an escape. Then each
//! byte is written by its place among the likely followers of the one before
//! it, or as it is.
use crate::codecs::legacy::bits as entry;
use crate::codecs::legacy::reduce;
use crate::utils::bits;
use vstd::arithmetic::power2::*;
use vstd::prelude::*;

verus! {

/// A byte, or bytes that came before.
pub enum Part {
    Literal(u8),
    Copy { len: int, dist: int },
}

/// How many bits of a control byte are for the length: seven for the first
/// method, one less for each after it.
pub open spec fn length_bits(method: int) -> nat {
    (9 - method) as nat
}

/// The longest length that needs no byte of its own, less three.
pub open spec fn short_most(method: int) -> int {
    pow2(length_bits(method)) - 1
}

/// Whether a part can be written. A copy of three bytes from one of the last
/// 256 places cannot: its control byte would be zero.
pub open spec fn part_ok(method: int, t: Part) -> bool {
    match t {
        Part::Literal(_) => true,
        Part::Copy { len, dist } => {
            &&& 3 <= len <= 3 + short_most(method) + 255
            &&& 1 <= dist <= 256 * pow2((method - 1) as nat)
            &&& len > 3 || dist > 256
        },
    }
}

/// The bytes of a part.
pub open spec fn part_bytes(method: int, t: Part) -> Seq<u8> {
    match t {
        Part::Literal(b) => if b == 0x90 {
            seq![0x90u8, 0u8]
        } else {
            seq![b]
        },
        Part::Copy { len, dist } => {
            let k = len - 3;
            let most = short_most(method);
            let high = (dist - 1) / 256 * pow2(length_bits(method));
            let low = ((dist - 1) % 256) as u8;
            if k < most {
                seq![0x90u8, (high + k) as u8, low]
            } else {
                seq![0x90u8, (high + most) as u8, (k - most) as u8, low]
            }
        },
    }
}

/// The bytes of parts.
pub open spec fn parts_bytes(method: int, ts: Seq<Part>) -> Seq<u8>
    decreases ts.len(),
{
    if ts.len() == 0 {
        Seq::empty()
    } else {
        part_bytes(method, ts[0]) + parts_bytes(method, ts.skip(1))
    }
}

/// Bytes from `dist` back again; before the start there are zeros.
pub open spec fn again(out: Seq<u8>, dist: int, len: nat) -> Seq<u8>
    decreases len,
{
    if len == 0 {
        out
    } else {
        let front = again(out, dist, (len - 1) as nat);
        front.push(
            if front.len() >= dist {
                front[front.len() - dist]
            } else {
                0
            },
        )
    }
}

/// What a part adds.
pub open spec fn added(out: Seq<u8>, t: Part) -> Seq<u8> {
    match t {
        Part::Literal(b) => out.push(b),
        Part::Copy { len, dist } => again(out, dist, len as nat),
    }
}

/// What parts add.
pub open spec fn all_added(out: Seq<u8>, ts: Seq<Part>) -> Seq<u8>
    decreases ts.len(),
{
    if ts.len() == 0 {
        out
    } else {
        all_added(added(out, ts[0]), ts.skip(1))
    }
}

proof fn lemma_again(out: Seq<u8>, dist: int, len: nat)
    ensures
        again(out, dist, len).len() == out.len() + len,
        len > 0 ==> again(out, dist, len) == again(
            out.push(
                if dist > out.len() {
                    0
                } else {
                    out[out.len() - dist]
                },
            ),
            dist,
            (len - 1) as nat,
        ),
    decreases len,
{
    if len > 0 {
        lemma_again(out, dist, (len - 1) as nat);
        let x = out.push(
            if dist > out.len() {
                0
            } else {
                out[out.len() - dist]
            },
        );
        if len == 1 {
            assert(again(out, dist, 0) == out);
            assert(again(x, dist, 0) == x);
        }
    }
}

proof fn lemma_copied(out: Seq<u8>, dist: int, len: nat)
    ensures
        reduce::copied(out, dist, len) == again(out, dist, len),
    decreases len,
{
    if len > 0 {
        lemma_again(out, dist, len);
        lemma_copied(
            out.push(
                if dist > out.len() {
                    0
                } else {
                    out[out.len() - dist]
                },
            ),
            dist,
            (len - 1) as nat,
        );
    }
}

/// A part written is the part read.
#[verifier::spinoff_prover]
#[verifier::rlimit(60)]
proof fn lemma_part(method: int, data: Seq<u8>, i: int, t: Part, out: Seq<u8>)
    requires
        2 <= method <= 5,
        part_ok(method, t),
        0 <= i,
        i + part_bytes(method, t).len() <= data.len(),
        data.subrange(i, (i + part_bytes(method, t).len()) as int) == part_bytes(method, t),
    ensures
        reduce::paired(data, i, reduce::unit_of(method), out) == reduce::paired(
            data,
            (i + part_bytes(method, t).len()) as int,
            reduce::unit_of(method),
            added(out, t),
        ),
{
    let w = part_bytes(method, t);
    let d = data.subrange(i, (i + w.len()) as int);
    assert forall|k: int| 0 <= k < w.len() implies data[i + k] == #[trigger] w[k] by {
        assert(d[k] == w[k]);
    }
    assert(data[i] == w[0]);
    match t {
        Part::Literal(b) => {
            if b == 0x90 {
                assert(data[i + 1] == w[1]);
            }
        },
        Part::Copy { len, dist } => {
            let unit = pow2(length_bits(method)) as int;
            lemma2_to64();
            assert(unit == reduce::unit_of(method));
            let q = (dist - 1) / 256;
            let k = len - 3;
            let most = unit - 1;
            let low = if k < most {
                k
            } else {
                most
            };
            let control = q * unit + low;
            assert(0 <= q < pow2((method - 1) as nat));
            assert(method == 2 ==> q * unit == 128 * q) by (nonlinear_arith)
                requires
                    method == 2 ==> unit == 128,
            ;
            assert(method == 3 ==> q * unit == 64 * q) by (nonlinear_arith)
                requires
                    method == 3 ==> unit == 64,
            ;
            assert(method == 4 ==> q * unit == 32 * q) by (nonlinear_arith)
                requires
                    method == 4 ==> unit == 32,
            ;
            assert(method == 5 ==> q * unit == 16 * q) by (nonlinear_arith)
                requires
                    method == 5 ==> unit == 16,
            ;
            assert(0 < control < 256);
            assert(data[i + 1] == w[1]);
            assert(data[i + 1] == control);
            assert(control % unit == low && control / unit == q);
            assert(data[i + 2] == w[2]);
            if k >= most {
                assert(data[i + 3] == w[3]);
            }
            lemma_copied(out, dist, len as nat);
        },
    }
}

/// Parts written are the parts read.
pub proof fn lemma_parts(method: int, data: Seq<u8>, i: int, ts: Seq<Part>, out: Seq<u8>)
    requires
        2 <= method <= 5,
        forall|k: int| 0 <= k < ts.len() ==> part_ok(method, #[trigger] ts[k]),
        0 <= i,
        i + parts_bytes(method, ts).len() <= data.len(),
        data.subrange(i, (i + parts_bytes(method, ts).len()) as int) == parts_bytes(method, ts),
    ensures
        reduce::paired(data, i, reduce::unit_of(method), out) == reduce::paired(
            data,
            (i + parts_bytes(method, ts).len()) as int,
            reduce::unit_of(method),
            all_added(out, ts),
        ),
    decreases ts.len(),
{
    if ts.len() > 0 {
        let w = part_bytes(method, ts[0]);
        let more = parts_bytes(method, ts.skip(1));
        let all = parts_bytes(method, ts);
        let j = (i + w.len()) as int;
        let d = data.subrange(i, (i + all.len()) as int);
        assert(data.subrange(i, j) =~= w) by {
            assert forall|k: int| 0 <= k < w.len() implies data[i + k] == w[k] by {
                assert(d[k] == all[k]);
            }
        }
        assert(data.subrange(j, (j + more.len()) as int) =~= more) by {
            assert forall|k: int| 0 <= k < more.len() implies data[j + k] == more[k] by {
                assert(d[w.len() + k] == all[w.len() + k]);
            }
        }
        assert(part_ok(method, ts[0]));
        assert forall|k: int| 0 <= k < ts.skip(1).len() implies part_ok(
            method,
            #[trigger] ts.skip(1)[k],
        ) by {
            assert(part_ok(method, ts[k + 1]));
        }
        lemma_part(method, data, i, ts[0], out);
        lemma_parts(method, data, j, ts.skip(1), added(out, ts[0]));
    }
}

/// How many bits name one of `n`: as many as `n - 1` needs, and one at least.
pub open spec fn name_bits(n: nat) -> nat
    decreases n,
{
    if n <= 2 {
        1
    } else {
        1 + name_bits((n + 1) / 2)
    }
}

/// A byte after one with these followers: as it is, with a one before it if
/// there are followers, or by its place `at` among them, with a zero before it.
pub open spec fn byte_bits(b: u8, set: Seq<u8>, at: Option<int>) -> Seq<bool> {
    if set.len() == 0 {
        bits::bits_of(b as nat, 8)
    } else {
        match at {
            None => seq![true] + bits::bits_of(b as nat, 8),
            Some(k) => seq![false] + bits::bits_of(k as nat, name_bits(set.len())),
        }
    }
}

/// Whether a byte can be written so.
pub open spec fn byte_ok(b: u8, set: Seq<u8>, at: Option<int>) -> bool {
    at matches Some(k) ==> set.len() > 0 ==> 0 <= k < set.len() && set[k] == b
}

/// The followers that count after some bytes: those of the last, or those of
/// zero at the start.
pub open spec fn set_after(sets: Seq<Seq<u8>>, out: Seq<u8>) -> Seq<u8> {
    if out.len() == 0 {
        sets[0]
    } else {
        sets[out.last() as int]
    }
}

/// The bits of bytes after `out`.
pub open spec fn bytes_bits(
    sets: Seq<Seq<u8>>,
    out: Seq<u8>,
    b: Seq<u8>,
    at: Seq<Option<int>>,
) -> Seq<bool>
    decreases b.len(),
{
    if b.len() == 0 {
        Seq::empty()
    } else {
        byte_bits(b[0], set_after(sets, out), at[0]) + bytes_bits(
            sets,
            out.push(b[0]),
            b.skip(1),
            at.skip(1),
        )
    }
}

/// Whether bytes can be written so.
pub open spec fn bytes_ok(
    sets: Seq<Seq<u8>>,
    out: Seq<u8>,
    b: Seq<u8>,
    at: Seq<Option<int>>,
) -> bool
    decreases b.len(),
{
    &&& at.len() == b.len()
    &&& b.len() > 0 ==> byte_ok(b[0], set_after(sets, out), at[0]) && bytes_ok(
        sets,
        out.push(b[0]),
        b.skip(1),
        at.skip(1),
    )
}

/// A field written is the number read.
pub proof fn lemma_field(data: Seq<u8>, p: int, v: nat, n: nat)
    requires
        v < pow2(n),
        bits::has(data, p, bits::bits_of(v, n)),
    ensures
        entry::field(data, p, n) == Some((v, p + n)),
{
    bits::lemma_has_value(data, p, v, n);
    vstd::arithmetic::div_mod::lemma_small_mod(v, pow2(n));
}

/// A flag written is the flag read.
pub proof fn lemma_flag(data: Seq<u8>, p: int, b: bool)
    requires
        bits::has(data, p, seq![b]),
    ensures
        entry::field(data, p, 1) == Some(
            (
                if b {
                    1nat
                } else {
                    0nat
                },
                p + 1,
            ),
        ),
{
    assert(bits::bit(data, p + 0) == seq![b][0]);
    lemma2_to64();
    reveal_with_fuel(bits::peek, 2);
}

proof fn lemma_names(n: nat)
    requires
        1 <= n <= 32,
    ensures
        name_bits(n) == reduce::index_width(n),
        n <= pow2(name_bits(n)),
{
    lemma2_to64();
    reveal_with_fuel(name_bits, 6);
}

/// A byte written is the byte read.
proof fn lemma_byte(data: Seq<u8>, p: int, b: u8, set: Seq<u8>, at: Option<int>)
    requires
        set.len() <= 32,
        byte_ok(b, set, at),
        bits::has(data, p, byte_bits(b, set, at)),
    ensures
        reduce::follower(data, p, set) == reduce::Follower::Byte(
            b,
            p + byte_bits(b, set, at).len(),
        ),
        byte_bits(b, set, at).len() > 0,
{
    lemma2_to64();
    if set.len() == 0 {
        lemma_field(data, p, b as nat, 8);
    } else {
        lemma_names(set.len());
        match at {
            None => {
                bits::lemma_has_concat(data, p, seq![true], bits::bits_of(b as nat, 8));
                lemma_flag(data, p, true);
                lemma_field(data, p + 1, b as nat, 8);
            },
            Some(k) => {
                let w = name_bits(set.len());
                bits::lemma_has_concat(data, p, seq![false], bits::bits_of(k as nat, w));
                lemma_flag(data, p, false);
                lemma_field(data, p + 1, k as nat, w);
            },
        }
    }
}

/// Bytes written are the bytes read.
pub proof fn lemma_bytes(
    data: Seq<u8>,
    p: int,
    sets: Seq<Seq<u8>>,
    out: Seq<u8>,
    b: Seq<u8>,
    at: Seq<Option<int>>,
)
    requires
        sets.len() == 256,
        forall|i: int| 0 <= i < 256 ==> (#[trigger] sets[i]).len() <= 32,
        bytes_ok(sets, out, b, at),
        bits::has(data, p, bytes_bits(sets, out, b, at)),
    ensures
        reduce::followed(data, p, sets, out) == reduce::followed(
            data,
            p + bytes_bits(sets, out, b, at).len(),
            sets,
            out + b,
        ),
    decreases b.len(),
{
    if b.len() == 0 {
        assert(out + b =~= out);
    } else {
        let set = set_after(sets, out);
        let w = byte_bits(b[0], set, at[0]);
        let more = bytes_bits(sets, out.push(b[0]), b.skip(1), at.skip(1));
        bits::lemma_has_concat(data, p, w, more);
        let last = if out.len() == 0 {
            0
        } else {
            out.last() as int
        };
        assert(sets[last].len() <= 32);
        lemma_byte(data, p, b[0], set, at[0]);
        lemma_bytes(data, p + w.len(), sets, out.push(b[0]), b.skip(1), at.skip(1));
        assert(out.push(b[0]) + b.skip(1) =~= out + b);
    }
}

/// Bytes as they are.
pub open spec fn plain_bits(b: Seq<u8>) -> Seq<bool>
    decreases b.len(),
{
    if b.len() == 0 {
        Seq::empty()
    } else {
        plain_bits(b.drop_last()) + bits::bits_of(b.last() as nat, 8)
    }
}

/// The followers of all bytes, those of 255 first: how many, in six bits, and
/// the bytes.
pub open spec fn sets_bits(sets: Seq<Seq<u8>>) -> Seq<bool>
    decreases sets.len(),
{
    if sets.len() == 0 {
        Seq::empty()
    } else {
        bits::bits_of(sets.last().len(), 6) + plain_bits(sets.last()) + sets_bits(sets.drop_last())
    }
}

proof fn lemma_plain(data: Seq<u8>, p: int, b: Seq<u8>)
    requires
        bits::has(data, p, plain_bits(b)),
    ensures
        reduce::bytes_at(data, p, b.len()) == Some((b, p + plain_bits(b).len())),
    decreases b.len(),
{
    if b.len() > 0 {
        let d = b.drop_last();
        let w = bits::bits_of(b.last() as nat, 8);
        bits::lemma_has_concat(data, p, plain_bits(d), w);
        lemma_plain(data, p, d);
        lemma2_to64();
        lemma_field(data, p + plain_bits(d).len(), b.last() as nat, 8);
        assert(d.push(b.last()) =~= b);
    } else {
        assert(b =~= Seq::<u8>::empty());
    }
}

proof fn lemma_sets(data: Seq<u8>, p: int, sets: Seq<Seq<u8>>)
    requires
        forall|i: int| 0 <= i < sets.len() ==> (#[trigger] sets[i]).len() <= 32,
        bits::has(data, p, sets_bits(sets)),
    ensures
        reduce::sets_at(data, p, sets.len()) == Some((sets, p + sets_bits(sets).len())),
    decreases sets.len(),
{
    if sets.len() > 0 {
        let s = sets.last();
        let d = sets.drop_last();
        let a = bits::bits_of(s.len(), 6);
        bits::lemma_has_concat(data, p, a + plain_bits(s), sets_bits(d));
        bits::lemma_has_concat(data, p, a, plain_bits(s));
        assert(sets[sets.len() - 1].len() <= 32);
        lemma2_to64();
        lemma_field(data, p, s.len(), 6);
        lemma_plain(data, p + 6, s);
        lemma_sets(data, p + 6 + plain_bits(s).len(), d);
        assert(d.push(s) =~= sets);
    } else {
        assert(sets =~= Seq::<Seq<u8>>::empty());
    }
}

/// An entry reduced with any followers is read as what its parts stand for:
/// whatever its last bits are read as only comes after it.
pub proof fn lemma_entry(
    data: Seq<u8>,
    method: int,
    sets: Seq<Seq<u8>>,
    ts: Seq<Part>,
    at: Seq<Option<int>>,
)
    requires
        2 <= method <= 5,
        sets.len() == 256,
        forall|i: int| 0 <= i < 256 ==> (#[trigger] sets[i]).len() <= 32,
        forall|k: int| 0 <= k < ts.len() ==> part_ok(method, #[trigger] ts[k]),
        bytes_ok(sets, Seq::empty(), parts_bytes(method, ts), at),
        bits::has(
            data,
            0,
            sets_bits(sets) + bytes_bits(sets, Seq::empty(), parts_bytes(method, ts), at),
        ),
    ensures
        ({
            let b = parts_bytes(method, ts);
            let end = (sets_bits(sets) + bytes_bits(sets, Seq::empty(), b, at)).len() as int;
            let out = all_added(Seq::empty(), ts);
            reduce::decoded(data, method) == match reduce::followed(data, end, sets, b) {
                None => None,
                Some(all) => Some(
                    reduce::paired(all, b.len() as int, reduce::unit_of(method), out),
                ),
            }
        }),
{
    let b = parts_bytes(method, ts);
    let w = sets_bits(sets);
    let v = bytes_bits(sets, Seq::empty(), b, at);
    bits::lemma_has_concat(data, 0, w, v);
    lemma_sets(data, 0, sets);
    lemma_bytes(data, w.len() as int, sets, Seq::empty(), b, at);
    assert(Seq::<u8>::empty() + b =~= b);
    let end = (w + v).len() as int;
    lemma_followed_extends(data, end, sets, b);
    if let Some(all) = reduce::followed(data, end, sets, b) {
        assert(all.subrange(0, b.len() as int) =~= b) by {
            assert(all.take(b.len() as int) == b);
        }
        lemma_parts(method, all, 0, ts, Seq::empty());
    }
}

proof fn lemma_followed_extends(data: Seq<u8>, p: int, sets: Seq<Seq<u8>>, out: Seq<u8>)
    ensures
        reduce::followed(data, p, sets, out) matches Some(all) ==> all.len() >= out.len()
            && all.take(out.len() as int) == out,
    decreases 8 * data.len() - p,
{
    let last = if out.len() == 0 {
        0
    } else {
        out.last() as int
    };
    assert(out.take(out.len() as int) =~= out);
    if let reduce::Follower::Byte(b, q) = reduce::follower(data, p, sets[last]) {
        if p < q <= 8 * data.len() {
            lemma_followed_extends(data, q, sets, out.push(b));
            if let Some(all) = reduce::followed(data, q, sets, out.push(b)) {
                assert(all.take(out.len() as int) =~= all.take(out.len() as int + 1).take(
                    out.len() as int,
                ));
                assert(out.push(b).take(out.len() as int) =~= out);
            }
        }
    }
}

} // verus!
