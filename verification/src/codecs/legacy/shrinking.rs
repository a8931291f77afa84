//! Entries shrunk by the rules of the method.
//!
//! Codes name strings. Each code but the first adds a string: that of the code
//! before it and the first byte of its own. Code 256 is followed by 1 where
//! codes become a bit wider and by 2 where the strings that no other string
//! goes on from are forgotten.
use crate::codecs::legacy::reducing;
use crate::codecs::legacy::shrink;
use crate::codecs::legacy::shrink::{Codes, Shrunk};
use crate::utils::bits;
use vstd::arithmetic::power2::*;
use vstd::prelude::*;

verus! {

/// Whether a code has no string.
pub open spec fn unused(c: Codes, i: int) -> bool {
    c.parent[i] == 0xffff
}

/// The string of a code that is named, by the string it goes on from.
pub open spec fn means(c: Codes, code: int, s: Seq<u8>) -> bool
    decreases s.len(),
{
    if s.len() == 0 {
        false
    } else if s.len() == 1 {
        c.parent[code] == 0xfffe && c.value[code] == s[0]
    } else {
        &&& c.parent[code] < 8192
        &&& c.value[code] == s.last()
        &&& means(c, c.parent[code] as int, s.drop_last())
    }
}

proof fn lemma_means(c: Codes, code: int, s: Seq<u8>, n: nat)
    requires
        means(c, code, s),
        s.len() <= n,
    ensures
        shrink::expanded(c, code, n) == Some(s),
        !unused(c, code),
    decreases s.len(),
{
    if s.len() == 1 {
        assert(seq![s[0]] =~= s);
    } else {
        lemma_means(c, c.parent[code] as int, s.drop_last(), (n - 1) as nat);
        assert(s.drop_last().push(s.last()) =~= s);
    }
}

/// The place of the next string: the first unused one from where the last
/// search ended.
pub open spec fn is_next(c: Codes, at: int) -> bool {
    &&& c.next <= at < 8192
    &&& unused(c, at)
    &&& forall|i: int| c.next <= i < at ==> !unused(c, i)
}

/// Whether no place is left.
pub open spec fn is_full(c: Codes) -> bool {
    forall|i: int| c.next <= i < 8192 ==> !unused(c, i)
}

proof fn lemma_free(parent: Seq<u16>, from: int, at: int)
    requires
        from <= at <= 8192,
        forall|i: int| from <= i < at ==> parent[i] != 0xffff,
        at < 8192 ==> parent[at] == 0xffff,
    ensures
        shrink::free_from(parent, from) == at,
    decreases at - from,
{
    if from < at {
        assert(parent[from] != 0xffff);
        lemma_free(parent, from + 1, at);
    }
}

/// A new string goes to the next place and changes no other.
pub proof fn lemma_grown(c: Codes, at: int, parent: u16, value: u8)
    requires
        is_next(c, at),
    ensures
        ({
            let d = shrink::allocated(c, parent, value);
            &&& d.parent == c.parent.update(at, parent)
            &&& d.value == c.value.update(at, value)
            &&& d.next == at + 1
        }),
{
    assert forall|i: int| c.next <= i < at implies c.parent[i] != 0xffff by {
        assert(!unused(c, i));
    }
    lemma_free(c.parent, c.next, at);
}

/// Where no place is left there is no new string.
pub proof fn lemma_full(c: Codes, parent: u16, value: u8)
    requires
        is_full(c),
        c.next <= 8192,
    ensures
        shrink::allocated(c, parent, value) == (Codes { next: 8192, ..c }),
{
    assert forall|i: int| c.next <= i < 8192 implies c.parent[i] != 0xffff by {
        assert(!unused(c, i));
    }
    lemma_free(c.parent, c.next, 8192);
}

/// What the new string is: that of the code before, and a byte.
pub proof fn lemma_grown_string(c: Codes, at: int, parent: int, s: Seq<u8>, value: u8)
    requires
        c.parent.len() == 8192,
        c.value.len() == 8192,
        is_next(c, at),
        0 <= at,
        0 <= parent < 8192,
        means(c, parent, s),
    ensures
        means(shrink::allocated(c, parent as u16, value), at, s.push(value)),
        means(shrink::allocated(c, parent as u16, value), parent, s),
{
    let d = shrink::allocated(c, parent as u16, value);
    lemma_grown(c, at, parent as u16, value);
    lemma_kept(c, d, at, parent, s);
    assert(s.push(value).drop_last() =~= s);
}

/// Strings that do not go through a place keep their meaning.
proof fn lemma_kept(c: Codes, d: Codes, at: int, code: int, s: Seq<u8>)
    requires
        c.parent.len() == 8192,
        c.value.len() == 8192,
        0 <= at < 8192,
        0 <= code < 8192,
        unused(c, at),
        forall|i: int| 0 <= i < 8192 && i != at ==> d.parent[i] == c.parent[i],
        forall|i: int| 0 <= i < 8192 && i != at ==> d.value[i] == c.value[i],
        means(c, code, s),
    ensures
        means(d, code, s),
    decreases s.len(),
{
    assert(code != at);
    assert(d.parent[code] == c.parent[code]);
    assert(d.value[code] == c.value[code]);
    if s.len() > 1 {
        lemma_kept(c, d, at, c.parent[code] as int, s.drop_last());
    }
}

/// Forgetting strings: those from 257 on that no other goes on from, and the
/// search for places starts there again. The others stay.
pub proof fn lemma_forgotten(c: Codes, i: int)
    requires
        c.parent.len() == 8192,
        0 <= i < 8192,
    ensures
        ({
            let d = shrink::cleared(c);
            &&& d.next == 257
            &&& d.value == c.value
            &&& i < 257 ==> d.parent[i] == c.parent[i]
            &&& (exists|k: int| 257 <= k < 8192 && #[trigger] c.parent[k] == i) ==> d.parent[i]
                == c.parent[i]
            &&& i >= 257 && !(exists|k: int| 257 <= k < 8192 && #[trigger] c.parent[k] == i)
                ==> unused(d, i)
        }),
{
}

/// At the start there are the single bytes.
pub proof fn lemma_first(b: u8)
    ensures
        means(shrink::start_codes(), b as int, seq![b]),
        is_next(shrink::start_codes(), 257),
        forall|i: int| 257 <= i < 8192 ==> unused(shrink::start_codes(), i),
{
}

/// A number in as many bits as codes are wide.
pub open spec fn code_bits(code: nat, width: nat) -> Seq<bool> {
    bits::bits_of(code, width)
}

/// A code that has a string adds it, and the next string is the one before
/// with the first byte of it.
pub proof fn lemma_code(data: Seq<u8>, s: Shrunk, code: int, t: Seq<u8>)
    requires
        9 <= s.width <= 13,
        0 <= code < 8192,
        code != 256,
        code < pow2(s.width),
        t.len() <= 8192,
        means(s.codes, code, t),
        bits::has(data, s.p, code_bits(code as nat, s.width)),
    ensures
        shrink::run(data, s) == shrink::run(
            data,
            Shrunk {
                codes: shrink::allocated(s.codes, s.previous, t[0]),
                previous: code as u16,
                p: s.p + s.width,
                out: s.out + t,
                ..s
            },
        ),
{
    reducing::lemma_field(data, s.p, code as nat, s.width);
    lemma_means(s.codes, code, t, 8193);
}

/// A code without one stands for the string before and its first byte again.
pub proof fn lemma_code_ahead(data: Seq<u8>, s: Shrunk, code: int, t: Seq<u8>)
    requires
        9 <= s.width <= 13,
        0 <= code < 8192,
        code != 256,
        code < pow2(s.width),
        t.len() <= 8192,
        unused(s.codes, code),
        means(s.codes, s.previous as int, t),
        bits::has(data, s.p, code_bits(code as nat, s.width)),
    ensures
        shrink::run(data, s) == shrink::run(
            data,
            Shrunk {
                codes: shrink::allocated(s.codes, s.previous, t[0]),
                previous: code as u16,
                p: s.p + s.width,
                out: s.out + t.push(t[0]),
                ..s
            },
        ),
{
    reducing::lemma_field(data, s.p, code as nat, s.width);
    lemma_means(s.codes, s.previous as int, t, 8193);
}

/// 256 and 1: codes are a bit wider from here on, up to thirteen.
pub proof fn lemma_wider(data: Seq<u8>, s: Shrunk)
    requires
        9 <= s.width <= 12,
        bits::has(data, s.p, code_bits(256, s.width) + code_bits(1, s.width)),
    ensures
        shrink::run(data, s) == shrink::run(
            data,
            Shrunk { width: s.width + 1, p: s.p + 2 * s.width, ..s },
        ),
{
    lemma2_to64();
    bits::lemma_has_concat(data, s.p, code_bits(256, s.width), code_bits(1, s.width));
    reducing::lemma_field(data, s.p, 256, s.width);
    reducing::lemma_field(data, s.p + s.width, 1, s.width);
}

/// 256 and 2: strings are forgotten.
pub proof fn lemma_forget(data: Seq<u8>, s: Shrunk)
    requires
        9 <= s.width <= 13,
        bits::has(data, s.p, code_bits(256, s.width) + code_bits(2, s.width)),
    ensures
        shrink::run(data, s) == shrink::run(
            data,
            Shrunk { codes: shrink::cleared(s.codes), p: s.p + 2 * s.width, ..s },
        ),
{
    lemma2_to64();
    bits::lemma_has_concat(data, s.p, code_bits(256, s.width), code_bits(2, s.width));
    reducing::lemma_field(data, s.p, 256, s.width);
    reducing::lemma_field(data, s.p + s.width, 2, s.width);
}

/// An entry starts with a byte in nine bits, and ends where no code is left.
pub proof fn lemma_start(data: Seq<u8>, b: u8)
    requires
        bits::has(data, 0, code_bits(b as nat, 9)),
    ensures
        shrink::decoded(data) == shrink::run(
            data,
            Shrunk {
                codes: shrink::start_codes(),
                width: 9,
                previous: b as u16,
                p: 9,
                out: seq![b],
            },
        ),
{
    lemma2_to64();
    reducing::lemma_field(data, 0, b as nat, 9);
}

/// Where fewer bits are left than a code has, what was produced is all.
pub proof fn lemma_stop(data: Seq<u8>, s: Shrunk)
    requires
        s.p + s.width > 8 * data.len(),
    ensures
        shrink::run(data, s) == Some(s.out),
{
}

} // verus!
