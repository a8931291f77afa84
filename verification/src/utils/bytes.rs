//! Numbers as bytes, the least significant byte first.
use vstd::prelude::*;

verus! {

/// The number in `n` bytes at `at`.
pub open spec fn le(s: Seq<u8>, at: int, n: nat) -> nat
    decreases n,
{
    if n == 0 {
        0
    } else {
        s[at] as nat + 256 * le(s, at + 1, (n - 1) as nat)
    }
}

/// A number in `n` bytes.
pub open spec fn le_bytes(v: nat, n: nat) -> Seq<u8>
    decreases n,
{
    if n == 0 {
        Seq::empty()
    } else {
        seq![(v % 256) as u8] + le_bytes(v / 256, (n - 1) as nat)
    }
}

/// 256 to the `n`.
pub open spec fn span(n: nat) -> nat
    decreases n,
{
    if n == 0 {
        1
    } else {
        256 * span((n - 1) as nat)
    }
}

pub proof fn lemma_le_bytes_len(v: nat, n: nat)
    ensures
        le_bytes(v, n).len() == n,
    decreases n,
{
    if n > 0 {
        lemma_le_bytes_len(v / 256, (n - 1) as nat);
    }
}

/// Bytes are those of the number that they are read as.
pub proof fn lemma_le_bytes_back(s: Seq<u8>, n: nat)
    requires
        s.len() == n,
    ensures
        le_bytes(le(s, 0, n), n) == s,
        le(s, 0, n) < span(n),
    decreases n,
{
    if n > 0 {
        let rest = s.skip(1);
        lemma_le_bytes_back(rest, (n - 1) as nat);
        lemma_le_skip(s, 1, 0, (n - 1) as nat);
        assert(le_bytes(le(s, 0, n), n) =~= s);
    } else {
        assert(le_bytes(0, 0) =~= s);
    }
}

/// A number that fits, written and read back.
pub proof fn lemma_le_round_trip(s: Seq<u8>, at: int, v: nat, n: nat)
    requires
        0 <= at,
        at + n <= s.len(),
        v < span(n),
        s.subrange(at, at + n) == le_bytes(v, n),
    ensures
        le(s, at, n) == v,
    decreases n,
{
    if n > 0 {
        let m = (n - 1) as nat;
        let b = le_bytes(v, n);
        lemma_le_bytes_len(v / 256, m);
        assert(s[at] == s.subrange(at, at + n)[0]);
        assert(b[0] == (v % 256) as u8);
        assert(b.skip(1) =~= le_bytes(v / 256, m));
        assert(s.subrange(at + 1, at + n) =~= s.subrange(at, at + n).skip(1));
        assert(v / 256 < span(m));
        lemma_le_round_trip(s, at + 1, v / 256, m);
    }
}

/// A number in the rest of a byte string.
pub proof fn lemma_le_skip(s: Seq<u8>, k: int, at: int, n: nat)
    requires
        0 <= k,
        0 <= at,
        k + at + n <= s.len(),
    ensures
        le(s.skip(k), at, n) == le(s, k + at, n),
    decreases n,
{
    if n > 0 {
        lemma_le_skip(s, k, at + 1, (n - 1) as nat);
    }
}

/// The number in two bytes at `at`.
pub fn get_le16(s: &[u8], at: usize) -> (r: u16)
    requires
        at + 2 <= s.len(),
    ensures
        r == le(s@, at as int, 2),
{
    proof {
        reveal_with_fuel(le, 3);
    }
    s[at] as u16 + 256 * (s[at + 1] as u16)
}

/// The number in four bytes at `at`.
pub fn get_le32(s: &[u8], at: usize) -> (r: u32)
    requires
        at + 4 <= s.len(),
    ensures
        r == le(s@, at as int, 4),
{
    proof {
        reveal_with_fuel(le, 5);
    }
    s[at] as u32 + 256 * (s[at + 1] as u32) + 0x1_0000 * (s[at + 2] as u32) + 0x100_0000 * (s[at
        + 3] as u32)
}

/// The number in eight bytes at `at`.
pub fn get_le64(s: &[u8], at: usize) -> (r: u64)
    requires
        at + 8 <= s.len(),
    ensures
        r == le(s@, at as int, 8),
{
    let low: u32 = get_le32(s, at);
    let high: u32 = get_le32(s, at + 4);
    proof {
        reveal_with_fuel(le, 9);
    }
    low as u64 + 0x1_0000_0000 * (high as u64)
}

/// Add a number in `n` bytes.
pub fn put_le(out: &mut Vec<u8>, v: u64, n: usize)
    requires
        n <= 8,
    ensures
        final(out)@ == old(out)@ + le_bytes(v as nat, n as nat),
{
    let mut rest: u64 = v;
    let mut i: usize = 0;
    assert(old(out)@ + le_bytes(v as nat, n as nat) =~= out@ + le_bytes(rest as nat, n as nat));
    while i < n
        invariant
            i <= n,
            old(out)@ + le_bytes(v as nat, n as nat) == out@ + le_bytes(
                rest as nat,
                (n - i) as nat,
            ),
        decreases n - i,
    {
        let ghost before = out@;
        out.push((rest % 256) as u8);
        assert(before + le_bytes(rest as nat, (n - i) as nat) =~= out@ + le_bytes(
            (rest / 256) as nat,
            (n - i - 1) as nat,
        ));
        rest = rest / 256;
        i = i + 1;
    }
    assert(out@ =~= out@ + le_bytes(rest as nat, 0));
}

} // verus!
