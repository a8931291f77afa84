//! Copies out of what was already written.
use vstd::prelude::*;

verus! {

/// `out` with `len` more bytes, each the one that stands `dist` bytes back.
pub open spec fn copied(out: Seq<u8>, dist: int, len: nat) -> Seq<u8>
    decreases len,
{
    if len == 0 {
        out
    } else {
        copied(out.push(out[out.len() - dist]), dist, (len - 1) as nat)
    }
}

pub proof fn lemma_copied_len(out: Seq<u8>, dist: int, len: nat)
    ensures
        copied(out, dist, len).len() == out.len() + len,
    decreases len,
{
    if len > 0 {
        lemma_copied_len(out.push(out[out.len() - dist]), dist, (len - 1) as nat);
    }
}

/// A copy can be made in two pieces.
pub proof fn lemma_copied_split(out: Seq<u8>, dist: int, a: nat, b: nat)
    ensures
        copied(out, dist, a + b) == copied(copied(out, dist, a), dist, b),
    decreases a,
{
    if a > 0 {
        lemma_copied_split(out.push(out[out.len() - dist]), dist, (a - 1) as nat, b);
    }
}

/// The last byte of a copy.
pub proof fn lemma_copied_step(out: Seq<u8>, dist: int, len: nat)
    ensures
        copied(out, dist, len + 1) == copied(out, dist, len).push(
            copied(out, dist, len)[out.len() + len - dist],
        ),
{
    lemma_copied_split(out, dist, len, 1);
    lemma_copied_len(out, dist, len);
    let c = copied(out, dist, len);
    assert(copied(c.push(c[c.len() - dist]), dist, 0) == c.push(c[c.len() - dist]));
}

/// What a copy leaves alone.
pub proof fn lemma_copied_prefix(out: Seq<u8>, dist: int, len: nat)
    ensures
        copied(out, dist, len).len() == out.len() + len,
        copied(out, dist, len).take(out.len() as int) == out,
    decreases len,
{
    if len == 0 {
        assert(out.take(out.len() as int) =~= out);
    } else {
        let next = out.push(out[out.len() - dist]);
        lemma_copied_prefix(next, dist, (len - 1) as nat);
        let c = copied(out, dist, len);
        assert(c.take(out.len() as int) =~= c.take(next.len() as int).take(out.len() as int));
        assert(next.take(out.len() as int) =~= out);
    }
}

/// A copy that reaches no further back than `a` does not see what precedes
/// it.
pub proof fn lemma_copied_after(o: Seq<u8>, a: Seq<u8>, dist: int, len: nat)
    requires
        1 <= dist <= a.len(),
    ensures
        copied(o + a, dist, len) == o + copied(a, dist, len),
    decreases len,
{
    if len > 0 {
        let x = a[a.len() - dist];
        assert((o + a)[(o + a).len() - dist] == x);
        assert((o + a).push(x) =~= o + a.push(x));
        lemma_copied_after(o, a.push(x), dist, (len - 1) as nat);
    }
}

/// A stretch of data that repeats what stands `dist` bytes before it is such
/// a copy.
pub proof fn lemma_copied_matches(data: Seq<u8>, pos: int, dist: int, len: nat)
    requires
        1 <= dist <= pos,
        pos + len <= data.len(),
        forall|k: int| pos <= k < pos + len ==> #[trigger] data[k] == data[k - dist],
    ensures
        copied(data.take(pos), dist, len) == data.take(pos + len),
    decreases len,
{
    if len > 0 {
        let out = data.take(pos);
        assert(data[pos] == data[pos - dist]);
        assert(out.push(out[out.len() - dist]) =~= data.take(pos + 1));
        lemma_copied_matches(data, pos + 1, dist, (len - 1) as nat);
    }
}

} // verus!
