//! Differences between bytes at a distance.
use vstd::prelude::*;

verus! {

/// The byte `distance` before the end of `plain`, or zero before the start.
pub open spec fn back(plain: Seq<u8>, distance: int) -> u8 {
    if distance <= plain.len() {
        plain[plain.len() - distance]
    } else {
        0
    }
}

/// The bytes that differences stand for, after the bytes of `before`.
pub open spec fn summed(before: Seq<u8>, data: Seq<u8>, distance: int) -> Seq<u8>
    decreases data.len(),
{
    if data.len() == 0 {
        Seq::empty()
    } else {
        let plain = summed(before, data.drop_last(), distance);
        plain.push(data.last().wrapping_add(back(before + plain, distance)))
    }
}

/// The differences of bytes that follow those of `before`.
pub open spec fn differences(before: Seq<u8>, data: Seq<u8>, distance: int) -> Seq<u8>
    decreases data.len(),
{
    if data.len() == 0 {
        Seq::empty()
    } else {
        let rest = data.drop_last();
        differences(before, rest, distance).push(
            data.last().wrapping_sub(back(before + rest, distance)),
        )
    }
}

/// Bytes to differences, or back.
pub open spec fn converted(up: bool, before: Seq<u8>, data: Seq<u8>, distance: int) -> Seq<u8> {
    if up {
        differences(before, data, distance)
    } else {
        summed(before, data, distance)
    }
}

/// Which of the bytes before and after converting are no differences.
pub open spec fn plain(up: bool, before: Seq<u8>, data: Seq<u8>, distance: int) -> Seq<u8> {
    if up {
        data
    } else {
        summed(before, data, distance)
    }
}

/// The end of a byte string.
pub open spec fn ending(s: Seq<u8>, n: int) -> Seq<u8> {
    if s.len() > n {
        s.skip(s.len() - n)
    } else {
        s
    }
}

pub proof fn lemma_len(up: bool, before: Seq<u8>, data: Seq<u8>, distance: int)
    ensures
        converted(up, before, data, distance).len() == data.len(),
    decreases data.len(),
{
    if data.len() > 0 {
        lemma_len(up, before, data.drop_last(), distance);
    }
}

/// Differences of sums, and sums of differences, are the bytes themselves.
pub proof fn lemma_back(up: bool, before: Seq<u8>, data: Seq<u8>, distance: int)
    requires
        distance >= 1,
    ensures
        converted(!up, before, converted(up, before, data, distance), distance) == data,
    decreases data.len(),
{
    let there = converted(up, before, data, distance);
    lemma_len(up, before, data, distance);
    if data.len() > 0 {
        let rest = data.drop_last();
        lemma_back(up, before, rest, distance);
        assert(there.drop_last() =~= converted(up, before, rest, distance));
        assert(converted(!up, before, there, distance) =~= rest.push(data.last()));
        assert(rest.push(data.last()) =~= data);
    } else {
        assert(there =~= Seq::<u8>::empty());
    }
}

/// Bytes can be converted piece by piece, each after the end of what came
/// before it.
pub proof fn lemma_pieces(up: bool, before: Seq<u8>, a: Seq<u8>, b: Seq<u8>, distance: int)
    requires
        distance >= 1,
    ensures
        converted(up, before, a + b, distance) == converted(up, before, a, distance) + converted(
            up,
            ending(before + plain(up, before, a, distance), distance),
            b,
            distance,
        ),
        plain(up, before, a + b, distance) == plain(up, before, a, distance) + plain(
            up,
            ending(before + plain(up, before, a, distance), distance),
            b,
            distance,
        ),
    decreases b.len(),
{
    let near = ending(before + plain(up, before, a, distance), distance);
    if b.len() == 0 {
        assert(a + b =~= a);
        assert(converted(up, before, a, distance) + Seq::<u8>::empty() =~= converted(
            up,
            before,
            a,
            distance,
        ));
        assert(plain(up, before, a, distance) + Seq::<u8>::empty() =~= plain(
            up,
            before,
            a,
            distance,
        ));
    } else {
        let rest = b.drop_last();
        lemma_pieces(up, before, a, rest, distance);
        assert((a + b).drop_last() =~= a + rest);
        let all = before + plain(up, before, a + rest, distance);
        let close = near + plain(up, near, rest, distance);
        lemma_len(false, near, rest, distance);
        lemma_len(false, before, a, distance);
        assert(all =~= (before + plain(up, before, a, distance)) + plain(up, near, rest, distance));
        assert(back(all, distance) == back(close, distance));
        assert(converted(up, before, a + b, distance) =~= converted(up, before, a, distance)
            + converted(up, near, b, distance));
        assert(plain(up, before, a + b, distance) =~= plain(up, before, a, distance) + plain(
            up,
            near,
            b,
            distance,
        ));
    }
}

/// Convert bytes that follow those of `history`, and keep as many of them as
/// the next bytes need.
pub(crate) fn convert(up: bool, history: &mut Vec<u8>, data: &mut [u8], distance: usize)
    requires
        1 <= distance,
    ensures
        final(data)@ == converted(up, old(history)@, old(data)@, distance as int),
        final(history)@ == ending(
            old(history)@ + plain(up, old(history)@, old(data)@, distance as int),
            distance as int,
        ),
{
    let ghost before = history@;
    let ghost given = data@;
    let ghost d = distance as int;
    let mut work: Vec<u8> = Vec::with_capacity(0);
    std::mem::swap(&mut work, history);
    let mut i: usize = 0;
    proof {
        assert(given.take(0) =~= Seq::<u8>::empty());
        assert(before + Seq::<u8>::empty() =~= before);
    }
    while i < data.len()
        invariant
            i <= data@.len(),
            data@.len() == given.len(),
            d == distance,
            d >= 1,
            data@ == converted(up, before, given.take(i as int), d) + given.skip(i as int),
            work@ == before + plain(up, before, given.take(i as int), d),
        decreases data@.len() - i,
    {
        let ghost done = given.take(i as int);
        let ghost next = given.take(i + 1);
        proof {
            lemma_len(up, before, done, d);
            assert(next.drop_last() =~= done);
        }
        let byte: u8 = data[i];
        let previous: u8 = if distance <= work.len() {
            work[work.len() - distance]
        } else {
            0
        };
        if up {
            data[i] = byte.wrapping_sub(previous);
            work.push(byte);
        } else {
            let sum: u8 = byte.wrapping_add(previous);
            data[i] = sum;
            work.push(sum);
        }
        proof {
            assert(data@ =~= converted(up, before, next, d) + given.skip(i + 1));
            assert(work@ =~= before + plain(up, before, next, d)) by {
                assert(up ==> next =~= done.push(byte));
            }
        }
        i = i + 1;
    }
    proof {
        assert(given.take(i as int) =~= given);
        lemma_len(up, before, given, d);
        assert(data@ =~= converted(up, before, given, d));
    }
    if work.len() > distance {
        let from: usize = work.len() - distance;
        let mut rest: Vec<u8> = Vec::with_capacity(distance);
        rest.extend_from_slice(&work.as_slice()[from..work.len()]);
        assert(rest@ =~= work@.skip(from as int));
        *history = rest;
    } else {
        *history = work;
    }
}

} // verus!
