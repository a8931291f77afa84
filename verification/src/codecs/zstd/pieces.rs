//! Literals in four streams, and frames to be skipped.
use crate::codecs::zstd::huffman;
use crate::codecs::zstd::layout;
use crate::codecs::zstd::layout::Opening;
use crate::utils::bytes;
use crate::utils::error::Error;
use vstd::prelude::*;

verus! {

/// A number in two bytes, the lower first.
pub open spec fn two(n: nat) -> Seq<u8> {
    seq![(n % 256) as u8, (n / 256) as u8]
}

/// Four streams behind the sizes of the first three.
pub open spec fn in_four(a: Seq<u8>, b: Seq<u8>, c: Seq<u8>, d: Seq<u8>) -> Seq<u8> {
    two(a.len()) + two(b.len()) + two(c.len()) + (a + b + c + d)
}

proof fn lemma_two(s: Seq<u8>, at: int, n: nat)
    requires
        n < 65536,
        0 <= at,
        at + 2 <= s.len(),
        s[at] == n % 256,
        s[at + 1] == n / 256,
    ensures
        bytes::le(s, at, 2) == n,
{
    reveal_with_fuel(bytes::le, 3);
}

#[verifier::spinoff_prover]
proof fn lemma_cut(a: Seq<u8>, b: Seq<u8>, c: Seq<u8>, d: Seq<u8>)
    ensures
        ({
            let all = a + b + c + d;
            let x = a.len() as int;
            let y = x + b.len();
            let z = y + c.len();
            &&& all.subrange(0, x) == a
            &&& all.subrange(x, y) == b
            &&& all.subrange(y, z) == c
            &&& all.subrange(z, all.len() as int) == d
        }),
{
    let all = a + b + c + d;
    let x = a.len() as int;
    let y = x + b.len();
    let z = y + c.len();
    assert(all.subrange(0, x) =~= a);
    assert(all.subrange(x, y) =~= b);
    assert(all.subrange(y, z) =~= c);
    assert(all.subrange(z, all.len() as int) =~= d);
}

/// Three of the streams hold as many literals as each other, and the fourth up
/// to three less.
pub proof fn lemma_four(
    code: huffman::Code,
    a: Seq<u8>,
    b: Seq<u8>,
    c: Seq<u8>,
    d: Seq<u8>,
    la: Seq<u8>,
    lb: Seq<u8>,
    lc: Seq<u8>,
    ld: Seq<u8>,
)
    requires
        a.len() < 65536,
        b.len() < 65536,
        c.len() < 65536,
        lb.len() == la.len(),
        lc.len() == la.len(),
        la.len() <= ld.len() + 3,
        ld.len() <= la.len(),
        layout::literal_stream(a, code, la.len()) == Ok::<Seq<u8>, Error>(la),
        layout::literal_stream(b, code, lb.len()) == Ok::<Seq<u8>, Error>(lb),
        layout::literal_stream(c, code, lc.len()) == Ok::<Seq<u8>, Error>(lc),
        layout::literal_stream(d, code, ld.len()) == Ok::<Seq<u8>, Error>(ld),
    ensures
        layout::four_streams(in_four(a, b, c, d), code, 3 * la.len() + ld.len()) == Ok::<
            Seq<u8>,
            Error,
        >(la + lb + lc + ld),
{
    reveal(layout::four_streams);
    let data = in_four(a, b, c, d);
    let n = 3 * la.len() + ld.len();
    assert((n + 3) / 4 == la.len());
    lemma_two(data, 0, a.len());
    lemma_two(data, 2, b.len());
    lemma_two(data, 4, c.len());
    assert(data.skip(6) =~= a + b + c + d);
    lemma_cut(a, b, c, d);
}

/// A frame that holds other data is passed over, whichever of its sixteen marks
/// it has.
pub proof fn lemma_skipped(front: Seq<u8>, mark: int, body: Seq<u8>, more: Seq<u8>)
    requires
        0 <= mark < 16,
        body.len() < 0x1_0000_0000,
    ensures
        layout::opening(
            front + seq![(0x50 + mark) as u8, 0x2Au8, 0x4Du8, 0x18u8] + bytes::le_bytes(
                body.len(),
                4,
            ) + body + more,
            front.len(),
        ) == Ok::<Opening, Error>(Opening::Skipped(front.len() + 8 + body.len())),
{
    let m = seq![(0x50 + mark) as u8, 0x2Au8, 0x4Du8, 0x18u8];
    let size = bytes::le_bytes(body.len(), 4);
    let data = front + m + size + body + more;
    let p = front.len() as int;
    bytes::lemma_le_bytes_len(body.len(), 4);
    assert(data[p] == m[0]);
    assert(data[p + 1] == m[1]);
    assert(data[p + 2] == m[2]);
    assert(data[p + 3] == m[3]);
    assert(bytes::le(data, p, 4) == 0x184D_2A50 + mark) by {
        reveal_with_fuel(bytes::le, 5);
    }
    assert(data.subrange(p + 4, p + 8) =~= size);
    assert(size.subrange(0, 4) =~= size);
    assert(bytes::span(4) == 0x1_0000_0000) by {
        reveal_with_fuel(bytes::span, 5);
    }
    bytes::lemma_le_round_trip(size, 0, body.len(), 4);
}

} // verus!
