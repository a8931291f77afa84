//! The weights of a Huffman code that are written as they are.
use crate::codecs::zstd::huffman;
use crate::codecs::zstd::huffman::Code;
use crate::utils::bits;
use vstd::arithmetic::power2::*;
use vstd::prelude::*;

verus! {

/// Two weights in each byte, the first of them above.
pub open spec fn packed(ws: Seq<u8>) -> Seq<u8> {
    Seq::new(
        ((ws.len() + 1) / 2) as nat,
        |k: int|
            (16 * ws[2 * k] + if 2 * k + 1 < ws.len() {
                ws[2 * k + 1] as int
            } else {
                0
            }) as u8,
    )
}

/// Up to 128 weights behind a byte that says how many there are.
pub proof fn lemma_direct(ws: Seq<u8>, more: Seq<u8>)
    requires
        1 <= ws.len() <= 128,
        forall|i: int| 0 <= i < ws.len() ==> #[trigger] ws[i] < 16,
    ensures
        huffman::parsed(seq![(127 + ws.len()) as u8] + packed(ws) + more) == match huffman::weighted(
            ws,
        ) {
            Err(e) => Err(e),
            Ok(c) => Ok::<(Code, nat), _>((c, 1 + (ws.len() + 1) / 2)),
        },
{
    reveal(huffman::parsed);
    let data = seq![(127 + ws.len()) as u8] + packed(ws) + more;
    assert(data[0] == 127 + ws.len());
    assert forall|i: int| 0 <= i < ws.len() implies huffman::nibbles(data, ws.len())[i]
        == #[trigger] ws[i] by {
        let k = i / 2;
        assert(data[1 + k] == packed(ws)[k]);
        assert(ws[2 * k] < 16);
        if 2 * k + 1 < ws.len() {
            assert(ws[2 * k + 1] < 16);
        }
    }
    assert(huffman::nibbles(data, ws.len()) =~= ws);
}

/// The last weight is not written: with it the shares of all symbols make up
/// the next power of two.
pub proof fn lemma_last_weight(ws: Seq<u8>, w: u8, top: nat)
    requires
        1 <= w <= 255,
        huffman::total(ws) + pow2((w - 1) as nat) == pow2(top + 1),
        huffman::total(ws) >= pow2(top),
    ensures
        huffman::weighted(ws) == huffman::completed(ws.push(w)),
{
    let t = huffman::total(ws);
    let g = (w - 1) as nat;
    lemma_pow2_pos(g);
    lemma_pow2_pos(top);
    bits::lemma_log2_unique(t, top);
    lemma_pow2_unfold(g + 1);
    bits::lemma_log2_unique(pow2(g), g);
}

} // verus!
