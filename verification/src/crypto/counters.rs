//! What the blocks of the counter mode are made from.
use crate::crypto::aes;
use crate::utils::bytes;
use vstd::prelude::*;

verus! {

/// The counter is a number of sixteen bytes, the lowest first, so no two counts
/// have the same bytes.
pub proof fn lemma_counter(n: nat)
    requires
        n < 0x1_0000_0000_0000_0000_0000_0000_0000_0000nat,
    ensures
        aes::counter_block(n).len() == 16,
        bytes::le(aes::counter_block(n), 0, 16) == n,
        aes::counter_block(n)[0] == n % 256,
        aes::counter_block(n)[1] == n / 256 % 256,
{
    let b = aes::counter_block(n);
    bytes::lemma_le_bytes_len(n, 16);
    assert(b.subrange(0, 16) =~= b);
    assert(bytes::span(16) == 0x1_0000_0000_0000_0000_0000_0000_0000_0000nat) by {
        reveal_with_fuel(bytes::span, 17);
    }
    bytes::lemma_le_round_trip(b, 0, n, 16);
    reveal_with_fuel(bytes::le_bytes, 3);
}

} // verus!
