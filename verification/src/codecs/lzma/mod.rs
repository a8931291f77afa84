//! LZMA, raw and in its containers.
pub mod alone;
pub mod chunks;
pub mod decode;
pub mod encode;
pub mod lzma2;
pub(crate) mod marked;
pub mod range;
pub mod range_encoder;
pub mod symbols;
pub mod syntax;
pub mod window;

pub use crate::codecs::lzma::decode::{LzmaDecoder, Properties};
use crate::utils::bytes;
use crate::utils::bytes::get_le16;
use crate::utils::error::{Error, Result};
use vstd::prelude::*;

verus! {

const HEADER_LEN: usize = 4;

/// What a ZIP entry compressed with LZMA holds: four bytes of framing, five
/// of properties, and a raw stream.
pub open spec fn entry(data: Seq<u8>, expected: Option<u64>) -> Option<Seq<u8>> {
    if data.len() < 9 || bytes::le(data, 2, 2) != 5 {
        None
    } else {
        match syntax::props_from(data[4] as int, bytes::le(data, 5, 4) as int) {
            None => None,
            Some(p) => syntax::stream(data.skip(9), p, expected),
        }
    }
}

/// A decoder of a ZIP entry. It fails where the framing is malformed.
pub fn reader(input: &[u8], expected: Option<u64>) -> (r: Result<LzmaDecoder>)
    ensures
        r is Ok <==> input@.len() >= 14 && bytes::le(input@, 2, 2) == 5 && syntax::props_from(
            input@[4] as int,
            bytes::le(input@, 5, 4) as int,
        ) is Some,
        r matches Ok(d) ==> d.wf() && d.input() == input@.skip(9) && Some(d.properties())
            == syntax::props_from(input@[4] as int, bytes::le(input@, 5, 4) as int) && d.wanted()
            == expected && d.delivered() == Seq::<u8>::empty(),
        r matches Err(e) ==> e == Error::Malformed,
{
    if input.len() < HEADER_LEN {
        return Err(Error::Malformed);
    }
    let property_len: u16 = get_le16(input, 2);
    if property_len != 5 || input.len() < HEADER_LEN + 5 {
        return Err(Error::Malformed);
    }
    let head: [u8; 5] = [input[4], input[5], input[6], input[7], input[8]];
    proof {
        reveal_with_fuel(bytes::le, 5);
        assert(bytes::le(head@, 1, 4) == bytes::le(input@, 5, 4));
    }
    let props: Properties = match Properties::from_bytes(head) {
        Ok(p) => p,
        Err(e) => {
            return Err(e);
        },
    };
    let mut rest: Vec<u8> = Vec::with_capacity(input.len() - 9);
    rest.extend_from_slice(&input[9..input.len()]);
    assert(rest@ =~= input@.skip(9));
    LzmaDecoder::new(rest, props, expected)
}

/// The whole of a ZIP entry, decoded.
pub fn decompress(data: &[u8], expected: Option<u64>) -> (r: Result<Vec<u8>>)
    ensures
        match entry(data@, expected) {
            Some(all) => r matches Ok(out) && out@ == all,
            None => r matches Err(e) && e == Error::Malformed,
        },
{
    match reader(data, expected) {
        Ok(mut d) => d.read_to_end(),
        Err(e) => Err(e),
    }
}

} // verus!
