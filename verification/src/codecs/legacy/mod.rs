//! The methods of early ZIP files.
pub mod bits;
pub mod implode;
pub mod imploding;
pub mod reduce;
pub mod reducing;
pub mod shrink;
pub mod shrinking;

use crate::codecs::Method;
use crate::utils::error::{Error, Result};
use vstd::prelude::*;

verus! {

/// What an entry of a legacy method holds.
pub open spec fn decoded(method: Method, data: Seq<u8>, flags: u16) -> Option<Seq<u8>> {
    match method {
        Method::Shrink => shrink::decoded(data),
        Method::Reduce(factor) => reduce::decoded(data, factor as int + 1),
        Method::Implode => implode::decoded(data, flags),
        _ => None,
    }
}

/// The whole of an entry of a legacy method, decoded.
pub fn decompress(method: Method, data: &[u8], flags: u16, size_hint: usize) -> (r: Result<Vec<u8>>)
    ensures
        match decoded(method, data@, flags) {
            Some(all) => r matches Ok(out) && out@ == all,
            None => r matches Err(e) && e == Error::Malformed,
        },
{
    match method {
        Method::Shrink => shrink::decompress(data, size_hint),
        Method::Reduce(factor) => reduce::decompress(data, factor as u16 + 1, size_hint),
        Method::Implode => implode::decompress(data, flags, size_hint),
        _ => Err(Error::Malformed),
    }
}

} // verus!
