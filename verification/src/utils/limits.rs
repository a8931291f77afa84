//! How much memory a coder may ask for.
use crate::utils::error::{Error, Result, Unsupported};
use vstd::prelude::*;

verus! {

/// The most memory that is set aside for a coder.
pub const MAX_CODEC_MEMORY: u32 = 0x8000_0000;

/// Whether a coder may have `size` bytes.
pub fn codec_memory(size: u32) -> (r: Result<()>)
    ensures
        size <= MAX_CODEC_MEMORY ==> r is Ok,
        size > MAX_CODEC_MEMORY ==> r == Err::<(), Error>(Error::Unsupported(Unsupported::Other)),
{
    if size > MAX_CODEC_MEMORY {
        return Err(Error::Unsupported(Unsupported::Other));
    }
    Ok(())
}

} // verus!
