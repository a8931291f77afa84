//! Archive codecs and ciphers.
pub mod archive;
pub mod codecs;
pub mod crypto;
pub mod names;
pub mod utils;

pub use crate::archive::{
    Archive, ArchiveType, CreateOptions, ExtractOptions, Overwrite, Ownership, UnsafeEntries, Wrapper,
};
pub use crate::codecs::{Level, Method};
pub use crate::crypto::{Encryption as EncryptionMethod, Password};
pub use crate::utils::error::{Error, Result, UnknownFormat};
