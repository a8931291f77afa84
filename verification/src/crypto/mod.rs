//! Digests and ciphers.
pub mod aes;
pub mod counters;
pub mod hmac;
pub mod sbox;
pub mod sevenz_aes;
pub mod sha1;
pub mod sha256;
pub mod stream;
pub mod winzip_aes;
pub mod zipcrypto;

use crate::crypto::winzip_aes::Strength;
use vstd::prelude::*;
use vstd::string::*;

verus! {

/// Which encryption scheme to use when writing with a password.
///
/// The AES ones mean WinZip AES in a ZIP and 7zAES in a 7z.
#[derive(Debug, Clone, Copy, PartialEq, Eq, Structural)]
#[non_exhaustive]
pub enum Encryption {
    /// AES with a 256-bit key. The default, and the only one 7z has.
    Aes256,
    /// AES with a 192-bit key. ZIP only.
    Aes192,
    /// AES with a 128-bit key. ZIP only.
    Aes128,
    /// ZIP's original encryption. Broken, and only worth using for readers
    /// that accept nothing else.
    ZipCrypto,
}

impl Default for Encryption {
    fn default() -> (r: Self)
        ensures
            r == Encryption::Aes256,
    {
        Encryption::Aes256
    }
}

impl Encryption {
    /// The AES key length, or `None` for ZipCrypto.
    pub open spec fn key_strength(self) -> Option<Strength> {
        match self {
            Encryption::Aes256 => Some(Strength::Aes256),
            Encryption::Aes192 => Some(Strength::Aes192),
            Encryption::Aes128 => Some(Strength::Aes128),
            Encryption::ZipCrypto => None,
        }
    }

    /// How many random bytes an entry starts from.
    pub open spec fn random_len(self) -> nat {
        match self.key_strength() {
            Some(s) => s.len() / 2,
            None => zipcrypto::HEADER_LEN as nat,
        }
    }

    /// The AES key length, or `None` for ZipCrypto.
    pub fn strength(self) -> (r: Option<Strength>)
        ensures
            r == self.key_strength(),
    {
        match self {
            Encryption::Aes256 => Some(Strength::Aes256),
            Encryption::Aes192 => Some(Strength::Aes192),
            Encryption::Aes128 => Some(Strength::Aes128),
            Encryption::ZipCrypto => None,
        }
    }

    /// How many extra bytes this scheme adds to each entry.
    pub fn overhead(self) -> (r: u64)
        ensures
            r == match self {
                Encryption::Aes256 => 28,
                Encryption::Aes192 => 24,
                Encryption::Aes128 => 20,
                Encryption::ZipCrypto => 12int,
            },
    {
        match self.strength() {
            Some(s) => winzip_aes::overhead(s),
            None => zipcrypto::HEADER_LEN as u64,
        }
    }

    /// The ZIP version a reader needs to handle this scheme.
    pub fn version_needed(self) -> (r: u16)
        ensures
            r == if self == Encryption::ZipCrypto {
                20
            } else {
                51int
            },
    {
        match self {
            Encryption::ZipCrypto => 20,
            _ => 51,
        }
    }
}

/// A password. It has no `Debug`, which keeps it out of logs.
#[derive(Clone, PartialEq, Eq)]
pub struct Password(Vec<u8>);

impl View for Password {
    type V = Seq<u8>;

    closed spec fn view(&self) -> Seq<u8> {
        self.0@
    }
}

impl Password {
    /// Take a password from any bytes.
    pub fn new(bytes: Vec<u8>) -> (r: Self)
        ensures
            r@ == bytes@,
    {
        Password(bytes)
    }

    /// Take a password from text, as UTF-8.
    pub fn from_text(text: &str) -> (r: Self)
        ensures
            r@ == text.spec_bytes(),
    {
        Password(text.as_bytes_vec())
    }

    /// The password's bytes.
    pub fn as_bytes(&self) -> (r: &[u8])
        ensures
            r@ == self@,
    {
        self.0.as_slice()
    }

    /// Whether the password is empty, which counts as having none.
    pub fn is_empty(&self) -> (r: bool)
        ensures
            r == (self@.len() == 0),
    {
        self.0.len() == 0
    }

    /// The same password again.
    pub fn copy(&self) -> (r: Self)
        ensures
            r@ == self@,
    {
        let mut bytes: Vec<u8> = Vec::new();
        bytes.extend_from_slice(self.0.as_slice());
        assert(bytes@ =~= self.0@);
        Password(bytes)
    }
}

} // verus!
