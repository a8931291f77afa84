//! The AES encryption of ZIP entries.
use crate::crypto::aes;
use crate::crypto::aes::AesCtr;
use crate::crypto::hmac;
use crate::crypto::hmac::{constant_time_eq, pbkdf2_sha1, HmacSha1};
use crate::utils::bytes;
use crate::utils::error::{Error, Result};
use vstd::prelude::*;

verus! {

pub const ITERATIONS: u32 = 1000;

pub const VERIFIER_LEN: usize = 2;

pub const AUTH_CODE_LEN: usize = 10;

pub const VENDOR_ID: [u8; 2] = [0x41, 0x45];

/// The length of the key.
#[derive(Debug, Clone, Copy, PartialEq, Eq, Structural)]
pub enum Strength {
    Aes128,
    Aes192,
    Aes256,
}

/// The strength that a number means.
pub open spec fn strength_of(code: u8) -> Option<Strength> {
    if code == 1 {
        Some(Strength::Aes128)
    } else if code == 2 {
        Some(Strength::Aes192)
    } else if code == 3 {
        Some(Strength::Aes256)
    } else {
        None
    }
}

impl Strength {
    /// How many bytes the key has.
    pub open spec fn len(self) -> nat {
        match self {
            Strength::Aes128 => 16,
            Strength::Aes192 => 24,
            Strength::Aes256 => 32,
        }
    }

    /// The strength that a number means.
    pub fn from_code(code: u8) -> (r: Result<Self>)
        ensures
            match strength_of(code) {
                Some(s) => r == Ok::<Self, Error>(s),
                None => r == Err::<Self, Error>(Error::Malformed),
            },
    {
        match code {
            1 => Ok(Strength::Aes128),
            2 => Ok(Strength::Aes192),
            3 => Ok(Strength::Aes256),
            _ => Err(Error::Malformed),
        }
    }

    /// The number that means this strength.
    pub fn code(self) -> (r: u8)
        ensures
            strength_of(r) == Some(self),
            1 <= r <= 3,
    {
        match self {
            Strength::Aes128 => 1,
            Strength::Aes192 => 2,
            Strength::Aes256 => 3,
        }
    }

    /// How many bytes the key has.
    pub fn key_len(self) -> (r: usize)
        ensures
            r == self.len(),
    {
        match self {
            Strength::Aes128 => 16,
            Strength::Aes192 => 24,
            Strength::Aes256 => 32,
        }
    }

    /// How many bytes the salt has.
    pub fn salt_len(self) -> (r: usize)
        ensures
            r == self.len() / 2,
    {
        self.key_len() / 2
    }
}

/// The extra field of an entry that is encrypted with AES.
#[derive(Debug, Clone, Copy, PartialEq, Eq, Structural)]
pub struct AesExtra {
    pub version: u16,
    pub strength: Strength,
    pub actual_method: u16,
}

/// What an extra field says.
pub open spec fn extra_of(data: Seq<u8>) -> Result<AesExtra> {
    if data.len() < 7 || data[2] != VENDOR_ID@[0] || data[3] != VENDOR_ID@[1] {
        Err(Error::Malformed)
    } else {
        match strength_of(data[4]) {
            None => Err(Error::Malformed),
            Some(strength) => Ok(
                AesExtra {
                    version: bytes::le(data, 0, 2) as u16,
                    strength,
                    actual_method: bytes::le(data, 5, 2) as u16,
                },
            ),
        }
    }
}

impl AesExtra {
    /// Read an extra field.
    pub fn parse(data: &[u8]) -> (r: Result<Self>)
        ensures
            match extra_of(data@) {
                Ok(x) => r == Ok::<Self, Error>(x),
                Err(e) => r == Err::<Self, Error>(e),
            },
    {
        if data.len() < 7 {
            return Err(Error::Malformed);
        }
        if data[2] != VENDOR_ID[0] || data[3] != VENDOR_ID[1] {
            return Err(Error::Malformed);
        }
        let strength: Strength = match Strength::from_code(data[4]) {
            Err(e) => {
                return Err(e);
            },
            Ok(s) => s,
        };
        Ok(
            AesExtra {
                version: bytes::get_le16(data, 0),
                strength,
                actual_method: bytes::get_le16(data, 5),
            },
        )
    }

    /// Write an extra field, which reads back as it is.
    pub fn encode(&self) -> (r: [u8; 7])
        ensures
            extra_of(r@) == Ok::<Self, Error>(*self),
            r@[0] == self.version % 256,
            r@[1] == self.version / 256,
            r@[5] == self.actual_method % 256,
            r@[6] == self.actual_method / 256,
    {
        let r: [u8; 7] = [
            (self.version % 256) as u8,
            (self.version / 256) as u8,
            VENDOR_ID[0],
            VENDOR_ID[1],
            self.strength.code(),
            (self.actual_method % 256) as u8,
            (self.actual_method / 256) as u8,
        ];
        proof {
            reveal_with_fuel(bytes::le, 3);
        }
        r
    }

    /// Whether the entry's CRC is to be checked.
    pub fn crc_is_meaningful(&self) -> (r: bool)
        ensures
            r == (self.version == 1),
    {
        self.version == 1
    }
}

/// How many bytes encryption adds to an entry.
pub fn overhead(strength: Strength) -> (r: u64)
    ensures
        r == strength.len() / 2 + VERIFIER_LEN + AUTH_CODE_LEN,
{
    (strength.salt_len() + VERIFIER_LEN + AUTH_CODE_LEN) as u64
}

/// What a password and a salt make.
pub open spec fn material(password: Seq<u8>, salt: Seq<u8>, strength: Strength) -> Seq<u8> {
    hmac::derived(password, salt, ITERATIONS as nat, 2 * strength.len() + 2)
}

/// The key that encrypts.
pub open spec fn encryption_key(password: Seq<u8>, salt: Seq<u8>, strength: Strength) -> Seq<u8> {
    material(password, salt, strength).take(strength.len() as int)
}

/// The key that authenticates.
pub open spec fn authentication_key(
    password: Seq<u8>,
    salt: Seq<u8>,
    strength: Strength,
) -> Seq<u8> {
    material(password, salt, strength).subrange(strength.len() as int, 2 * strength.len() as int)
}

/// The bytes that check the password.
pub open spec fn verifier_of(password: Seq<u8>, salt: Seq<u8>, strength: Strength) -> Seq<u8> {
    material(password, salt, strength).skip(2 * strength.len() as int)
}

/// The code that authenticates what is stored.
pub open spec fn tag_of(key: Seq<u8>, stored: Seq<u8>) -> Seq<u8> {
    hmac::hmac(key, stored).take(AUTH_CODE_LEN as int)
}

struct DerivedKeys {
    encryption: Vec<u8>,
    authentication: Vec<u8>,
    verifier: Vec<u8>,
}

fn derive(password: &[u8], salt: &[u8], strength: Strength) -> (r: DerivedKeys)
    ensures
        r.encryption@ == encryption_key(password@, salt@, strength),
        r.authentication@ == authentication_key(password@, salt@, strength),
        r.verifier@ == verifier_of(password@, salt@, strength),
        r.encryption@.len() == strength.len(),
        r.verifier@.len() == 2,
{
    let key_len: usize = strength.key_len();
    let mut all: Vec<u8> = vec![0u8; key_len * 2 + VERIFIER_LEN];
    pbkdf2_sha1(password, salt, ITERATIONS, all.as_mut_slice());
    let mut encryption: Vec<u8> = Vec::new();
    encryption.extend_from_slice(&all.as_slice()[0..key_len]);
    let mut authentication: Vec<u8> = Vec::new();
    authentication.extend_from_slice(&all.as_slice()[key_len..2 * key_len]);
    let mut verifier: Vec<u8> = Vec::new();
    verifier.extend_from_slice(&all.as_slice()[2 * key_len..all.len()]);
    proof {
        let m = material(password@, salt@, strength);
        assert(all@ == m);
        assert(encryption@ =~= m.take(key_len as int));
        assert(authentication@ =~= m.subrange(key_len as int, 2 * key_len as int));
        assert(verifier@ =~= m.skip(2 * key_len as int));
    }
    DerivedKeys { encryption, authentication, verifier }
}

/// Decrypts an entry and checks its code.
pub struct AesDecryptor {
    ctr: AesCtr,
    mac: HmacSha1,
}

impl AesDecryptor {
    /// The key that encrypts.
    pub closed spec fn key(&self) -> Seq<u8> {
        self.ctr.key()
    }

    /// The key that authenticates.
    pub closed spec fn mac_key(&self) -> Seq<u8> {
        self.mac.key()
    }

    /// The stored bytes seen so far.
    pub closed spec fn seen(&self) -> Seq<u8> {
        self.mac.taken()
    }

    /// The key stream goes along with what was seen.
    pub closed spec fn wf(&self) -> bool {
        self.ctr.wf() && self.mac.wf() && self.ctr.at() == self.mac.taken().len()
    }

    /// Start an entry. It fails where the password does not match the
    /// verifier.
    pub fn new(password: &[u8], salt: &[u8], verifier: [u8; 2], strength: Strength) -> (r: Result<
        Self,
    >)
        ensures
            if verifier@ == verifier_of(password@, salt@, strength) {
                r matches Ok(d) && d.wf() && d.seen() == Seq::<u8>::empty() && d.key()
                    == encryption_key(password@, salt@, strength) && d.mac_key()
                    == authentication_key(password@, salt@, strength)
            } else {
                r == Err::<Self, Error>(Error::WrongPassword)
            },
    {
        let keys: DerivedKeys = derive(password, salt, strength);
        if !constant_time_eq(&keys.verifier, &verifier) {
            return Err(Error::WrongPassword);
        }
        match AesCtr::new(&keys.encryption) {
            None => Err(Error::Malformed),
            Some(ctr) => Ok(AesDecryptor { ctr, mac: HmacSha1::new(&keys.authentication) }),
        }
    }

    /// Decrypt more of the entry in place.
    pub fn decrypt(&mut self, data: &mut [u8])
        requires
            old(self).wf(),
        ensures
            final(self).wf(),
            final(self).key() == old(self).key(),
            final(self).mac_key() == old(self).mac_key(),
            final(self).seen() == old(self).seen() + old(data)@,
            final(data)@ == aes::padded(old(self).key(), old(self).seen().len(), old(data)@),
            final(data)@.len() == old(data)@.len(),
    {
        self.mac.update(data);
        self.ctr.apply(data);
    }

    /// Check the code of what was seen.
    pub fn verify(self, expected: &[u8]) -> (r: Result<()>)
        requires
            self.wf(),
        ensures
            if expected@ == tag_of(self.mac_key(), self.seen()) {
                r is Ok
            } else {
                r == Err::<(), Error>(Error::AuthenticationFailed)
            },
    {
        let tag: [u8; 20] = self.mac.finish();
        let short: &[u8] = &tag[0..10];
        assert(short@ =~= tag_of(self.mac_key(), self.seen()));
        if !constant_time_eq(short, expected) {
            return Err(Error::AuthenticationFailed);
        }
        Ok(())
    }
}

/// Encrypts an entry and makes its code.
pub struct AesEncryptor {
    ctr: AesCtr,
    mac: HmacSha1,
    prefix: Vec<u8>,
}

impl AesEncryptor {
    /// The key that encrypts.
    pub closed spec fn key(&self) -> Seq<u8> {
        self.ctr.key()
    }

    /// The key that authenticates.
    pub closed spec fn mac_key(&self) -> Seq<u8> {
        self.mac.key()
    }

    /// The stored bytes made so far.
    pub closed spec fn made(&self) -> Seq<u8> {
        self.mac.taken()
    }

    /// What stands in front of the entry.
    pub closed spec fn lead(&self) -> Seq<u8> {
        self.prefix@
    }

    /// The key stream goes along with what was made.
    pub closed spec fn wf(&self) -> bool {
        self.ctr.wf() && self.mac.wf() && self.ctr.at() == self.mac.taken().len()
    }

    /// Start an entry with a salt of random bytes.
    pub fn new(password: &[u8], strength: Strength, random: &[u8]) -> (r: Result<Self>)
        ensures
            if random@.len() == strength.len() / 2 {
                r matches Ok(e) && e.starts(password@, strength, random@)
            } else {
                r == Err::<Self, Error>(Error::Malformed)
            },
    {
        Self::with_salt(password, strength, random)
    }

    /// Nothing made yet, under a password and a salt.
    pub open spec fn starts(&self, password: Seq<u8>, strength: Strength, salt: Seq<u8>) -> bool {
        &&& self.wf()
        &&& self.made() == Seq::<u8>::empty()
        &&& self.key() == encryption_key(password, salt, strength)
        &&& self.mac_key() == authentication_key(password, salt, strength)
        &&& self.lead() == salt + verifier_of(password, salt, strength)
    }

    /// Start an entry with a given salt.
    pub fn with_salt(password: &[u8], strength: Strength, salt: &[u8]) -> (r: Result<Self>)
        ensures
            if salt@.len() == strength.len() / 2 {
                r matches Ok(e) && e.starts(password@, strength, salt@)
            } else {
                r == Err::<Self, Error>(Error::Malformed)
            },
    {
        if salt.len() != strength.salt_len() {
            return Err(Error::Malformed);
        }
        let keys: DerivedKeys = derive(password, salt, strength);
        let mut prefix: Vec<u8> = Vec::new();
        prefix.extend_from_slice(salt);
        prefix.extend_from_slice(&keys.verifier);
        assert(prefix@ =~= salt@ + verifier_of(password@, salt@, strength));
        match AesCtr::new(&keys.encryption) {
            None => Err(Error::Malformed),
            Some(ctr) => Ok(
                AesEncryptor { ctr, mac: HmacSha1::new(&keys.authentication), prefix },
            ),
        }
    }

    /// What stands in front of the entry: the salt and the verifier.
    pub fn prefix(&self) -> (r: &[u8])
        ensures
            r@ == self.lead(),
    {
        self.prefix.as_slice()
    }

    /// Encrypt more of the entry in place.
    pub fn encrypt(&mut self, data: &mut [u8])
        requires
            old(self).wf(),
        ensures
            final(self).wf(),
            final(self).key() == old(self).key(),
            final(self).mac_key() == old(self).mac_key(),
            final(self).lead() == old(self).lead(),
            final(self).made() == old(self).made() + final(data)@,
            final(data)@ == aes::padded(old(self).key(), old(self).made().len(), old(data)@),
            final(data)@.len() == old(data)@.len(),
    {
        self.ctr.apply(data);
        self.mac.update(data);
    }

    /// The code of what was made.
    pub fn finish(self) -> (r: [u8; 10])
        requires
            self.wf(),
        ensures
            r@ == tag_of(self.mac_key(), self.made()),
    {
        let tag: [u8; 20] = self.mac.finish();
        let r: [u8; 10] = [
            tag[0],
            tag[1],
            tag[2],
            tag[3],
            tag[4],
            tag[5],
            tag[6],
            tag[7],
            tag[8],
            tag[9],
        ];
        assert(r@ =~= tag_of(self.mac_key(), self.made()));
        r
    }
}

} // verus!
