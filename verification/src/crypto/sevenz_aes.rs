//! The AES encryption of 7z archives.
use crate::crypto::aes;
use crate::crypto::aes::{Aes, CbcDecrypt, BLOCK_SIZE};
use crate::crypto::sha256;
use crate::crypto::sha256::Sha256;
use crate::crypto::Password;
use crate::utils::bits::power_of_two;
use crate::utils::bytes;
use crate::utils::bytes::put_le;
use crate::utils::error::{Error, Result};
use vstd::arithmetic::power2::*;
use vstd::prelude::*;

verus! {

pub const MAX_FIELD: usize = 16;

pub const CYCLES_LITERAL: u8 = 0x3F;

const CHUNK: usize = 65_536;

/// What stands for a byte sequence that is no character.
pub const REPLACEMENT: u32 = 0xFFFD;

/// The byte at `i`, or one that continues nothing.
pub open spec fn byte_at(b: Seq<u8>, i: int) -> u8 {
    if 0 <= i < b.len() {
        b[i]
    } else {
        0
    }
}

/// Whether a byte continues a character.
pub open spec fn follows(b: u8) -> bool {
    0x80 <= b <= 0xBF
}

/// How long a character is by its first byte, or zero.
pub open spec fn char_len(first: u8) -> nat {
    if first < 0x80 {
        1
    } else if 0xC2 <= first <= 0xDF {
        2
    } else if 0xE0 <= first <= 0xEF {
        3
    } else if 0xF0 <= first <= 0xF4 {
        4
    } else {
        0
    }
}

/// Whether `second` may come after `first`, which rules out what is longer
/// than it has to be, surrogates, and what is past the last character.
pub open spec fn second_fits(first: u8, second: u8) -> bool {
    &&& follows(second)
    &&& first == 0xE0 ==> second >= 0xA0
    &&& first == 0xED ==> second <= 0x9F
    &&& first == 0xF0 ==> second >= 0x90
    &&& first == 0xF4 ==> second <= 0x8F
}

/// The character at `i` of UTF-8 text and how many bytes it takes. The
/// longest start of a character that goes wrong reads as one replacement.
pub open spec fn char_at(b: Seq<u8>, i: int) -> (nat, nat) {
    let x = b[i];
    let y = byte_at(b, i + 1);
    let z = byte_at(b, i + 2);
    let w = byte_at(b, i + 3);
    let n = char_len(x);
    if n == 1 {
        (x as nat, 1)
    } else if n == 0 || !second_fits(x, y) {
        (REPLACEMENT as nat, 1)
    } else if n == 2 {
        (((x - 0xC0) * 64 + (y - 0x80)) as nat, 2)
    } else if !follows(z) {
        (REPLACEMENT as nat, 2)
    } else if n == 3 {
        (((x - 0xE0) * 4096 + (y - 0x80) * 64 + (z - 0x80)) as nat, 3)
    } else if !follows(w) {
        (REPLACEMENT as nat, 3)
    } else {
        (
            ((x - 0xF0) * 0x4_0000 + (y - 0x80) * 4096 + (z - 0x80) * 64 + (w - 0x80)) as nat,
            4,
        )
    }
}

/// A character in UTF-16, low byte first.
pub open spec fn utf16_bytes(c: nat) -> Seq<u8> {
    if c < 0x1_0000 {
        bytes::le_bytes(c, 2)
    } else {
        bytes::le_bytes(0xD800 + (c - 0x1_0000) as nat / 1024, 2) + bytes::le_bytes(
            0xDC00 + (c - 0x1_0000) as nat % 1024,
            2,
        )
    }
}

/// UTF-8 text from byte `i` on, in UTF-16.
pub open spec fn utf16_from(b: Seq<u8>, i: int) -> Seq<u8>
    decreases b.len() - i,
{
    if i < 0 || i >= b.len() {
        Seq::empty()
    } else {
        let (c, n) = char_at(b, i);
        utf16_bytes(c) + utf16_from(b, i + n)
    }
}

/// What is digested `n` times over.
pub open spec fn rounds(salt: Seq<u8>, text: Seq<u8>, n: nat) -> Seq<u8>
    decreases n,
{
    if n == 0 {
        Seq::empty()
    } else {
        rounds(salt, text, (n - 1) as nat) + salt + text + bytes::le_bytes((n - 1) as nat, 8)
    }
}

/// The key that a password makes.
pub open spec fn key_of(password: Seq<u8>, salt: Seq<u8>, cycles: u8) -> Seq<u8> {
    let text = utf16_from(password, 0);
    if cycles == CYCLES_LITERAL {
        let all = salt + text;
        Seq::new(
            32,
            |i: int|
                if i < all.len() {
                    all[i]
                } else {
                    0u8
                },
        )
    } else {
        sha256::digest_of(rounds(salt, text, pow2(cycles as nat)))
    }
}

fn char_of(b: &[u8], i: usize) -> (r: (u32, usize))
    requires
        i < b.len(),
    ensures
        (r.0 as nat, r.1 as nat) == char_at(b@, i as int),
        1 <= r.1 <= 4,
        i + r.1 <= b.len(),
        r.0 < 0x11_0000,
{
    let left: usize = b.len() - i;
    let x: u8 = b[i];
    let y: u8 = if left > 1 {
        b[i + 1]
    } else {
        0
    };
    let z: u8 = if left > 2 {
        b[i + 2]
    } else {
        0
    };
    let w: u8 = if left > 3 {
        b[i + 3]
    } else {
        0
    };
    if x < 0x80 {
        return (x as u32, 1);
    }
    let fits: bool = 0x80 <= y && y <= 0xBF && (x != 0xE0 || y >= 0xA0) && (x != 0xED || y <= 0x9F)
        && (x != 0xF0 || y >= 0x90) && (x != 0xF4 || y <= 0x8F);
    if x < 0xC2 || x > 0xF4 || !fits {
        return (REPLACEMENT, 1);
    }
    if x <= 0xDF {
        return ((x - 0xC0) as u32 * 64 + (y - 0x80) as u32, 2);
    }
    if z < 0x80 || z > 0xBF {
        return (REPLACEMENT, 2);
    }
    if x <= 0xEF {
        return ((x - 0xE0) as u32 * 4096 + (y - 0x80) as u32 * 64 + (z - 0x80) as u32, 3);
    }
    if w < 0x80 || w > 0xBF {
        return (REPLACEMENT, 3);
    }
    (
        (x - 0xF0) as u32 * 0x4_0000 + (y - 0x80) as u32 * 4096 + (z - 0x80) as u32 * 64 + (w
            - 0x80) as u32,
        4,
    )
}

fn utf16le(password: &[u8]) -> (r: Vec<u8>)
    ensures
        r@ == utf16_from(password@, 0),
{
    let mut out: Vec<u8> = Vec::new();
    let mut i: usize = 0;
    let ghost whole = utf16_from(password@, 0);
    assert(out@ + whole =~= whole);
    while i < password.len()
        invariant
            i <= password.len(),
            whole == utf16_from(password@, 0),
            whole == out@ + utf16_from(password@, i as int),
        decreases password.len() - i,
    {
        let ghost before = out@;
        let (c, n) = char_of(password, i);
        if c < 0x1_0000 {
            put_le(&mut out, c as u64, 2);
        } else {
            let v: u32 = c - 0x1_0000;
            put_le(&mut out, 0xD800 + (v / 1024) as u64, 2);
            put_le(&mut out, 0xDC00 + (v % 1024) as u64, 2);
        }
        proof {
            let rest = utf16_from(password@, i + n);
            assert(out@ =~= before + utf16_bytes(c as nat));
            assert(before + (utf16_bytes(c as nat) + rest) =~= out@ + rest);
        }
        i = i + n;
    }
    assert(out@ + Seq::<u8>::empty() =~= out@);
    out
}

/// The key that a password makes.
pub fn derive_key(password: &Password, salt: &[u8], cycles: u8) -> (r: [u8; 32])
    requires
        cycles <= CYCLES_LITERAL,
    ensures
        r@ == key_of(password@, salt@, cycles),
{
    let text: Vec<u8> = utf16le(password.as_bytes());
    if cycles == CYCLES_LITERAL {
        let mut key: [u8; 32] = [0u8; 32];
        let mut at: usize = 0;
        let ghost all = salt@ + text@;
        while at < 32
            invariant
                at <= 32,
                key@.len() == 32,
                all == salt@ + text@,
                forall|j: int|
                    0 <= j < at ==> #[trigger] key@[j] == if j < all.len() {
                        all[j]
                    } else {
                        0u8
                    },
            decreases 32 - at,
        {
            key[at] = if at < salt.len() {
                salt[at]
            } else if at - salt.len() < text.len() {
                text[at - salt.len()]
            } else {
                0
            };
            at = at + 1;
        }
        assert(key@ =~= key_of(password@, salt@, cycles));
        return key;
    }
    let mut sha: Sha256 = Sha256::new();
    let mut counter: u64 = 0;
    let count: u64 = power_of_two(cycles as u32);
    while counter < count
        invariant
            counter <= count,
            sha.wf(),
            sha.taken() == rounds(salt@, text@, counter as nat),
        decreases count - counter,
    {
        sha.update(salt);
        sha.update(&text);
        let mut field: Vec<u8> = Vec::new();
        put_le(&mut field, counter, 8);
        assert(field@ =~= bytes::le_bytes(counter as nat, 8));
        sha.update(&field);
        counter = counter + 1;
    }
    sha.finish()
}

/// How an archive encrypts.
#[derive(Debug, Clone, PartialEq, Eq)]
pub struct Properties {
    pub cycles: u8,
    pub salt: Vec<u8>,
    pub iv: [u8; 16],
}

/// What coder properties say: the cycles, the salt and the first block.
pub open spec fn properties_of(b: Seq<u8>) -> Result<(u8, Seq<u8>, Seq<u8>)> {
    if b.len() == 0 {
        Err(Error::Malformed)
    } else {
        let flags = b[0];
        let cycles = (flags % 64) as u8;
        if flags / 64 == 0 {
            Ok((cycles, Seq::empty(), Seq::new(16, |i: int| 0u8)))
        } else if b.len() < 2 {
            Err(Error::Malformed)
        } else {
            let salt_len = flags / 128 + b[1] / 16;
            let iv_len = flags / 64 % 2 + b[1] % 16;
            if salt_len > MAX_FIELD || iv_len > MAX_FIELD || b.len() < 2 + salt_len + iv_len {
                Err(Error::Malformed)
            } else {
                Ok(
                    (
                        cycles,
                        b.subrange(2, 2 + salt_len),
                        b.subrange(2 + salt_len, 2 + salt_len + iv_len) + Seq::new(
                            (16 - iv_len) as nat,
                            |i: int| 0u8,
                        ),
                    ),
                )
            }
        }
    }
}

/// Coder properties with a salt and a first block: the cycles and a flag for
/// each that is 16 bytes long, what is left of the two lengths, and the two.
pub open spec fn properties_bytes(cycles: u8, salt: Seq<u8>, iv: Seq<u8>) -> Seq<u8> {
    let long = if salt.len() > 15 {
        1int
    } else {
        0
    };
    seq![(cycles + 128 * long + 64) as u8, ((salt.len() - long) * 16 + 15) as u8] + salt + iv
}

/// Coder properties read back, whatever follows them.
pub proof fn lemma_properties_read(cycles: u8, salt: Seq<u8>, iv: Seq<u8>, tail: Seq<u8>)
    requires
        cycles <= CYCLES_LITERAL,
        salt.len() <= MAX_FIELD,
        iv.len() == 16,
    ensures
        properties_of(properties_bytes(cycles, salt, iv) + tail) == Ok::<
            (u8, Seq<u8>, Seq<u8>),
            Error,
        >((cycles, salt, iv)),
{
    let b = properties_bytes(cycles, salt, iv) + tail;
    let n = salt.len() as int;
    assert(b.subrange(2, 2 + n) =~= salt);
    assert(b.subrange(2 + n, 2 + n + 16) + Seq::new(0, |i: int| 0u8) =~= iv);
}

/// Coder properties that are cut short are refused.
pub proof fn lemma_properties_cut(cycles: u8, salt: Seq<u8>, iv: Seq<u8>, k: int)
    requires
        cycles <= CYCLES_LITERAL,
        salt.len() <= MAX_FIELD,
        iv.len() == 16,
        0 <= k < properties_bytes(cycles, salt, iv).len(),
    ensures
        properties_of(properties_bytes(cycles, salt, iv).take(k)) == Err::<
            (u8, Seq<u8>, Seq<u8>),
            Error,
        >(Error::Malformed),
{
}

impl Properties {
    /// The cycles, the salt and the first block.
    pub open spec fn says(&self) -> (u8, Seq<u8>, Seq<u8>) {
        (self.cycles, self.salt@, self.iv@)
    }

    /// Read coder properties.
    pub fn parse(data: &[u8]) -> (r: Result<Self>)
        ensures
            match properties_of(data@) {
                Ok(p) => r matches Ok(x) && x.says() == p && x.cycles <= CYCLES_LITERAL
                    && x.salt@.len() <= MAX_FIELD,
                Err(e) => r matches Err(f) && f == e,
            },
    {
        if data.len() == 0 {
            return Err(Error::Malformed);
        }
        let flags: u8 = data[0];
        let cycles: u8 = flags % 64;
        let mut salt: Vec<u8> = Vec::new();
        let mut iv: [u8; 16] = [0u8; 16];
        if flags / 64 == 0 {
            assert(salt@ =~= Seq::<u8>::empty());
            assert(iv@ =~= Seq::new(16, |i: int| 0u8));
            return Ok(Properties { cycles, salt, iv });
        }
        if data.len() < 2 {
            return Err(Error::Malformed);
        }
        let sizes: u8 = data[1];
        let salt_len: usize = (flags / 128) as usize + (sizes / 16) as usize;
        let iv_len: usize = (flags / 64 % 2) as usize + (sizes % 16) as usize;
        if salt_len > MAX_FIELD || iv_len > MAX_FIELD {
            return Err(Error::Malformed);
        }
        if data.len() < 2 + salt_len + iv_len {
            return Err(Error::Malformed);
        }
        salt.extend_from_slice(&data[2..2 + salt_len]);
        assert(salt@ =~= data@.subrange(2, 2 + salt_len));
        let from: usize = 2 + salt_len;
        let mut i: usize = 0;
        while i < iv_len
            invariant
                i <= iv_len <= 16,
                from + iv_len <= data.len(),
                iv@.len() == 16,
                forall|j: int| 0 <= j < i ==> #[trigger] iv@[j] == data@[from + j],
                forall|j: int| i <= j < 16 ==> #[trigger] iv@[j] == 0,
            decreases iv_len - i,
        {
            iv[i] = data[from + i];
            i = i + 1;
        }
        assert(iv@ =~= data@.subrange(from as int, from + iv_len) + Seq::new(
            (16 - iv_len) as nat,
            |i: int| 0u8,
        ));
        Ok(Properties { cycles, salt, iv })
    }

    /// The key that a password makes.
    pub fn key(&self, password: &Password) -> (r: [u8; 32])
        requires
            self.cycles <= CYCLES_LITERAL,
        ensures
            r@ == key_of(password@, self.salt@, self.cycles),
    {
        derive_key(password, self.salt.as_slice(), self.cycles)
    }

    /// Properties with a salt and a first block of random bytes, eight of
    /// `random` each.
    pub fn generate(cycles: u8, random: &[u8; 16]) -> (r: Self)
        ensures
            r.cycles == cycles % 64,
            r.salt@ == random@.take(8),
            r.iv@ == random@.skip(8) + Seq::new(8, |i: int| 0u8),
    {
        let mut salt: Vec<u8> = Vec::new();
        let mut iv: [u8; 16] = [0u8; 16];
        let mut i: usize = 0;
        while i < 8
            invariant
                i <= 8,
                salt@ == random@.take(i as int),
                iv@.len() == 16,
                random@.len() == 16,
                forall|j: int| 0 <= j < i ==> #[trigger] iv@[j] == random@[8 + j],
                forall|j: int| i <= j < 16 ==> #[trigger] iv@[j] == 0,
            decreases 8 - i,
        {
            salt.push(random[i]);
            assert(salt@ =~= random@.take(i + 1));
            iv[i] = random[8 + i];
            i = i + 1;
        }
        assert(iv@ =~= random@.skip(8) + Seq::new(8, |i: int| 0u8));
        Properties { cycles: cycles % 64, salt, iv }
    }

    /// Write coder properties, which read back as they are.
    pub fn to_bytes(&self) -> (r: Vec<u8>)
        requires
            self.cycles <= CYCLES_LITERAL,
            self.salt@.len() <= MAX_FIELD,
        ensures
            r@ == properties_bytes(self.cycles, self.salt@, self.iv@),
            properties_of(r@) == Ok::<(u8, Seq<u8>, Seq<u8>), Error>(self.says()),
            r@.len() == 2 + self.salt@.len() + 16,
    {
        let salt_len: usize = self.salt.len();
        let salt_high: u8 = if salt_len > 15 {
            1
        } else {
            0
        };
        let mut out: Vec<u8> = Vec::new();
        out.push(self.cycles + salt_high * 128 + 64);
        out.push((salt_len as u8 - salt_high) * 16 + 15);
        out.extend_from_slice(self.salt.as_slice());
        out.extend_from_slice(&self.iv);
        proof {
            assert(out@ =~= properties_bytes(self.cycles, self.salt@, self.iv@));
            lemma_properties_read(self.cycles, self.salt@, self.iv@, Seq::empty());
            assert(out@ + Seq::<u8>::empty() =~= out@);
        }
        out
    }
}

/// Data filled up with zeros to whole blocks, one at least.
pub open spec fn filled(plain: Seq<u8>) -> Seq<u8> {
    let n = if plain.len() == 0 {
        16
    } else {
        (plain.len() + 15) / 16 * 16
    };
    plain + Seq::new((n - plain.len()) as nat, |i: int| 0u8)
}

/// Encrypt, filling up with zeros to whole blocks.
#[verifier::rlimit(30)]
#[verifier::spinoff_prover]
pub fn cbc_encrypt(plain: &[u8], key: &[u8], iv: [u8; 16]) -> (r: Result<Vec<u8>>)
    ensures
        if aes::is_key_len(key@.len()) {
            r matches Ok(v) && v@ == aes::cbc_stored(key@, iv@, filled(plain@))
        } else {
            r == Err::<Vec<u8>, Error>(Error::Malformed)
        },
{
    let cipher: Aes = match Aes::new(key) {
        None => {
            return Err(Error::Malformed);
        },
        Some(c) => c,
    };
    let mut out: Vec<u8> = Vec::new();
    let mut chain: [u8; 16] = iv;
    let ghost all = filled(plain@);
    let ghost whole = aes::cbc_stored(key@, iv@, all);
    let mut at: usize = 0;
    let mut more: bool = true;
    proof {
        assert(all.skip(0) =~= all);
        assert(out@ + whole =~= whole);
    }
    while more
        invariant
            cipher.wf(),
            cipher.key() == key@,
            all == filled(plain@),
            whole == aes::cbc_stored(key@, iv@, all),
            at <= plain.len(),
            more ==> at % 16 == 0 && at < all.len() && whole == out@ + aes::cbc_stored(
                key@,
                chain@,
                all.skip(at as int),
            ),
            !more ==> whole == out@,
        decreases plain.len() - at + if more {
            1int
        } else {
            0
        },
    {
        let ghost previous = chain@;
        let ghost before = out@;
        let ghost rest = all.skip(at as int);
        let left: usize = plain.len() - at;
        let take: usize = if left < 16 {
            left
        } else {
            16
        };
        let mut block: [u8; 16] = [0u8; 16];
        let mut i: usize = 0;
        while i < 16
            invariant
                i <= 16,
                at + take <= plain.len(),
                take <= 16,
                previous == chain@,
                block@.len() == 16,
                rest == all.skip(at as int),
                all == filled(plain@),
                take == 16 || at + take == plain.len(),
                at + 16 <= all.len(),
                forall|j: int| 0 <= j < i ==> #[trigger] block@[j] == rest[j] ^ previous[j],
            decreases 16 - i,
        {
            let byte: u8 = if i < take {
                plain[at + i]
            } else {
                0
            };
            assert(byte == rest[i as int]);
            block[i] = byte ^ chain[i];
            i = i + 1;
        }
        assert(block@ =~= aes::crossed(rest.take(16), previous));
        cipher.encrypt_block(&mut block);
        chain = block;
        out.extend_from_slice(&block);
        proof {
            let next = aes::cbc_stored(key@, chain@, rest.skip(16));
            assert(before + (block@ + next) =~= out@ + next);
            assert(all.skip(at + 16) =~= rest.skip(16));
        }
        if left > 16 {
            at = at + 16;
        } else {
            proof {
                assert(rest.skip(16) =~= Seq::<u8>::empty());
                assert(out@ + Seq::<u8>::empty() =~= out@);
            }
            at = plain.len();
            more = false;
        }
    }
    Ok(out)
}

/// Encrypted data reads back as it was, filled up to whole blocks.
pub proof fn lemma_encrypted_reads_back(key: Seq<u8>, iv: Seq<u8>, plain: Seq<u8>)
    requires
        iv.len() == 16,
    ensures
        decrypted_stream(key, iv, aes::cbc_stored(key, iv, filled(plain))) == Ok::<
            Seq<u8>,
            Error,
        >(filled(plain)),
        plain.is_prefix_of(filled(plain)),
{
    let all = filled(plain);
    assert(all.len() % 16 == 0);
    aes::lemma_cbc_round_trip(key, iv, all);
    assert(plain =~= all.take(plain.len() as int));
}

/// What an encrypted stream holds: it has to be whole blocks.
pub open spec fn decrypted_stream(key: Seq<u8>, iv: Seq<u8>, stored: Seq<u8>) -> Result<Seq<u8>> {
    if stored.len() % 16 != 0 {
        Err(Error::Malformed)
    } else {
        Ok(aes::cbc_plain(key, iv, stored))
    }
}

/// An encrypted stream decrypted as it is read.
pub struct CbcDecryptReader {
    inner: Vec<u8>,
    pos: usize,
    cipher: CbcDecrypt,
    buffer: Vec<u8>,
    at: usize,
    first: Ghost<Seq<u8>>,
}

impl CbcDecryptReader {
    /// The stream.
    pub closed spec fn input(&self) -> Seq<u8> {
        self.inner@
    }

    /// The key.
    pub closed spec fn key(&self) -> Seq<u8> {
        self.cipher.key()
    }

    /// The block before the first.
    pub closed spec fn iv(&self) -> Seq<u8> {
        self.first@
    }

    /// What the stream decrypts to.
    pub open spec fn stream(&self) -> Result<Seq<u8>> {
        decrypted_stream(self.key(), self.iv(), self.input())
    }

    /// What the whole blocks of the stream decrypt to.
    pub open spec fn held(&self) -> Seq<u8> {
        aes::cbc_plain(
            self.key(),
            self.iv(),
            self.input().take(self.input().len() as int / 16 * 16),
        )
    }

    /// Everything decrypted so far.
    spec fn produced(&self) -> Seq<u8> {
        aes::cbc_plain(self.key(), self.first@, self.inner@.take(self.pos as int))
    }

    /// What was read so far.
    pub closed spec fn delivered(&self) -> Seq<u8> {
        self.produced().take(self.produced().len() - (self.buffer@.len() - self.at))
    }

    /// How much is left.
    pub closed spec fn left(&self) -> nat {
        (self.inner@.len() - self.pos + (self.buffer@.len() - self.at)) as nat
    }

    /// What is held is the end of what was decrypted.
    pub closed spec fn wf(&self) -> bool {
        &&& self.cipher.wf()
        &&& self.first@.len() == 16
        &&& self.pos <= self.inner@.len()
        &&& self.pos % 16 == 0
        &&& self.at <= self.buffer@.len() <= self.pos
        &&& self.produced().len() == self.pos
        &&& self.buffer@ == self.produced().skip(self.pos - self.buffer@.len())
        &&& self.cipher.chain() == aes::last_block(self.first@, self.inner@.take(self.pos as int))
    }

    /// What was read is a start of what the stream decrypts to; with nothing
    /// left it is all of it.
    pub proof fn lemma_delivered(&self)
        requires
            self.wf(),
        ensures
            self.stream() matches Ok(all) ==> self.delivered().is_prefix_of(all),
            self.delivered().is_prefix_of(self.held()),
            self.left() == 0 ==> self.stream() == Ok::<Seq<u8>, Error>(self.delivered()),
    {
        let a = self.inner@.take(self.pos as int);
        let b = self.inner@.skip(self.pos as int);
        assert(self.inner@ =~= a + b);
        aes::lemma_cbc_concat(self.key(), self.first@, a, b);
        let whole = self.inner@.len() as int / 16 * 16;
        let c = self.inner@.subrange(self.pos as int, whole);
        assert(self.inner@.take(whole) =~= a + c);
        aes::lemma_cbc_concat(self.key(), self.first@, a, c);
        assert(self.delivered() =~= self.held().take(self.delivered().len() as int));
        if let Ok(all) = self.stream() {
            assert(self.delivered() =~= all.take(self.delivered().len() as int));
        }
        if self.left() == 0 {
            assert(a =~= self.inner@);
            assert(self.delivered() =~= self.produced());
        }
    }

    /// Start at the first block of `inner`.
    pub fn new(inner: Vec<u8>, key: &[u8], iv: [u8; 16]) -> (r: Result<Self>)
        ensures
            if aes::is_key_len(key@.len()) {
                r matches Ok(x) && x.wf() && x.input() == inner@ && x.key() == key@ && x.iv() == iv@
                    && x.delivered() == Seq::<u8>::empty()
            } else {
                r == Err::<Self, Error>(Error::Malformed)
            },
    {
        match CbcDecrypt::new(key, iv) {
            None => Err(Error::Malformed),
            Some(cipher) => {
                let ghost first = iv@;
                let r: CbcDecryptReader = CbcDecryptReader {
                    inner,
                    pos: 0,
                    cipher,
                    buffer: Vec::new(),
                    at: 0,
                    first: Ghost(first),
                };
                proof {
                    assert(r.inner@.take(0) =~= Seq::<u8>::empty());
                    assert(r.produced() =~= Seq::<u8>::empty());
                    assert(r.buffer@ =~= r.produced().skip(0));
                    assert(r.delivered() =~= Seq::<u8>::empty());
                }
                Ok(r)
            },
        }
    }

    /// Whether a processor's own AES does the work, which it never does.
    pub fn is_hardware_accelerated(&self) -> (r: bool)
        ensures
            !r,
    {
        self.cipher.is_hardware_accelerated()
    }

    #[verifier::spinoff_prover]
    fn next_chunk(&mut self) -> (r: Result<()>)
        requires
            old(self).wf(),
            old(self).at == old(self).buffer@.len(),
            old(self).pos < old(self).inner@.len(),
        ensures
            match r {
                Ok(_) => final(self).wf() && final(self).input() == old(self).input()
                    && final(self).key() == old(self).key() && final(self).iv() == old(self).iv()
                    && final(self).delivered() == old(self).delivered()
                    && final(self).left() == old(self).left()
                    && final(self).at < final(self).buffer@.len(),
                Err(e) => old(self).stream() == Err::<Seq<u8>, Error>(e),
            },
    {
        let left: usize = self.inner.len() - self.pos;
        let got: usize = if left < CHUNK {
            left
        } else {
            CHUNK
        };
        if got % BLOCK_SIZE != 0 {
            return Err(Error::Malformed);
        }
        let end: usize = self.pos + got;
        let mut chunk: Vec<u8> = Vec::new();
        chunk.extend_from_slice(&self.inner.as_slice()[self.pos..end]);
        let ghost piece = chunk@;
        let ghost chain = self.cipher.chain();
        let ghost key = self.key();
        let ghost before = self.produced();
        self.cipher.apply(&mut chunk);
        proof {
            let a = self.inner@.take(self.pos as int);
            assert(piece =~= self.inner@.subrange(self.pos as int, end as int));
            assert(self.inner@.take(end as int) =~= a + piece);
            aes::lemma_cbc_concat(key, self.first@, a, piece);
        }
        self.pos = end;
        self.buffer = chunk;
        self.at = 0;
        proof {
            assert(self.produced() == before + self.buffer@);
            assert(self.buffer@ =~= self.produced().skip(self.pos - self.buffer@.len()));
            assert(self.delivered() =~= before);
            assert(old(self).delivered() =~= before);
        }
        Ok(())
    }

    /// Read into `buf` what is decrypted next. Nothing is read at the end
    /// only.
    pub fn read(&mut self, buf: &mut [u8]) -> (r: Result<usize>)
        requires
            old(self).wf(),
        ensures
            final(buf)@.len() == old(buf)@.len(),
            r matches Ok(n) ==> {
                &&& final(self).wf()
                &&& final(self).input() == old(self).input()
                &&& final(self).key() == old(self).key()
                &&& final(self).iv() == old(self).iv()
                &&& n <= old(buf)@.len()
                &&& final(self).delivered() == old(self).delivered() + final(buf)@.take(n as int)
                &&& final(buf)@.skip(n as int) == old(buf)@.skip(n as int)
                &&& n == 0 && old(buf)@.len() > 0 ==> final(self).left() == 0
                &&& final(self).left() == old(self).left() - n
            },
            r matches Err(e) ==> old(self).stream() == Err::<Seq<u8>, Error>(e) && old(
                self,
            ).delivered().is_prefix_of(old(self).held()),
    {
        if buf.len() == 0 {
            assert(buf@.take(0) =~= Seq::<u8>::empty());
            return Ok(0);
        }
        proof {
            self.lemma_delivered();
        }
        if self.at == self.buffer.len() {
            if self.pos == self.inner.len() {
                assert(buf@.take(0) =~= Seq::<u8>::empty());
                return Ok(0);
            }
            if let Err(e) = self.next_chunk() {
                return Err(e);
            }
        }
        let left: usize = self.buffer.len() - self.at;
        let n: usize = if left < buf.len() {
            left
        } else {
            buf.len()
        };
        let ghost before = buf@;
        let mut i: usize = 0;
        while i < n
            invariant
                i <= n <= buf@.len(),
                buf@.len() == before.len(),
                n <= self.buffer.len() - self.at,
                self.at <= self.buffer.len(),
                forall|k: int| 0 <= k < i ==> #[trigger] buf@[k] == self.buffer@[self.at + k],
                forall|k: int| n <= k < buf@.len() ==> #[trigger] buf@[k] == before[k],
            decreases n - i,
        {
            buf[i] = self.buffer[self.at + i];
            i = i + 1;
        }
        let ghost was = self.delivered();
        self.at = self.at + n;
        proof {
            assert(self.delivered() =~= was + buf@.take(n as int));
            assert(buf@.skip(n as int) =~= before.skip(n as int));
        }
        Ok(n)
    }
}

} // verus!
