//! ZIP's original encryption.
use crate::crypto::aes;
use crate::utils::crc32;
use vstd::prelude::*;

verus! {

pub const HEADER_LEN: usize = 12;

/// The three keys.
#[derive(Debug, Clone, Copy, PartialEq, Eq, Structural)]
pub struct Keys {
    pub a: u32,
    pub b: u32,
    pub c: u32,
}

/// The keys before the password.
pub open spec fn first_keys() -> Keys {
    Keys { a: 305_419_896, b: 591_751_049, c: 878_082_192 }
}

/// The CRC register with one more byte.
pub open spec fn crc_step(crc: u32, byte: u8) -> u32 {
    crc32::crc32_byte(crc ^ byte as u32)
}

/// The keys after a byte of plain text.
pub open spec fn stepped(k: Keys, byte: u8) -> Keys {
    let a = crc_step(k.a, byte);
    let b = k.b.wrapping_add(a & 0xff).wrapping_mul(134_775_813).wrapping_add(1);
    Keys { a, b, c: crc_step(k.c, (b >> 24u32) as u8) }
}

/// The keys after some plain text.
pub open spec fn keys_after(k: Keys, plain: Seq<u8>) -> Keys
    decreases plain.len(),
{
    if plain.len() == 0 {
        k
    } else {
        stepped(keys_after(k, plain.drop_last()), plain.last())
    }
}

/// The byte that hides the next one.
pub open spec fn pad_byte(k: Keys) -> u8 {
    let t = (k.c | 2) as u16;
    (t.wrapping_mul(t ^ 1) >> 8u16) as u8
}

/// Plain text as it is stored.
pub open spec fn encrypted(k: Keys, plain: Seq<u8>) -> Seq<u8> {
    Seq::new(plain.len(), |i: int| plain[i] ^ pad_byte(keys_after(k, plain.take(i))))
}

/// What is stored as plain text.
pub open spec fn decrypted(k: Keys, stored: Seq<u8>) -> Seq<u8>
    decreases stored.len(),
{
    if stored.len() == 0 {
        Seq::empty()
    } else {
        let before = decrypted(k, stored.drop_last());
        before.push(stored.last() ^ pad_byte(keys_after(k, before)))
    }
}

/// Decryption undoes encryption.
pub proof fn lemma_round_trip(k: Keys, plain: Seq<u8>)
    ensures
        decrypted(k, encrypted(k, plain)) == plain,
    decreases plain.len(),
{
    let stored = encrypted(k, plain);
    if plain.len() == 0 {
        assert(plain =~= Seq::<u8>::empty());
    } else {
        let front = plain.drop_last();
        lemma_round_trip(k, front);
        assert(stored.drop_last() =~= encrypted(k, front)) by {
            assert forall|i: int| 0 <= i < front.len() implies stored[i] == #[trigger] encrypted(
                k,
                front,
            )[i] by {
                assert(plain.take(i) =~= front.take(i));
            }
        }
        assert(plain.take(front.len() as int) =~= front);
        aes::lemma_xor_back(plain.last(), pad_byte(keys_after(k, front)));
        assert(front.push(plain.last()) =~= plain);
    }
}

/// Encryption in two pieces.
pub proof fn lemma_encrypted_concat(k: Keys, a: Seq<u8>, b: Seq<u8>)
    ensures
        encrypted(k, a + b) == encrypted(k, a) + encrypted(keys_after(k, a), b),
{
    let whole = encrypted(k, a + b);
    let parts = encrypted(k, a) + encrypted(keys_after(k, a), b);
    assert forall|i: int| 0 <= i < whole.len() implies whole[i] == parts[i] by {
        if i < a.len() {
            assert((a + b).take(i) =~= a.take(i));
        } else {
            lemma_keys_concat(k, a, b.take(i - a.len()));
            assert((a + b).take(i) =~= a + b.take(i - a.len()));
        }
    }
    assert(whole =~= parts);
}

/// The keys after two pieces.
pub proof fn lemma_keys_concat(k: Keys, a: Seq<u8>, b: Seq<u8>)
    ensures
        keys_after(k, a + b) == keys_after(keys_after(k, a), b),
    decreases b.len(),
{
    if b.len() == 0 {
        assert(a + b =~= a);
    } else {
        lemma_keys_concat(k, a, b.drop_last());
        assert((a + b).drop_last() =~= a + b.drop_last());
    }
}

/// Decryption in two pieces.
pub proof fn lemma_decrypted_concat(k: Keys, a: Seq<u8>, b: Seq<u8>)
    ensures
        decrypted(k, a + b) == decrypted(k, a) + decrypted(keys_after(k, decrypted(k, a)), b),
        decrypted(k, a).len() == a.len(),
    decreases b.len(),
{
    let x = decrypted(k, a);
    let l = keys_after(k, x);
    if b.len() == 0 {
        assert(a + b =~= a);
        assert(x + Seq::<u8>::empty() =~= x);
        lemma_decrypted_len(k, a);
    } else {
        lemma_decrypted_concat(k, a, b.drop_last());
        assert((a + b).drop_last() =~= a + b.drop_last());
        let y = decrypted(l, b.drop_last());
        lemma_keys_concat(k, x, y);
        assert(decrypted(k, a + b) =~= x + decrypted(l, b));
    }
}

proof fn lemma_decrypted_len(k: Keys, a: Seq<u8>)
    ensures
        decrypted(k, a).len() == a.len(),
    decreases a.len(),
{
    if a.len() > 0 {
        lemma_decrypted_len(k, a.drop_last());
    }
}

fn crc_bit(x: u32) -> (r: u32)
    ensures
        r == crc32::crc32_bit(x),
{
    if x & 1 == 1 {
        (x >> 1) ^ 0xEDB8_8320
    } else {
        x >> 1
    }
}

fn crc32_byte(crc: u32, byte: u8) -> (r: u32)
    ensures
        r == crc_step(crc, byte),
{
    let x: u32 = crc ^ byte as u32;
    let y: u32 = crc_bit(crc_bit(crc_bit(crc_bit(x))));
    crc_bit(crc_bit(crc_bit(crc_bit(y))))
}

/// A running cipher.
#[derive(Clone, Copy)]
pub struct ZipCrypto {
    keys: Keys,
}

impl ZipCrypto {
    /// The keys it has come to.
    pub closed spec fn keys(&self) -> Keys {
        self.keys
    }

    /// The cipher for a password.
    pub fn new(password: &[u8]) -> (r: Self)
        ensures
            r.keys() == keys_after(first_keys(), password@),
    {
        let mut state: ZipCrypto = ZipCrypto {
            keys: Keys { a: 305_419_896, b: 591_751_049, c: 878_082_192 },
        };
        let mut i: usize = 0;
        assert(password@.take(0) =~= Seq::<u8>::empty());
        while i < password.len()
            invariant
                i <= password.len(),
                state.keys == keys_after(first_keys(), password@.take(i as int)),
            decreases password.len() - i,
        {
            state.update_keys(password[i]);
            assert(password@.take(i + 1).drop_last() =~= password@.take(i as int));
            i = i + 1;
        }
        assert(password@.take(i as int) =~= password@);
        state
    }

    fn update_keys(&mut self, byte: u8)
        ensures
            final(self).keys == stepped(old(self).keys, byte),
    {
        let a: u32 = crc32_byte(self.keys.a, byte);
        let b: u32 = self.keys.b.wrapping_add(a & 0xff).wrapping_mul(134_775_813).wrapping_add(1);
        let c: u32 = crc32_byte(self.keys.c, #[verifier::truncate] ((b >> 24u32) as u8));
        self.keys = Keys { a, b, c };
    }

    fn keystream_byte(&self) -> (r: u8)
        ensures
            r == pad_byte(self.keys),
    {
        let temp: u16 = #[verifier::truncate] ((self.keys.c | 2) as u16);
        #[verifier::truncate] ((temp.wrapping_mul(temp ^ 1) >> 8u16) as u8)
    }

    /// Turn stored bytes into plain text in place.
    pub fn decrypt(&mut self, data: &mut [u8])
        ensures
            final(data)@ == decrypted(old(self).keys(), old(data)@),
            final(self).keys() == keys_after(old(self).keys(), final(data)@),
            final(data)@.len() == old(data)@.len(),
    {
        let ghost stored = data@;
        let ghost k = self.keys;
        let mut i: usize = 0;
        assert(stored.take(0) =~= Seq::<u8>::empty());
        assert(data@.take(0) =~= Seq::<u8>::empty());
        while i < data.len()
            invariant
                i <= data@.len() == stored.len(),
                k == old(self).keys,
                stored == old(data)@,
                data@.take(i as int) == decrypted(k, stored.take(i as int)),
                data@.skip(i as int) == stored.skip(i as int),
                self.keys == keys_after(k, data@.take(i as int)),
            decreases data@.len() - i,
        {
            let ghost before = data@;
            assert(before[i as int] == stored[i as int]) by {
                assert(before.skip(i as int)[0] == stored.skip(i as int)[0]);
            }
            let plain: u8 = data[i] ^ self.keystream_byte();
            data[i] = plain;
            self.update_keys(plain);
            proof {
                assert(stored.take(i + 1).drop_last() =~= stored.take(i as int));
                assert(data@.take(i + 1) =~= before.take(i as int).push(plain));
                assert(data@.take(i + 1).drop_last() =~= before.take(i as int));
                assert(data@.skip(i + 1) =~= stored.skip(i + 1)) by {
                    assert forall|j: int| i < j < stored.len() implies data@[j] == stored[j] by {
                        assert(before.skip(i as int)[j - i] == stored.skip(i as int)[j - i]);
                    }
                }
            }
            i = i + 1;
        }
        assert(data@.take(i as int) =~= data@);
        assert(stored.take(i as int) =~= stored);
    }

    /// Turn plain text into stored bytes in place.
    pub fn encrypt(&mut self, data: &mut [u8])
        ensures
            final(data)@ == encrypted(old(self).keys(), old(data)@),
            final(self).keys() == keys_after(old(self).keys(), old(data)@),
            final(data)@.len() == old(data)@.len(),
    {
        let ghost plain = data@;
        let ghost k = self.keys;
        let mut i: usize = 0;
        assert(plain.take(0) =~= Seq::<u8>::empty());
        while i < data.len()
            invariant
                i <= data@.len() == plain.len(),
                k == old(self).keys,
                plain == old(data)@,
                forall|j: int| 0 <= j < i ==> #[trigger] data@[j] == encrypted(k, plain)[j],
                forall|j: int| i <= j < plain.len() ==> #[trigger] data@[j] == plain[j],
                self.keys == keys_after(k, plain.take(i as int)),
            decreases data@.len() - i,
        {
            let byte: u8 = data[i];
            data[i] = byte ^ self.keystream_byte();
            self.update_keys(byte);
            assert(plain.take(i + 1).drop_last() =~= plain.take(i as int));
            i = i + 1;
        }
        assert(data@ =~= encrypted(k, plain));
        assert(plain.take(i as int) =~= plain);
    }

    /// Decrypt an entry's header. It gives the byte that checks the password.
    pub fn decrypt_header(&mut self, header: &mut [u8; 12]) -> (r: u8)
        ensures
            final(header)@ == decrypted(old(self).keys(), old(header)@),
            final(self).keys() == keys_after(old(self).keys(), final(header)@),
            r == final(header)@[11],
    {
        let mut bytes: Vec<u8> = Vec::new();
        let mut i: usize = 0;
        while i < 12
            invariant
                i <= 12,
                bytes@ == header@.take(i as int),
            decreases 12 - i,
        {
            bytes.push(header[i]);
            assert(bytes@ =~= header@.take(i + 1));
            i = i + 1;
        }
        assert(bytes@ =~= header@);
        self.decrypt(bytes.as_mut_slice());
        let mut j: usize = 0;
        while j < 12
            invariant
                j <= 12,
                bytes@.len() == 12,
                header@.len() == 12,
                forall|n: int| 0 <= n < j ==> #[trigger] header@[n] == bytes@[n],
            decreases 12 - j,
        {
            header[j] = bytes[j];
            j = j + 1;
        }
        assert(header@ =~= bytes@);
        header[HEADER_LEN - 1]
    }

    /// An entry's header: random bytes, and then the byte that checks the
    /// password.
    pub fn encrypt_header(&mut self, random: &[u8; 12], check_byte: u8) -> (r: [u8; 12])
        ensures
            r@ == encrypted(old(self).keys(), random@.update(11, check_byte)),
            final(self).keys() == keys_after(old(self).keys(), random@.update(11, check_byte)),
    {
        let mut bytes: Vec<u8> = Vec::new();
        let mut i: usize = 0;
        while i < 11
            invariant
                i <= 11,
                bytes@ == random@.take(i as int),
            decreases 11 - i,
        {
            bytes.push(random[i]);
            assert(bytes@ =~= random@.take(i + 1));
            i = i + 1;
        }
        bytes.push(check_byte);
        assert(bytes@ =~= random@.update(11, check_byte));
        self.encrypt(bytes.as_mut_slice());
        let mut header: [u8; 12] = [0u8; 12];
        let mut j: usize = 0;
        while j < 12
            invariant
                j <= 12,
                bytes@.len() == 12,
                header@.len() == 12,
                forall|n: int| 0 <= n < j ==> #[trigger] header@[n] == bytes@[n],
            decreases 12 - j,
        {
            header[j] = bytes[j];
            j = j + 1;
        }
        assert(header@ =~= bytes@);
        header
    }
}

} // verus!
