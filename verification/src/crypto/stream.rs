//! Encrypted entries, read and written as streams.
use crate::crypto::aes;
use crate::crypto::winzip_aes;
use crate::crypto::winzip_aes::{AesDecryptor, AesEncryptor, Strength, AUTH_CODE_LEN};
use crate::crypto::zipcrypto;
use crate::crypto::zipcrypto::{ZipCrypto, HEADER_LEN};
use crate::crypto::{Encryption, Password};
use crate::utils::error;
use crate::utils::error::{Error, Result};
use vstd::prelude::*;

verus! {

/// The keys that a password makes.
pub open spec fn password_keys(password: Seq<u8>) -> zipcrypto::Keys {
    zipcrypto::keys_after(zipcrypto::first_keys(), password)
}

/// The rest of an entry, `k` being the keys at its start.
#[verifier::opaque]
pub open spec fn zip_rest(k: zipcrypto::Keys, data: Seq<u8>, len: nat) -> Result<Seq<u8>> {
    if data.len() < len {
        Err(Error::Malformed)
    } else {
        Ok(zipcrypto::decrypted(k, data.take(len as int)))
    }
}

/// What an entry in ZIP's original encryption holds. `size` is its stored
/// size, with its header.
pub open spec fn zip_outcome(password: Seq<u8>, data: Seq<u8>, size: nat, check: u8) -> Result<
    Seq<u8>,
> {
    if size < HEADER_LEN || data.len() < HEADER_LEN {
        Err(Error::Malformed)
    } else {
        let k = password_keys(password);
        let head = zipcrypto::decrypted(k, data.take(12));
        if head[11] != check {
            Err(Error::WrongPassword)
        } else {
            zip_rest(zipcrypto::keys_after(k, head), data.skip(12), (size - 12) as nat)
        }
    }
}

/// The rest of an entry, `seen` being what was stored before it.
#[verifier::opaque]
pub open spec fn aes_rest(
    key: Seq<u8>,
    mac_key: Seq<u8>,
    seen: Seq<u8>,
    data: Seq<u8>,
    len: nat,
) -> Result<Seq<u8>> {
    if data.len() < len + AUTH_CODE_LEN {
        Err(Error::Malformed)
    } else {
        let body = data.take(len as int);
        if data.subrange(len as int, len + AUTH_CODE_LEN) != winzip_aes::tag_of(
            mac_key,
            seen + body,
        ) {
            Err(Error::AuthenticationFailed)
        } else {
            Ok(aes::padded(key, seen.len(), body))
        }
    }
}

/// What an entry that is encrypted with AES holds. `size` is its stored size,
/// with its salt, its verifier and its code.
pub open spec fn aes_outcome(password: Seq<u8>, data: Seq<u8>, size: nat, strength: Strength)
    -> Result<Seq<u8>> {
    let s = strength.len() / 2;
    let overhead = s + 12;
    if size < overhead || data.len() < s + 2 {
        Err(Error::Malformed)
    } else {
        let salt = data.take(s as int);
        if data.subrange(s as int, s as int + 2) != winzip_aes::verifier_of(password, salt, strength) {
            Err(Error::WrongPassword)
        } else {
            aes_rest(
                winzip_aes::encryption_key(password, salt, strength),
                winzip_aes::authentication_key(password, salt, strength),
                Seq::empty(),
                data.skip(s as int + 2),
                (size - overhead) as nat,
            )
        }
    }
}

/// The first `len` bytes, or all where there are fewer.
pub open spec fn at_most(data: Seq<u8>, len: nat) -> Seq<u8> {
    data.take(
        if len <= data.len() {
            len as int
        } else {
            data.len() as int
        },
    )
}

/// What the rest of an entry decrypts to, cut or not, `k` being the keys at
/// its start.
#[verifier::opaque]
pub open spec fn zip_held(k: zipcrypto::Keys, data: Seq<u8>, len: nat) -> Seq<u8> {
    zipcrypto::decrypted(k, at_most(data, len))
}

/// What the rest of an entry decrypts to, cut or not and whatever its code
/// is, `seen` bytes being stored before it.
#[verifier::opaque]
pub open spec fn aes_held(key: Seq<u8>, seen: nat, data: Seq<u8>, len: nat) -> Seq<u8> {
    aes::padded(key, seen, at_most(data, len))
}

/// What is decrypted of an entry in two pieces.
proof fn lemma_zip_held(k: zipcrypto::Keys, data: Seq<u8>, len: nat, n: nat)
    requires
        n <= len,
        n <= data.len(),
    ensures
        ({
            let plain = zipcrypto::decrypted(k, data.take(n as int));
            zip_held(k, data, len) == plain + zip_held(
                zipcrypto::keys_after(k, plain),
                data.skip(n as int),
                (len - n) as nat,
            )
        }),
{
    reveal(zip_held);
    let piece = data.take(n as int);
    let more = at_most(data.skip(n as int), (len - n) as nat);
    zipcrypto::lemma_decrypted_concat(k, piece, more);
    assert(at_most(data, len) =~= piece + more);
}

/// What is decrypted of an entry in two pieces.
proof fn lemma_aes_held(key: Seq<u8>, seen: nat, data: Seq<u8>, len: nat, n: nat)
    requires
        n <= len,
        n <= data.len(),
    ensures
        aes_held(key, seen, data, len) == aes::padded(key, seen, data.take(n as int)) + aes_held(
            key,
            seen + n,
            data.skip(n as int),
            (len - n) as nat,
        ),
{
    reveal(aes_held);
    let piece = data.take(n as int);
    let more = at_most(data.skip(n as int), (len - n) as nat);
    aes::lemma_padded_concat(key, seen, piece, more);
    assert(at_most(data, len) =~= piece + more);
}

/// An entry in two pieces.
proof fn lemma_zip_rest(k: zipcrypto::Keys, data: Seq<u8>, len: nat, n: nat)
    requires
        n <= len,
        n <= data.len(),
    ensures
        ({
            let plain = zipcrypto::decrypted(k, data.take(n as int));
            zip_rest(k, data, len) == error::joined(
                plain,
                zip_rest(
                    zipcrypto::keys_after(k, plain),
                    data.skip(n as int),
                    (len - n) as nat,
                ),
            )
        }),
{
    reveal(zip_rest);
    if data.len() >= len {
        let piece = data.take(n as int);
        let more = data.skip(n as int).take(len - n);
        zipcrypto::lemma_decrypted_concat(k, piece, more);
        assert(data.take(len as int) =~= piece + more);
    }
}

/// An entry in two pieces.
proof fn lemma_aes_rest(
    key: Seq<u8>,
    mac_key: Seq<u8>,
    seen: Seq<u8>,
    data: Seq<u8>,
    len: nat,
    n: nat,
)
    requires
        n <= len,
        n <= data.len(),
    ensures
        ({
            let piece = data.take(n as int);
            aes_rest(key, mac_key, seen, data, len) == error::joined(
                aes::padded(key, seen.len(), piece),
                aes_rest(
                    key,
                    mac_key,
                    seen + piece,
                    data.skip(n as int),
                    (len - n) as nat,
                ),
            )
        }),
{
    reveal(aes_rest);
    if data.len() >= len + 10 {
        let piece = data.take(n as int);
        let later = data.skip(n as int);
        let more = later.take(len - n);
        assert(data.take(len as int) =~= piece + more);
        assert(seen + (piece + more) =~= seen + piece + more);
        assert(data.subrange(len as int, len as int + 10) =~= later.subrange(
            len - n,
            len - n + 10,
        ));
        aes::lemma_padded_concat(key, seen.len(), piece, more);
    }
}

enum ReadMode {
    ZipCrypto(ZipCrypto),
    Aes(AesDecryptor),
}

/// An encrypted entry decrypted as it is read.
pub struct DecryptReader {
    inner: Vec<u8>,
    pos: usize,
    mode: ReadMode,
    remaining: u64,
    verified: bool,
    outcome: Ghost<Result<Seq<u8>>>,
    whole: Ghost<Seq<u8>>,
    out: Ghost<Seq<u8>>,
}

impl DecryptReader {
    /// What the entry holds.
    pub closed spec fn stream(&self) -> Result<Seq<u8>> {
        self.outcome@
    }

    /// What the entry decrypts to, cut or not and whatever its code is.
    pub closed spec fn held(&self) -> Seq<u8> {
        self.whole@
    }

    /// What was read so far.
    pub closed spec fn delivered(&self) -> Seq<u8> {
        self.out@
    }

    /// How much is left.
    pub closed spec fn left(&self) -> nat {
        self.remaining as nat
    }

    /// Whether everything was read and checked.
    pub closed spec fn finished(&self) -> bool {
        self.verified
    }

    /// What is still to come.
    spec fn rest(&self) -> Result<Seq<u8>> {
        if self.verified {
            Ok(Seq::empty())
        } else {
            let data = self.inner@.skip(self.pos as int);
            match self.mode {
                ReadMode::ZipCrypto(c) => zip_rest(c.keys(), data, self.remaining as nat),
                ReadMode::Aes(d) => aes_rest(
                    d.key(),
                    d.mac_key(),
                    d.seen(),
                    data,
                    self.remaining as nat,
                ),
            }
        }
    }

    /// What is still to be decrypted.
    spec fn held_rest(&self) -> Seq<u8> {
        if self.verified {
            Seq::empty()
        } else {
            let data = self.inner@.skip(self.pos as int);
            match self.mode {
                ReadMode::ZipCrypto(c) => zip_held(c.keys(), data, self.remaining as nat),
                ReadMode::Aes(d) => aes_held(
                    d.key(),
                    d.seen().len(),
                    data,
                    self.remaining as nat,
                ),
            }
        }
    }

    /// The reader stands somewhere in the entry.
    pub closed spec fn wf(&self) -> bool {
        &&& self.pos <= self.inner@.len()
        &&& self.mode matches ReadMode::Aes(d) ==> d.wf()
        &&& self.verified ==> self.remaining == 0
        &&& self.outcome@ == error::joined(self.out@, self.rest())
        &&& self.whole@ == self.out@ + self.held_rest()
    }

    /// What was read is a start of what the entry holds; at the end it is all
    /// of it.
    pub proof fn lemma_delivered(&self)
        requires
            self.wf(),
        ensures
            self.stream() matches Ok(all) ==> self.delivered().is_prefix_of(all),
            self.delivered().is_prefix_of(self.held()),
            self.finished() ==> self.stream() == Ok::<Seq<u8>, Error>(self.delivered()),
            self.finished() ==> self.left() == 0,
    {
        assert(self.out@ =~= self.whole@.take(self.out@.len() as int));
        if let Ok(all) = self.stream() {
            assert(self.out@ =~= all.take(self.out@.len() as int));
        }
        if self.verified {
            assert(self.out@ + Seq::<u8>::empty() =~= self.out@);
        }
    }

    /// Open an entry in ZIP's original encryption. It fails where the header
    /// does not end in `check_byte`.
    pub fn zipcrypto(inner: Vec<u8>, password: &Password, stored_size: u64, check_byte: u8) -> (r:
        Result<Self>)
        ensures
            match r {
                Ok(x) => x.wf() && x.stream() == zip_outcome(
                    password@,
                    inner@,
                    stored_size as nat,
                    check_byte,
                ) && x.delivered() == Seq::<u8>::empty() && x.left() == stored_size - 12 && x.held()
                    == zip_held(
                    zipcrypto::keys_after(
                        password_keys(password@),
                        zipcrypto::decrypted(password_keys(password@), inner@.take(12)),
                    ),
                    inner@.skip(12),
                    (stored_size - 12) as nat,
                ),
                Err(e) => zip_outcome(password@, inner@, stored_size as nat, check_byte) == Err::<
                    Seq<u8>,
                    Error,
                >(e),
            },
            stored_size >= 12 && inner@.len() >= 12 && zipcrypto::decrypted(
                password_keys(password@),
                inner@.take(12),
            )[11] == check_byte ==> r is Ok,
    {
        if stored_size < HEADER_LEN as u64 {
            return Err(Error::Malformed);
        }
        if inner.len() < HEADER_LEN {
            return Err(Error::Malformed);
        }
        let mut cipher: ZipCrypto = ZipCrypto::new(password.as_bytes());
        let mut header: [u8; 12] = [0u8; 12];
        let mut i: usize = 0;
        while i < 12
            invariant
                i <= 12,
                inner.len() >= 12,
                header@.len() == 12,
                forall|j: int| 0 <= j < i ==> #[trigger] header@[j] == inner@[j],
            decreases 12 - i,
        {
            header[i] = inner[i];
            i = i + 1;
        }
        assert(header@ =~= inner@.take(12));
        let found: u8 = cipher.decrypt_header(&mut header);
        if found != check_byte {
            return Err(Error::WrongPassword);
        }
        let ghost outcome = zip_outcome(password@, inner@, stored_size as nat, check_byte);
        let ghost whole = zip_held(cipher.keys(), inner@.skip(12), (stored_size - 12) as nat);
        let r: DecryptReader = DecryptReader {
            inner,
            pos: 12,
            mode: ReadMode::ZipCrypto(cipher),
            remaining: stored_size - 12,
            verified: false,
            outcome: Ghost(outcome),
            whole: Ghost(whole),
            out: Ghost(Seq::empty()),
        };
        proof {
            if let Ok(s) = r.rest() {
                assert(Seq::<u8>::empty() + s =~= s);
            }
            assert(Seq::<u8>::empty() + whole =~= whole);
        }
        Ok(r)
    }

    /// Open an entry that is encrypted with AES. It fails where the password
    /// does not match the verifier.
    pub fn winzip_aes(inner: Vec<u8>, password: &Password, stored_size: u64, strength: Strength)
        -> (r: Result<Self>)
        ensures
            match r {
                Ok(x) => x.wf() && x.stream() == aes_outcome(
                    password@,
                    inner@,
                    stored_size as nat,
                    strength,
                ) && x.delivered() == Seq::<u8>::empty() && x.left() == stored_size - (
                strength.len() / 2 + 12) && x.held() == aes_held(
                    winzip_aes::encryption_key(
                        password@,
                        inner@.take((strength.len() / 2) as int),
                        strength,
                    ),
                    0,
                    inner@.skip((strength.len() / 2 + 2) as int),
                    (stored_size - (strength.len() / 2 + 12)) as nat,
                ),
                Err(e) => aes_outcome(password@, inner@, stored_size as nat, strength) == Err::<
                    Seq<u8>,
                    Error,
                >(e),
            },
            stored_size >= strength.len() / 2 + 12 && inner@.len() >= strength.len() / 2 + 2
                && inner@.subrange(
                (strength.len() / 2) as int,
                (strength.len() / 2 + 2) as int,
            ) == winzip_aes::verifier_of(
                password@,
                inner@.take((strength.len() / 2) as int),
                strength,
            ) ==> r is Ok,
    {
        let overhead: u64 = winzip_aes::overhead(strength);
        if stored_size < overhead {
            return Err(Error::Malformed);
        }
        let s: usize = strength.salt_len();
        if inner.len() < s + 2 {
            return Err(Error::Malformed);
        }
        let verifier: [u8; 2] = [inner[s], inner[s + 1]];
        let salt: &[u8] = &inner.as_slice()[0..s];
        proof {
            assert(salt@ =~= inner@.take(s as int));
            assert(verifier@ =~= inner@.subrange(s as int, s + 2));
        }
        let decryptor: AesDecryptor = match AesDecryptor::new(
            password.as_bytes(),
            salt,
            verifier,
            strength,
        ) {
            Err(e) => {
                return Err(e);
            },
            Ok(d) => d,
        };
        let ghost outcome = aes_outcome(password@, inner@, stored_size as nat, strength);
        let ghost whole = aes_held(
            decryptor.key(),
            0,
            inner@.skip(s + 2),
            (stored_size - overhead) as nat,
        );
        let r: DecryptReader = DecryptReader {
            inner,
            pos: s + 2,
            mode: ReadMode::Aes(decryptor),
            remaining: stored_size - overhead,
            verified: false,
            outcome: Ghost(outcome),
            whole: Ghost(whole),
            out: Ghost(Seq::empty()),
        };
        proof {
            if let Ok(t) = r.rest() {
                assert(Seq::<u8>::empty() + t =~= t);
            }
            assert(Seq::<u8>::empty() + whole =~= whole);
        }
        Ok(r)
    }

    /// Check the code behind the entry.
    #[verifier::spinoff_prover]
    fn finish(&mut self) -> (r: Result<()>)
        requires
            old(self).wf(),
            old(self).remaining == 0,
        ensures
            match r {
                Ok(_) => final(self).wf() && final(self).finished() && final(self).stream()
                    == old(self).stream() && final(self).delivered() == old(self).delivered()
                    && final(self).held() == old(self).held() && final(self).left() == 0,
                Err(e) => old(self).stream() == Err::<Seq<u8>, Error>(e),
            },
    {
        reveal(zip_rest);
        reveal(aes_rest);
        reveal(zip_held);
        reveal(aes_held);
        if self.verified {
            return Ok(());
        }
        let ghost data = self.inner@.skip(self.pos as int);
        assert(at_most(data, 0) =~= Seq::<u8>::empty());
        let mut mode: ReadMode = ReadMode::ZipCrypto(ZipCrypto::new(&[]));
        std::mem::swap(&mut mode, &mut self.mode);
        assert(data.take(0) =~= Seq::<u8>::empty());
        self.verified = true;
        match mode {
            ReadMode::Aes(decryptor) => {
                if self.inner.len() - self.pos < AUTH_CODE_LEN {
                    return Err(Error::Malformed);
                }
                let end: usize = self.pos + 10;
                let tag: &[u8] = &self.inner.as_slice()[self.pos..end];
                proof {
                    assert(tag@ =~= data.subrange(0, 10));
                    assert(decryptor.seen() + Seq::<u8>::empty() =~= decryptor.seen());
                    assert(aes::padded(
                        decryptor.key(),
                        decryptor.seen().len(),
                        Seq::empty(),
                    ) =~= Seq::<u8>::empty());
                }
                if let Err(e) = decryptor.verify(tag) {
                    return Err(e);
                }
                self.pos = end;
            },
            ReadMode::ZipCrypto(_) => {},
        }
        Ok(())
    }

    /// Decrypt the next `n` bytes.
    #[verifier::rlimit(50)]
    #[verifier::spinoff_prover]
    fn decrypt_next(&mut self, n: usize) -> (r: Vec<u8>)
        requires
            old(self).wf(),
            !old(self).verified,
            0 < n <= old(self).remaining,
            n <= old(self).inner@.len() - old(self).pos,
        ensures
            final(self).wf(),
            !final(self).verified,
            final(self).stream() == old(self).stream(),
            final(self).held() == old(self).held(),
            final(self).delivered() == old(self).delivered() + r@,
            r@.len() == n,
            final(self).remaining == old(self).remaining - n,
    {
        let ghost data = self.inner@.skip(self.pos as int);
        let ghost len = self.remaining as nat;
        assert(self.inner.len() <= usize::MAX);
        let end: usize = self.pos + n;
        let mut chunk: Vec<u8> = Vec::new();
        chunk.extend_from_slice(&self.inner.as_slice()[self.pos..end]);
        let ghost piece = chunk@;
        let ghost later = self.inner@.skip(end as int);
        proof {
            assert(piece =~= data.take(n as int));
            assert(later =~= data.skip(n as int));
        }
        let ghost rest = self.rest();
        let ghost held = self.held_rest();
        let ghost before = self.out@;
        self.pos = end;
        self.remaining = self.remaining - n as u64;
        let mut mode: ReadMode = ReadMode::ZipCrypto(ZipCrypto::new(&[]));
        std::mem::swap(&mut mode, &mut self.mode);
        match mode {
            ReadMode::ZipCrypto(cipher) => {
                let mut cipher: ZipCrypto = cipher;
                let ghost k = cipher.keys();
                cipher.decrypt(chunk.as_mut_slice());
                proof {
                    lemma_zip_rest(k, data, len, n as nat);
                    lemma_zip_held(k, data, len, n as nat);
                }
                self.mode = ReadMode::ZipCrypto(cipher);
            },
            ReadMode::Aes(decryptor) => {
                let mut decryptor: AesDecryptor = decryptor;
                let ghost seen = decryptor.seen();
                let ghost key = decryptor.key();
                decryptor.decrypt(chunk.as_mut_slice());
                proof {
                    lemma_aes_rest(key, decryptor.mac_key(), seen, data, len, n as nat);
                    lemma_aes_held(key, seen.len(), data, len, n as nat);
                }
                self.mode = ReadMode::Aes(decryptor);
            },
        }
        assert(rest == error::joined(chunk@, self.rest()));
        assert(held == chunk@ + self.held_rest());
        let ghost out = before + chunk@;
        self.out = Ghost(out);
        proof {
            assert(self.inner@.skip(self.pos as int) =~= later);
            if let Ok(s) = self.rest() {
                assert(before + (chunk@ + s) =~= before + chunk@ + s);
            }
            let s = self.held_rest();
            assert(before + (chunk@ + s) =~= before + chunk@ + s);
        }
        chunk
    }

    /// Read into `buf` what is decrypted next. Unless `buf` is empty, nothing
    /// is read at the end only, after the check.
    pub fn read(&mut self, buf: &mut [u8]) -> (r: Result<usize>)
        requires
            old(self).wf(),
        ensures
            final(buf)@.len() == old(buf)@.len(),
            r matches Ok(n) ==> {
                &&& final(self).wf()
                &&& final(self).stream() == old(self).stream()
                &&& final(self).held() == old(self).held()
                &&& n <= old(buf)@.len()
                &&& final(self).delivered() == old(self).delivered() + final(buf)@.take(n as int)
                &&& final(buf)@.skip(n as int) == old(buf)@.skip(n as int)
                &&& n == 0 && old(buf)@.len() > 0 ==> final(self).finished()
                &&& final(self).left() == old(self).left() - n
            },
            r matches Err(e) ==> old(self).stream() == Err::<Seq<u8>, Error>(e) && old(
                self,
            ).delivered().is_prefix_of(old(self).held()),
    {
        proof {
            self.lemma_delivered();
        }
        if self.remaining == 0 {
            if let Err(e) = self.finish() {
                return Err(e);
            }
            assert(buf@.take(0) =~= Seq::<u8>::empty());
            return Ok(0);
        }
        if buf.len() == 0 {
            assert(buf@.take(0) =~= Seq::<u8>::empty());
            return Ok(0);
        }
        let available: usize = self.inner.len() - self.pos;
        let mut n: usize = if buf.len() < available {
            buf.len()
        } else {
            available
        };
        if n as u64 > self.remaining {
            n = self.remaining as usize;
        }
        if n == 0 {
            reveal(zip_rest);
            reveal(aes_rest);
            return Err(Error::Malformed);
        }
        let chunk: Vec<u8> = self.decrypt_next(n);
        let ghost before = buf@;
        let mut i: usize = 0;
        while i < n
            invariant
                i <= n <= buf@.len(),
                buf@.len() == before.len(),
                chunk@.len() == n,
                forall|k: int| 0 <= k < i ==> #[trigger] buf@[k] == chunk@[k],
                forall|k: int| n <= k < buf@.len() ==> #[trigger] buf@[k] == before[k],
            decreases n - i,
        {
            buf[i] = chunk[i];
            i = i + 1;
        }
        proof {
            assert(buf@.take(n as int) =~= chunk@);
            assert(buf@.skip(n as int) =~= before.skip(n as int));
        }
        if self.remaining == 0 {
            if let Err(e) = self.finish() {
                return Err(e);
            }
        }
        Ok(n)
    }
}

/// An entry as it is stored, `random` being what it starts from.
pub open spec fn stored_entry(
    password: Seq<u8>,
    encryption: Encryption,
    check: u8,
    random: Seq<u8>,
    data: Seq<u8>,
) -> Seq<u8> {
    match encryption.key_strength() {
        Some(s) => {
            let body = aes::padded(winzip_aes::encryption_key(password, random, s), 0, data);
            random + winzip_aes::verifier_of(password, random, s) + body + winzip_aes::tag_of(
                winzip_aes::authentication_key(password, random, s),
                body,
            )
        },
        None => zipcrypto::encrypted(password_keys(password), random.update(11, check) + data),
    }
}

/// An entry in ZIP's original encryption opens with its password.
pub proof fn lemma_zip_entry(password: Seq<u8>, check: u8, random: Seq<u8>, data: Seq<u8>)
    requires
        random.len() == 12,
    ensures
        ({
            let e = stored_entry(password, Encryption::ZipCrypto, check, random, data);
            &&& e.len() == data.len() + 12
            &&& zip_outcome(password, e, e.len(), check) == Ok::<Seq<u8>, Error>(data)
        }),
{
    reveal(zip_rest);
    let k = password_keys(password);
    let head = random.update(11, check);
    let e = zipcrypto::encrypted(k, head + data);
    zipcrypto::lemma_encrypted_concat(k, head, data);
    zipcrypto::lemma_round_trip(k, head);
    let l = zipcrypto::keys_after(k, head);
    zipcrypto::lemma_round_trip(l, data);
    assert(e.take(12) =~= zipcrypto::encrypted(k, head));
    assert(e.skip(12) =~= zipcrypto::encrypted(l, data));
    assert(e.skip(12).take(data.len() as int) =~= e.skip(12));
}

/// An entry that is encrypted with AES opens with its password.
pub proof fn lemma_aes_entry(
    password: Seq<u8>,
    encryption: Encryption,
    check: u8,
    random: Seq<u8>,
    data: Seq<u8>,
)
    requires
        encryption.key_strength() is Some,
        random.len() == encryption.random_len(),
    ensures
        ({
            let e = stored_entry(password, encryption, check, random, data);
            let s = encryption.key_strength()->Some_0;
            &&& e.len() == data.len() + s.len() / 2 + 12
            &&& aes_outcome(password, e, e.len(), s) == Ok::<Seq<u8>, Error>(data)
        }),
{
    reveal(aes_rest);
    let s = encryption.key_strength()->Some_0;
    let e = stored_entry(password, encryption, check, random, data);
    let n = (s.len() / 2) as int;
    let key = winzip_aes::encryption_key(password, random, s);
    let mac = winzip_aes::authentication_key(password, random, s);
    let v = winzip_aes::verifier_of(password, random, s);
    let body = aes::padded(key, 0, data);
    let tag = winzip_aes::tag_of(mac, body);
    crate::crypto::hmac::lemma_hmac_len(mac, body);
    assert(v.len() == 2);
    assert(tag.len() == 10);
    assert(e.take(n) =~= random);
    assert(e.subrange(n, n + 2) =~= v);
    let rest = e.skip(n + 2);
    let len = data.len() as int;
    assert(rest =~= body + tag);
    assert(rest.take(len) =~= body);
    assert(rest.subrange(len, len + 10) =~= tag);
    assert(Seq::<u8>::empty() + body =~= body);
    aes::lemma_padded_twice(key, 0, data);
}

/// An entry that is encrypted with AES is refused where the code behind it is
/// not the one of what it stores, as where one of the two was changed and the
/// other was not, unless both bodies have the same code.
#[verifier::spinoff_prover]
#[verifier::rlimit(40)]
pub proof fn lemma_aes_changed(
    password: Seq<u8>,
    s: Strength,
    random: Seq<u8>,
    body: Seq<u8>,
    code: Seq<u8>,
)
    requires
        random.len() == s.len() / 2,
        code.len() == AUTH_CODE_LEN,
        code != winzip_aes::tag_of(
            winzip_aes::authentication_key(password, random, s),
            body,
        ),
    ensures
        ({
            let e = random + winzip_aes::verifier_of(password, random, s) + body + code;
            aes_outcome(password, e, e.len(), s) == Err::<Seq<u8>, Error>(
                Error::AuthenticationFailed,
            )
        }),
{
    reveal(aes_rest);
    let n = (s.len() / 2) as int;
    let mac = winzip_aes::authentication_key(password, random, s);
    let v = winzip_aes::verifier_of(password, random, s);
    let e = random + v + body + code;
    assert(v.len() == 2);
    assert(e.take(n) =~= random);
    assert(e.subrange(n, n + 2) =~= v);
    let rest = e.skip(n + 2);
    let len = body.len() as int;
    assert(rest =~= body + code);
    assert(rest.take(len) =~= body);
    assert(rest.subrange(len, len + 10) =~= code);
    assert(Seq::<u8>::empty() + body =~= body);
}

enum WriteMode {
    ZipCrypto(ZipCrypto),
    Aes(AesEncryptor),
}

/// An entry encrypted as it is written.
pub struct EncryptWriter {
    out: Vec<u8>,
    start: usize,
    mode: WriteMode,
    data: Ghost<Seq<u8>>,
    lead: Ghost<Seq<u8>>,
    keys: Ghost<zipcrypto::Keys>,
}

impl EncryptWriter {
    /// What was there before the entry.
    pub closed spec fn before(&self) -> Seq<u8> {
        self.out@.take(self.start as int)
    }

    /// What was taken so far.
    pub closed spec fn taken(&self) -> Seq<u8> {
        self.data@
    }

    /// What was stored so far.
    pub closed spec fn stored(&self) -> Seq<u8> {
        self.out@.skip(self.start as int)
    }

    /// Whether the entry is the one that these make.
    pub closed spec fn is_for(
        &self,
        password: Seq<u8>,
        encryption: Encryption,
        check: u8,
        random: Seq<u8>,
    ) -> bool {
        match (encryption.key_strength(), self.mode) {
            (Some(s), WriteMode::Aes(e)) => {
                &&& e.key() == winzip_aes::encryption_key(password, random, s)
                &&& e.mac_key() == winzip_aes::authentication_key(password, random, s)
                &&& self.lead@ == random + winzip_aes::verifier_of(password, random, s)
            },
            (None, WriteMode::ZipCrypto(c)) => {
                &&& self.keys@ == password_keys(password)
                &&& self.lead@ == random.update(11, check)
            },
            _ => false,
        }
    }

    /// What was stored stands for what was taken.
    pub closed spec fn wf(&self) -> bool {
        &&& self.start <= self.out@.len()
        &&& match self.mode {
            WriteMode::Aes(e) => {
                &&& e.wf()
                &&& e.made() == aes::padded(e.key(), 0, self.data@)
                &&& self.stored() == self.lead@ + e.made()
            },
            WriteMode::ZipCrypto(c) => {
                &&& self.stored() == zipcrypto::encrypted(self.keys@, self.lead@ + self.data@)
                &&& c.keys() == zipcrypto::keys_after(self.keys@, self.lead@ + self.data@)
            },
        }
    }

    /// Start an entry after what `inner` holds. `random` is what it starts
    /// from: as many bytes as the scheme wants.
    pub fn new(
        inner: Vec<u8>,
        password: &Password,
        encryption: Encryption,
        check_byte: u8,
        random: &[u8],
    ) -> (r: Result<Self>)
        ensures
            if random@.len() == encryption.random_len() {
                r matches Ok(w) && w.wf() && w.before() == inner@ && w.taken()
                    == Seq::<u8>::empty() && w.is_for(password@, encryption, check_byte, random@)
            } else {
                r == Err::<Self, Error>(Error::Malformed)
            },
    {
        let mut out: Vec<u8> = inner;
        let start: usize = out.len();
        let ghost before = out@;
        let ghost empty = Seq::<u8>::empty();
        match encryption.strength() {
            Some(strength) => {
                let encryptor: AesEncryptor = match AesEncryptor::new(
                    password.as_bytes(),
                    strength,
                    random,
                ) {
                    Err(e) => {
                        return Err(e);
                    },
                    Ok(e) => e,
                };
                out.extend_from_slice(encryptor.prefix());
                let ghost lead = encryptor.lead();
                let w: EncryptWriter = EncryptWriter {
                    out,
                    start,
                    mode: WriteMode::Aes(encryptor),
                    data: Ghost(empty),
                    lead: Ghost(lead),
                    keys: Ghost(zipcrypto::first_keys()),
                };
                proof {
                    assert(w.before() =~= before);
                    assert(w.stored() =~= lead + empty);
                    assert(aes::padded(encryptor.key(), 0, empty) =~= empty);
                }
                Ok(w)
            },
            None => {
                if random.len() != 12 {
                    return Err(Error::Malformed);
                }
                let mut seed: [u8; 12] = [0u8; 12];
                let mut i: usize = 0;
                while i < 12
                    invariant
                        i <= 12,
                        random.len() == 12,
                        seed@.len() == 12,
                        forall|j: int| 0 <= j < i ==> #[trigger] seed@[j] == random@[j],
                    decreases 12 - i,
                {
                    seed[i] = random[i];
                    i = i + 1;
                }
                assert(seed@ =~= random@);
                let mut cipher: ZipCrypto = ZipCrypto::new(password.as_bytes());
                let ghost k = cipher.keys();
                let header: [u8; 12] = cipher.encrypt_header(&seed, check_byte);
                out.extend_from_slice(&header);
                let ghost lead = random@.update(11, check_byte);
                let w: EncryptWriter = EncryptWriter {
                    out,
                    start,
                    mode: WriteMode::ZipCrypto(cipher),
                    data: Ghost(empty),
                    lead: Ghost(lead),
                    keys: Ghost(k),
                };
                proof {
                    assert(w.before() =~= before);
                    assert(w.stored() =~= header@);
                    assert(lead + empty =~= lead);
                }
                Ok(w)
            },
        }
    }

    /// How many bytes were stored.
    pub fn written(&self) -> (r: u64)
        requires
            self.wf(),
        ensures
            r == self.stored().len(),
    {
        (self.out.len() - self.start) as u64
    }

    /// Encrypt more of the entry.
    pub fn push(&mut self, bytes: &[u8])
        requires
            old(self).wf(),
        ensures
            final(self).wf(),
            final(self).before() == old(self).before(),
            final(self).taken() == old(self).taken() + bytes@,
            forall|p: Seq<u8>, e: Encryption, c: u8, r: Seq<u8>|
                #[trigger] old(self).is_for(p, e, c, r) ==> final(self).is_for(p, e, c, r),
    {
        let ghost was = self.stored();
        let ghost data = self.data@;
        let ghost lead = self.lead@;
        let mut scratch: Vec<u8> = Vec::new();
        scratch.extend_from_slice(bytes);
        assert(scratch@ =~= bytes@);
        match &mut self.mode {
            WriteMode::ZipCrypto(cipher) => {
                cipher.encrypt(scratch.as_mut_slice());
                proof {
                    let k = self.keys@;
                    zipcrypto::lemma_encrypted_concat(k, lead + data, bytes@);
                    zipcrypto::lemma_keys_concat(k, lead + data, bytes@);
                    assert(lead + data + bytes@ =~= lead + (data + bytes@));
                }
            },
            WriteMode::Aes(encryptor) => {
                let ghost made = encryptor.made();
                let ghost key = encryptor.key();
                encryptor.encrypt(scratch.as_mut_slice());
                proof {
                    aes::lemma_padded_concat(key, 0, data, bytes@);
                    assert(lead + (made + scratch@) =~= lead + made + scratch@);
                }
            },
        }
        self.out.extend_from_slice(&scratch);
        let ghost all = data + bytes@;
        self.data = Ghost(all);
        proof {
            assert(self.stored() =~= was + scratch@);
            assert(self.before() =~= old(self).before());
        }
    }

    /// Close the entry. It gives the output and how many bytes were stored.
    pub fn finish(self) -> (r: (Vec<u8>, u64))
        requires
            self.wf(),
        ensures
            self.before().is_prefix_of(r.0@),
            r.1 == r.0@.len() - self.before().len(),
            forall|p: Seq<u8>, e: Encryption, c: u8, random: Seq<u8>|
                #[trigger] self.is_for(p, e, c, random) ==> r.0@.skip(
                    self.before().len() as int,
                ) == stored_entry(p, e, c, random, self.taken()),
    {
        let mut out: Vec<u8> = self.out;
        let ghost n = self.before().len() as int;
        match self.mode {
            WriteMode::Aes(encryptor) => {
                let tag: [u8; 10] = encryptor.finish();
                out.extend_from_slice(&tag);
                assert(out@.skip(n) =~= self.stored() + tag@);
            },
            WriteMode::ZipCrypto(_) => {
                assert(out@.skip(n) =~= self.stored());
            },
        }
        assert(out@.take(n) =~= self.before());
        let written: u64 = (out.len() - self.start) as u64;
        (out, written)
    }
}

/// An entry as it is stored.
pub fn encrypt_buffer(
    data: &[u8],
    password: &Password,
    encryption: Encryption,
    check_byte: u8,
    random: &[u8],
) -> (r: Result<Vec<u8>>)
    ensures
        if random@.len() == encryption.random_len() {
            r matches Ok(v) && v@ == stored_entry(
                password@,
                encryption,
                check_byte,
                random@,
                data@,
            )
        } else {
            r == Err::<Vec<u8>, Error>(Error::Malformed)
        },
{
    let mut writer: EncryptWriter = match EncryptWriter::new(
        Vec::new(),
        password,
        encryption,
        check_byte,
        random,
    ) {
        Err(e) => {
            return Err(e);
        },
        Ok(w) => w,
    };
    writer.push(data);
    assert(Seq::<u8>::empty() + data@ =~= data@);
    let (out, _) = writer.finish();
    assert(out@.skip(0) =~= out@);
    Ok(out)
}

} // verus!
