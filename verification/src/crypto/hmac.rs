//! HMAC with SHA-1, and the key derivation that is built on it.
use crate::crypto::sha1;
use crate::crypto::sha1::Sha1;
use vstd::prelude::*;

verus! {

pub const BLOCK_LEN: usize = 64;

pub const DIGEST_LEN: usize = 20;

/// A key as one block: a long one is digested first.
pub open spec fn key_block(key: Seq<u8>) -> Seq<u8> {
    let k = if key.len() > BLOCK_LEN {
        sha1::digest_of(key)
    } else {
        key
    };
    k + Seq::new((BLOCK_LEN - k.len()) as nat, |i: int| 0u8)
}

/// Every byte of `s` combined with `b`.
pub open spec fn masked(s: Seq<u8>, b: u8) -> Seq<u8> {
    Seq::new(s.len(), |i: int| s[i] ^ b)
}

/// The authentication code of `message` under `key`.
pub open spec fn hmac(key: Seq<u8>, message: Seq<u8>) -> Seq<u8> {
    let k = key_block(key);
    sha1::digest_of(masked(k, 0x5c) + sha1::digest_of(masked(k, 0x36) + message))
}

/// Two strings of the same length combined byte by byte.
pub open spec fn combined(a: Seq<u8>, b: Seq<u8>) -> Seq<u8> {
    Seq::new(a.len(), |i: int| a[i] ^ b[i])
}

/// The code of round `n` of a chain, which starts from `first`.
pub open spec fn chained(password: Seq<u8>, first: Seq<u8>, n: nat) -> Seq<u8>
    decreases n,
{
    if n <= 1 {
        hmac(password, first)
    } else {
        hmac(password, chained(password, first, (n - 1) as nat))
    }
}

/// The codes of the first `n` rounds combined.
pub open spec fn stretched(password: Seq<u8>, first: Seq<u8>, n: nat) -> Seq<u8>
    decreases n,
{
    if n <= 1 {
        chained(password, first, 1)
    } else {
        combined(
            stretched(password, first, (n - 1) as nat),
            chained(password, first, n),
        )
    }
}

/// Block `i` of a derived key, counting from one.
pub open spec fn derived_block(password: Seq<u8>, salt: Seq<u8>, iterations: nat, i: nat) -> Seq<
    u8,
> {
    stretched(password, salt + sha1::be32(i as u32), iterations)
}

/// A derived key of `len` bytes.
pub open spec fn derived(password: Seq<u8>, salt: Seq<u8>, iterations: nat, len: nat) -> Seq<u8> {
    Seq::new(
        len,
        |k: int|
            derived_block(password, salt, iterations, (k / 20 + 1) as nat)[k % 20],
    )
}

pub proof fn lemma_hmac_len(key: Seq<u8>, message: Seq<u8>)
    ensures
        hmac(key, message).len() == DIGEST_LEN,
{
    let k = key_block(key);
    sha1::lemma_digest_len(masked(k, 0x5c) + sha1::digest_of(masked(k, 0x36) + message));
}

proof fn lemma_stretched_len(password: Seq<u8>, first: Seq<u8>, n: nat)
    ensures
        stretched(password, first, n).len() == DIGEST_LEN,
        chained(password, first, n).len() == DIGEST_LEN,
    decreases n,
{
    if n > 1 {
        lemma_stretched_len(password, first, (n - 1) as nat);
        lemma_hmac_len(password, chained(password, first, (n - 1) as nat));
    } else {
        lemma_hmac_len(password, first);
    }
}

/// A running authentication code.
#[derive(Clone, Copy)]
pub struct HmacSha1 {
    inner: Sha1,
    outer_key: [u8; 64],
    key: Ghost<Seq<u8>>,
    data: Ghost<Seq<u8>>,
}

impl HmacSha1 {
    /// The key it was made with.
    pub closed spec fn key(&self) -> Seq<u8> {
        self.key@
    }

    /// What was taken so far.
    pub closed spec fn taken(&self) -> Seq<u8> {
        self.data@
    }

    /// The inner digest has taken the key and then the data.
    pub closed spec fn wf(&self) -> bool {
        &&& self.inner.wf()
        &&& self.inner.taken() == masked(key_block(self.key@), 0x36) + self.data@
        &&& self.outer_key@ == masked(key_block(self.key@), 0x5c)
    }

    /// Nothing taken yet.
    pub fn new(key: &[u8]) -> (r: Self)
        ensures
            r.wf(),
            r.key() == key@,
            r.taken() == Seq::<u8>::empty(),
    {
        let mut padded: [u8; 64] = [0u8; 64];
        let ghost block = key_block(key@);
        let ghost k = if key@.len() > 64 {
            sha1::digest_of(key@)
        } else {
            key@
        };
        if key.len() > BLOCK_LEN {
            let digest: [u8; 20] = sha1::digest(key);
            proof {
                sha1::lemma_digest_len(key@);
            }
            let mut i: usize = 0;
            while i < 20
                invariant
                    i <= 20,
                    digest@ == k,
                    padded@.len() == 64,
                    forall|j: int| 0 <= j < i ==> #[trigger] padded@[j] == k[j],
                    forall|j: int| i <= j < 64 ==> #[trigger] padded@[j] == 0,
                decreases 20 - i,
            {
                padded[i] = digest[i];
                i = i + 1;
            }
        } else {
            let mut i: usize = 0;
            while i < key.len()
                invariant
                    i <= key.len() <= 64,
                    key@ == k,
                    padded@.len() == 64,
                    forall|j: int| 0 <= j < i ==> #[trigger] padded@[j] == k[j],
                    forall|j: int| i <= j < 64 ==> #[trigger] padded@[j] == 0,
                decreases key.len() - i,
            {
                padded[i] = key[i];
                i = i + 1;
            }
        }
        assert(padded@ =~= block);
        let mut inner_key: [u8; 64] = [0u8; 64];
        let mut outer_key: [u8; 64] = [0u8; 64];
        let mut i: usize = 0;
        while i < 64
            invariant
                i <= 64,
                padded@ == block,
                inner_key@.len() == 64,
                outer_key@.len() == 64,
                forall|j: int| 0 <= j < i ==> #[trigger] inner_key@[j] == block[j] ^ 0x36,
                forall|j: int| 0 <= j < i ==> #[trigger] outer_key@[j] == block[j] ^ 0x5c,
            decreases 64 - i,
        {
            inner_key[i] = padded[i] ^ 0x36;
            outer_key[i] = padded[i] ^ 0x5c;
            i = i + 1;
        }
        assert(inner_key@ =~= masked(block, 0x36));
        assert(outer_key@ =~= masked(block, 0x5c));
        let mut inner: Sha1 = Sha1::new();
        inner.update(&inner_key);
        let ghost taken = key@;
        let r: HmacSha1 = HmacSha1 {
            inner,
            outer_key,
            key: Ghost(taken),
            data: Ghost(Seq::empty()),
        };
        proof {
            let m = masked(block, 0x36);
            assert(Seq::<u8>::empty() + m =~= m + Seq::<u8>::empty());
        }
        r
    }

    /// Take the bytes of `data`.
    pub fn update(&mut self, data: &[u8])
        requires
            old(self).wf(),
        ensures
            final(self).wf(),
            final(self).key() == old(self).key(),
            final(self).taken() == old(self).taken() + data@,
    {
        let ghost all = self.data@ + data@;
        let ghost m = masked(key_block(self.key@), 0x36);
        let ghost before = self.data@;
        self.inner.update(data);
        self.data = Ghost(all);
        assert(m + before + data@ =~= m + all);
    }

    /// The code of what was taken.
    pub fn finish(self) -> (r: [u8; 20])
        requires
            self.wf(),
        ensures
            r@ == hmac(self.key(), self.taken()),
    {
        let inner: [u8; 20] = self.inner.finish();
        let mut outer: Sha1 = Sha1::new();
        outer.update(&self.outer_key);
        outer.update(&inner);
        proof {
            let e = Seq::<u8>::empty();
            assert(e + self.outer_key@ + inner@ =~= self.outer_key@ + inner@);
        }
        outer.finish()
    }
}

/// The authentication code of `message` under `key`.
pub fn hmac_sha1(key: &[u8], message: &[u8]) -> (r: [u8; 20])
    ensures
        r@ == hmac(key@, message@),
{
    let mut h: HmacSha1 = HmacSha1::new(key);
    h.update(message);
    assert(Seq::<u8>::empty() + message@ =~= message@);
    h.finish()
}

fn stretch(base: &HmacSha1, first: &[u8], iterations: u32) -> (r: [u8; 20])
    requires
        base.wf(),
        base.taken() == Seq::<u8>::empty(),
    ensures
        r@ == stretched(base.key(), first@, iterations as nat),
{
    let ghost e = Seq::<u8>::empty();
    let mut mac: HmacSha1 = *base;
    mac.update(first);
    assert(e + first@ =~= first@);
    let mut u: [u8; 20] = mac.finish();
    let mut accumulator: [u8; 20] = u;
    let mut round: u32 = 1;
    while round < iterations
        invariant
            base.wf(),
            base.taken() == Seq::<u8>::empty(),
            1 <= round,
            round <= iterations || round == 1,
            u@ == chained(base.key(), first@, round as nat),
            accumulator@ == stretched(base.key(), first@, round as nat),
        decreases iterations - round,
    {
        let ghost before = accumulator@;
        let mut again: HmacSha1 = *base;
        again.update(&u);
        assert(Seq::<u8>::empty() + u@ =~= u@);
        u = again.finish();
        let mut i: usize = 0;
        while i < 20
            invariant
                i <= 20,
                accumulator@.len() == 20,
                before.len() == 20,
                forall|j: int| 0 <= j < i ==> #[trigger] accumulator@[j] == before[j] ^ u@[j],
                forall|j: int| i <= j < 20 ==> #[trigger] accumulator@[j] == before[j],
            decreases 20 - i,
        {
            accumulator[i] = accumulator[i] ^ u[i];
            i = i + 1;
        }
        assert(accumulator@ =~= combined(before, u@));
        round = round + 1;
    }
    accumulator
}

/// Fill `out` with a key that is derived from a password.
pub fn pbkdf2_sha1(password: &[u8], salt: &[u8], iterations: u32, out: &mut [u8])
    requires
        old(out)@.len() <= 0xffff_ffff,
    ensures
        final(out)@ == derived(password@, salt@, iterations as nat, old(out)@.len()),
{
    let base: HmacSha1 = HmacSha1::new(password);
    let len: usize = out.len();
    let mut at: usize = 0;
    let mut index: u32 = 0;
    let ghost want = derived(password@, salt@, iterations as nat, len as nat);
    while at < len
        invariant
            base.wf(),
            base.key() == password@,
            base.taken() == Seq::<u8>::empty(),
            len == out@.len() == old(out)@.len(),
            len <= 0xffff_ffff,
            at <= len,
            at == 20 * index || at == len,
            index <= at,
            want == derived(password@, salt@, iterations as nat, len as nat),
            forall|j: int| 0 <= j < at ==> #[trigger] out@[j] == want[j],
        decreases len - at,
    {
        index = index + 1;
        let mut first: Vec<u8> = Vec::new();
        first.extend_from_slice(salt);
        first.push((index / 0x100_0000) as u8);
        first.push(((index / 0x1_0000) % 256) as u8);
        first.push(((index / 256) % 256) as u8);
        first.push((index % 256) as u8);
        assert(first@ =~= salt@ + sha1::be32(index));
        let block: [u8; 20] = stretch(&base, &first, iterations);
        let ghost start = at;
        let mut i: usize = 0;
        while i < 20 && at < len
            invariant
                i <= 20,
                at == start + i,
                start == 20 * (index - 1),
                index >= 1,
                at <= len == out@.len(),
                len == old(out)@.len(),
                len <= 0xffff_ffff,
                block@ == derived_block(password@, salt@, iterations as nat, index as nat),
                want == derived(password@, salt@, iterations as nat, len as nat),
                forall|j: int| 0 <= j < at ==> #[trigger] out@[j] == want[j],
            decreases 20 - i,
        {
            assert(at as int / 20 + 1 == index && at as int % 20 == i);
            out[at] = block[i];
            at = at + 1;
            i = i + 1;
        }
    }
    assert(out@ =~= want);
}

/// Whether two strings are equal, in a time that does not tell where they
/// differ.
pub fn constant_time_eq(a: &[u8], b: &[u8]) -> (r: bool)
    ensures
        r == (a@ == b@),
{
    if a.len() != b.len() {
        return false;
    }
    let mut diff: u8 = 0;
    let mut i: usize = 0;
    while i < a.len()
        invariant
            i <= a.len() == b.len(),
            diff == 0 <==> forall|j: int| 0 <= j < i ==> #[trigger] a@[j] == b@[j],
        decreases a.len() - i,
    {
        let x: u8 = a[i];
        let y: u8 = b[i];
        let d: u8 = diff;
        assert((d | (x ^ y)) == 0u8 <==> (d == 0u8 && x == y)) by (bit_vector);
        diff = d | (x ^ y);
        i = i + 1;
    }
    if diff == 0 {
        assert(a@ =~= b@);
    }
    diff == 0
}

} // verus!
