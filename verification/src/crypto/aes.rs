//! AES, and the two ways of chaining it that archives use.
use crate::crypto::sbox;
use crate::crypto::sbox::{INV_SBOX, SBOX};
use crate::utils::bytes;
use vstd::arithmetic::div_mod::*;
use vstd::prelude::*;

verus! {

pub const BLOCK_SIZE: usize = 16;

pub const RCON: [u8; 11] = [
    0x00, 0x01, 0x02, 0x04, 0x08, 0x10, 0x20, 0x40, 0x80, 0x1b, 0x36,
];

/// Twice `b`, in the field of 256 elements.
pub open spec fn doubled(b: u8) -> u8 {
    if b & 0x80u8 == 0x80u8 {
        (b << 1u8) ^ 0x1bu8
    } else {
        b << 1u8
    }
}

/// One byte of a mixed column.
pub open spec fn mixed_byte(a: u8, b: u8, c: u8, d: u8) -> u8 {
    doubled(a) ^ doubled(b) ^ b ^ c ^ d
}

/// One byte of a column that is unmixed.
pub open spec fn unmixed_byte(a: u8, b: u8, c: u8, d: u8) -> u8 {
    doubled(doubled(doubled(a))) ^ doubled(doubled(a)) ^ doubled(a) ^ doubled(
        doubled(doubled(b)),
    ) ^ doubled(b) ^ b ^ doubled(doubled(doubled(c))) ^ doubled(doubled(c)) ^ c ^ doubled(
        doubled(doubled(d)),
    ) ^ d
}

/// The byte of column `c` and row `r`.
pub open spec fn cell(c: int, r: int) -> int {
    4 * (c % 4) + r
}

/// Every byte substituted, and row `r` turned by `r` columns.
pub open spec fn shifted(s: Seq<u8>) -> Seq<u8> {
    Seq::new(16, |i: int| SBOX@[s[cell(i / 4 + i % 4, i % 4)] as int])
}

/// What [`shifted`] came from.
pub open spec fn unshifted(s: Seq<u8>) -> Seq<u8> {
    Seq::new(16, |i: int| INV_SBOX@[s[cell(i / 4 + 4 - i % 4, i % 4)] as int])
}

/// The byte `k` rows further down the column of byte `i`.
pub open spec fn below(s: Seq<u8>, i: int, k: int) -> u8 {
    s[4 * (i / 4) + (i % 4 + k) % 4]
}

/// Every column mixed.
pub open spec fn mixed(s: Seq<u8>) -> Seq<u8> {
    Seq::new(
        16,
        |i: int| mixed_byte(below(s, i, 0), below(s, i, 1), below(s, i, 2), below(s, i, 3)),
    )
}

/// Every column unmixed.
pub open spec fn unmixed(s: Seq<u8>) -> Seq<u8> {
    Seq::new(
        16,
        |i: int| unmixed_byte(below(s, i, 0), below(s, i, 1), below(s, i, 2), below(s, i, 3)),
    )
}

/// Round key `n` of `keys` combined with the state.
pub open spec fn keyed(s: Seq<u8>, keys: Seq<u8>, n: int) -> Seq<u8> {
    Seq::new(16, |i: int| s[i] ^ keys[16 * n + i])
}

/// The state after `n` rounds.
pub open spec fn rounds_done(keys: Seq<u8>, block: Seq<u8>, n: nat) -> Seq<u8>
    decreases n,
{
    if n == 0 {
        keyed(block, keys, 0)
    } else {
        keyed(mixed(shifted(rounds_done(keys, block, (n - 1) as nat))), keys, n as int)
    }
}

/// A block encrypted.
pub open spec fn encrypted(keys: Seq<u8>, rounds: nat, block: Seq<u8>) -> Seq<u8> {
    keyed(shifted(rounds_done(keys, block, (rounds - 1) as nat)), keys, rounds as int)
}

/// What stands before the first `n` rounds, `s` being the state behind them.
pub open spec fn rounds_undone(keys: Seq<u8>, s: Seq<u8>, n: nat) -> Seq<u8>
    decreases n,
{
    if n == 0 {
        keyed(s, keys, 0)
    } else {
        rounds_undone(keys, unshifted(unmixed(keyed(s, keys, n as int))), (n - 1) as nat)
    }
}

/// A block decrypted.
pub open spec fn decrypted(keys: Seq<u8>, rounds: nat, block: Seq<u8>) -> Seq<u8> {
    rounds_undone(keys, unshifted(keyed(block, keys, rounds as int)), (rounds - 1) as nat)
}

pub proof fn lemma_xor_back(a: u8, b: u8)
    ensures
        (a ^ b) ^ b == a,
{
    assert((a ^ b) ^ b == a) by (bit_vector);
}

proof fn lemma_doubled(a: u8, b: u8)
    ensures
        doubled(a ^ b) == doubled(a) ^ doubled(b),
{
    assert(doubled(a ^ b) == doubled(a) ^ doubled(b)) by (bit_vector);
}

/// Twice a mixed byte is the mixed byte of twice its parts.
proof fn lemma_doubled_mix(a: u8, b: u8, c: u8, d: u8)
    ensures
        doubled(mixed_byte(a, b, c, d)) == mixed_byte(doubled(a), doubled(b), doubled(c), doubled(d)),
{
    let p = doubled(a);
    let q = doubled(b);
    lemma_doubled(p, q);
    lemma_doubled(p ^ q, b);
    lemma_doubled(p ^ q ^ b, c);
    lemma_doubled(p ^ q ^ b ^ c, d);
}

proof fn lemma_unmixed_byte(a: u8, b: u8, c: u8, d: u8)
    ensures
        unmixed_byte(
            mixed_byte(a, b, c, d),
            mixed_byte(b, c, d, a),
            mixed_byte(c, d, a, b),
            mixed_byte(d, a, b, c),
        ) == a,
{
    let a2 = doubled(a);
    let b2 = doubled(b);
    let c2 = doubled(c);
    let d2 = doubled(d);
    let a4 = doubled(a2);
    let b4 = doubled(b2);
    let c4 = doubled(c2);
    let d4 = doubled(d2);
    let a8 = doubled(a4);
    let b8 = doubled(b4);
    let c8 = doubled(c4);
    let d8 = doubled(d4);
    let a6 = doubled(a8);
    let b6 = doubled(b8);
    let c6 = doubled(c8);
    let d6 = doubled(d8);
    lemma_doubled_mix(a, b, c, d);
    lemma_doubled_mix(b, c, d, a);
    lemma_doubled_mix(c, d, a, b);
    lemma_doubled_mix(d, a, b, c);
    lemma_doubled_mix(a2, b2, c2, d2);
    lemma_doubled_mix(b2, c2, d2, a2);
    lemma_doubled_mix(c2, d2, a2, b2);
    lemma_doubled_mix(d2, a2, b2, c2);
    lemma_doubled_mix(a4, b4, c4, d4);
    lemma_doubled_mix(b4, c4, d4, a4);
    lemma_doubled_mix(c4, d4, a4, b4);
    lemma_doubled_mix(d4, a4, b4, c4);
    let n1 = b2 ^ c2 ^ c ^ d ^ a;
    let o1 = c2 ^ d2 ^ d ^ a ^ b;
    let p1 = d2 ^ a2 ^ a ^ b ^ c;
    let m2 = a4 ^ b4 ^ b2 ^ c2 ^ d2;
    let n2 = b4 ^ c4 ^ c2 ^ d2 ^ a2;
    let o4 = c8 ^ d8 ^ d4 ^ a4 ^ b4;
    let m4 = a8 ^ b8 ^ b4 ^ c4 ^ d4;
    let m8 = a6 ^ b6 ^ b8 ^ c8 ^ d8;
    let n8 = b6 ^ c6 ^ c8 ^ d8 ^ a8;
    let o8 = c6 ^ d6 ^ d8 ^ a8 ^ b8;
    let p8 = d6 ^ a6 ^ a8 ^ b8 ^ c8;
    assert(m8 ^ m4 ^ m2 ^ n8 ^ n2 ^ n1 ^ o8 ^ o4 ^ o1 ^ p8 ^ p1 == a) by (bit_vector)
        requires
            n1 == b2 ^ c2 ^ c ^ d ^ a,
            o1 == c2 ^ d2 ^ d ^ a ^ b,
            p1 == d2 ^ a2 ^ a ^ b ^ c,
            m2 == a4 ^ b4 ^ b2 ^ c2 ^ d2,
            n2 == b4 ^ c4 ^ c2 ^ d2 ^ a2,
            o4 == c8 ^ d8 ^ d4 ^ a4 ^ b4,
            m4 == a8 ^ b8 ^ b4 ^ c4 ^ d4,
            m8 == a6 ^ b6 ^ b8 ^ c8 ^ d8,
            n8 == b6 ^ c6 ^ c8 ^ d8 ^ a8,
            o8 == c6 ^ d6 ^ d8 ^ a8 ^ b8,
            p8 == d6 ^ a6 ^ a8 ^ b8 ^ c8,
    ;
}

proof fn lemma_unmixed(s: Seq<u8>)
    requires
        s.len() == 16,
    ensures
        unmixed(mixed(s)) == s,
{
    let m = mixed(s);
    assert forall|i: int| 0 <= i < 16 implies unmixed(m)[i] == s[i] by {
        let a = below(s, i, 0);
        let b = below(s, i, 1);
        let c = below(s, i, 2);
        let d = below(s, i, 3);
        lemma_unmixed_byte(a, b, c, d);
        let q = i / 4;
        let r = i % 4;
        assert(i == 4 * q + r);
        assert(0 <= q < 4 && 0 <= r < 4);
        assert(below(m, i, 0) == mixed_byte(a, b, c, d));
        assert(below(m, i, 1) == mixed_byte(b, c, d, a));
        assert(below(m, i, 2) == mixed_byte(c, d, a, b));
        assert(below(m, i, 3) == mixed_byte(d, a, b, c));
    }
    assert(unmixed(m) =~= s);
}

proof fn lemma_unshifted(s: Seq<u8>)
    requires
        s.len() == 16,
    ensures
        unshifted(shifted(s)) == s,
{
    let t = shifted(s);
    assert forall|i: int| 0 <= i < 16 implies unshifted(t)[i] == s[i] by {
        let c = i / 4;
        let r = i % 4;
        let j = cell(c + 4 - r, r);
        assert(0 <= j < 16);
        assert(j % 4 == r);
        assert(cell(j / 4 + j % 4, j % 4) == i);
        sbox::lemma_inverse(s[i]);
    }
    assert(unshifted(t) =~= s);
}

proof fn lemma_keyed_twice(s: Seq<u8>, keys: Seq<u8>, n: int)
    requires
        s.len() == 16,
    ensures
        keyed(keyed(s, keys, n), keys, n) == s,
{
    let t = keyed(s, keys, n);
    assert forall|i: int| 0 <= i < 16 implies keyed(t, keys, n)[i] == s[i] by {
        lemma_xor_back(s[i], keys[16 * n + i]);
    }
    assert(keyed(t, keys, n) =~= s);
}

proof fn lemma_rounds_undone(keys: Seq<u8>, block: Seq<u8>, n: nat)
    requires
        block.len() == 16,
    ensures
        rounds_undone(keys, rounds_done(keys, block, n), n) == block,
        rounds_done(keys, block, n).len() == 16,
    decreases n,
{
    if n == 0 {
        lemma_keyed_twice(block, keys, 0);
    } else {
        lemma_rounds_undone(keys, block, (n - 1) as nat);
        let s = rounds_done(keys, block, (n - 1) as nat);
        lemma_keyed_twice(mixed(shifted(s)), keys, n as int);
        lemma_unmixed(shifted(s));
        lemma_unshifted(s);
    }
}

/// Decryption undoes encryption.
pub proof fn lemma_decrypted(keys: Seq<u8>, rounds: nat, block: Seq<u8>)
    requires
        block.len() == 16,
        rounds > 0,
    ensures
        decrypted(keys, rounds, encrypted(keys, rounds, block)) == block,
        encrypted(keys, rounds, block).len() == 16,
{
    let n = (rounds - 1) as nat;
    lemma_rounds_undone(keys, block, n);
    let s = rounds_done(keys, block, n);
    lemma_keyed_twice(shifted(s), keys, rounds as int);
    lemma_unshifted(s);
}

/// The word that is combined with word `i - nk` to make word `i`, `t` being
/// the word before it.
pub open spec fn turned(nk: int, t: Seq<u8>, i: int) -> Seq<u8> {
    if i % nk == 0 {
        seq![
            SBOX@[t[1] as int] ^ RCON@[i / nk],
            SBOX@[t[2] as int],
            SBOX@[t[3] as int],
            SBOX@[t[0] as int],
        ]
    } else if nk > 6 && i % nk == 4 {
        seq![
            SBOX@[t[0] as int],
            SBOX@[t[1] as int],
            SBOX@[t[2] as int],
            SBOX@[t[3] as int],
        ]
    } else {
        t
    }
}

/// The first `n` words of the expanded key.
pub open spec fn expanded(key: Seq<u8>, n: nat) -> Seq<u8>
    decreases n,
{
    let nk = (key.len() / 4) as int;
    if n <= nk {
        key.take(4 * n as int)
    } else {
        let i = n - 1;
        let e = expanded(key, (n - 1) as nat);
        let t = turned(nk, e.subrange(4 * (i - 1), 4 * i), i);
        e + Seq::new(4, |j: int| e[4 * (i - nk) + j] ^ t[j])
    }
}

/// How many rounds a key of so many bytes takes.
pub open spec fn rounds_of(key_len: nat) -> nat {
    key_len / 4 + 6
}

/// Whether a key has a length that AES has.
pub open spec fn is_key_len(n: nat) -> bool {
    n == 16 || n == 24 || n == 32
}

/// The round keys of a key.
pub open spec fn round_keys_of(key: Seq<u8>) -> Seq<u8> {
    expanded(key, 4 * (rounds_of(key.len()) + 1))
}

/// What a key makes of a block.
pub open spec fn enciphered(key: Seq<u8>, block: Seq<u8>) -> Seq<u8> {
    encrypted(round_keys_of(key), rounds_of(key.len()), block)
}

/// What a key made a block of.
pub open spec fn deciphered(key: Seq<u8>, block: Seq<u8>) -> Seq<u8> {
    decrypted(round_keys_of(key), rounds_of(key.len()), block)
}

/// The length of a key.
#[derive(Debug, Clone, Copy, PartialEq, Eq, Structural)]
pub enum KeySize {
    Aes128,
    Aes192,
    Aes256,
}

impl KeySize {
    /// How many bytes the key has.
    pub open spec fn len(self) -> nat {
        match self {
            KeySize::Aes128 => 16,
            KeySize::Aes192 => 24,
            KeySize::Aes256 => 32,
        }
    }

    /// How many bytes the key has.
    pub fn key_len(self) -> (r: usize)
        ensures
            r == self.len(),
    {
        match self {
            KeySize::Aes128 => 16,
            KeySize::Aes192 => 24,
            KeySize::Aes256 => 32,
        }
    }

    /// How many rounds a block takes.
    pub fn rounds(self) -> (r: usize)
        ensures
            r == rounds_of(self.len()),
    {
        match self {
            KeySize::Aes128 => 10,
            KeySize::Aes192 => 12,
            KeySize::Aes256 => 14,
        }
    }

    /// The size of a key of `len` bytes.
    pub fn from_key_len(len: usize) -> (r: Option<Self>)
        ensures
            r is Some <==> is_key_len(len as nat),
            r matches Some(s) ==> s.len() == len,
    {
        match len {
            16 => Some(KeySize::Aes128),
            24 => Some(KeySize::Aes192),
            32 => Some(KeySize::Aes256),
            _ => None,
        }
    }
}

/// The cipher under one key.
pub struct Aes {
    round_keys: [u8; 240],
    rounds: usize,
    key: Ghost<Seq<u8>>,
}

proof fn lemma_expanded_len(key: Seq<u8>, n: nat)
    requires
        is_key_len(key.len()),
    ensures
        expanded(key, n).len() == 4 * n,
    decreases n,
{
    if n > key.len() / 4 {
        lemma_expanded_len(key, (n - 1) as nat);
    }
}

/// What a longer expansion starts with.
proof fn lemma_expanded_prefix(key: Seq<u8>, m: nat, n: nat)
    requires
        is_key_len(key.len()),
        m <= n,
    ensures
        expanded(key, n).take(4 * m as int) == expanded(key, m),
    decreases n,
{
    lemma_expanded_len(key, n);
    lemma_expanded_len(key, m);
    if m == n {
        assert(expanded(key, n).take(4 * m as int) =~= expanded(key, m));
    } else if n <= key.len() / 4 {
        assert(key.take(4 * n as int).take(4 * m as int) =~= key.take(4 * m as int));
    } else {
        lemma_expanded_prefix(key, m, (n - 1) as nat);
        lemma_expanded_len(key, (n - 1) as nat);
        let e = expanded(key, (n - 1) as nat);
        assert(expanded(key, n).take(4 * m as int) =~= e.take(4 * m as int));
    }
}

fn double(b: u8) -> (r: u8)
    ensures
        r == doubled(b),
{
    if b & 0x80 == 0x80 {
        (b << 1) ^ 0x1b
    } else {
        b << 1
    }
}

fn mix_byte(a: u8, b: u8, c: u8, d: u8) -> (r: u8)
    ensures
        r == mixed_byte(a, b, c, d),
{
    double(a) ^ double(b) ^ b ^ c ^ d
}

fn unmix_byte(a: u8, b: u8, c: u8, d: u8) -> (r: u8)
    ensures
        r == unmixed_byte(a, b, c, d),
{
    let a2: u8 = double(a);
    let a4: u8 = double(a2);
    let b2: u8 = double(b);
    let c4: u8 = double(double(c));
    double(a4) ^ a4 ^ a2 ^ double(double(b2)) ^ b2 ^ b ^ double(c4) ^ c4 ^ c ^ double(
        double(double(d)),
    ) ^ d
}

fn shift(s: &[u8; 16]) -> (r: [u8; 16])
    ensures
        r@ == shifted(s@),
{
    let mut r: [u8; 16] = [0u8; 16];
    let mut i: usize = 0;
    while i < 16
        invariant
            i <= 16,
            r@.len() == 16,
            s@.len() == 16,
            forall|j: int| 0 <= j < i ==> #[trigger] r@[j] == shifted(s@)[j],
        decreases 16 - i,
    {
        let from: usize = 4 * ((i / 4 + i % 4) % 4) + i % 4;
        r[i] = SBOX[s[from] as usize];
        i = i + 1;
    }
    assert(r@ =~= shifted(s@));
    r
}

fn unshift(s: &[u8; 16]) -> (r: [u8; 16])
    ensures
        r@ == unshifted(s@),
{
    let mut r: [u8; 16] = [0u8; 16];
    let mut i: usize = 0;
    while i < 16
        invariant
            i <= 16,
            r@.len() == 16,
            s@.len() == 16,
            forall|j: int| 0 <= j < i ==> #[trigger] r@[j] == unshifted(s@)[j],
        decreases 16 - i,
    {
        let from: usize = 4 * ((i / 4 + 4 - i % 4) % 4) + i % 4;
        r[i] = INV_SBOX[s[from] as usize];
        i = i + 1;
    }
    assert(r@ =~= unshifted(s@));
    r
}

fn mix(s: &[u8; 16]) -> (r: [u8; 16])
    ensures
        r@ == mixed(s@),
{
    let mut r: [u8; 16] = [0u8; 16];
    let mut i: usize = 0;
    while i < 16
        invariant
            i <= 16,
            r@.len() == 16,
            s@.len() == 16,
            forall|j: int| 0 <= j < i ==> #[trigger] r@[j] == mixed(s@)[j],
        decreases 16 - i,
    {
        let q: usize = 4 * (i / 4);
        let n: usize = i % 4;
        r[i] = mix_byte(
            s[q + n],
            s[q + (n + 1) % 4],
            s[q + (n + 2) % 4],
            s[q + (n + 3) % 4],
        );
        i = i + 1;
    }
    assert(r@ =~= mixed(s@));
    r
}

fn unmix(s: &[u8; 16]) -> (r: [u8; 16])
    ensures
        r@ == unmixed(s@),
{
    let mut r: [u8; 16] = [0u8; 16];
    let mut i: usize = 0;
    while i < 16
        invariant
            i <= 16,
            r@.len() == 16,
            s@.len() == 16,
            forall|j: int| 0 <= j < i ==> #[trigger] r@[j] == unmixed(s@)[j],
        decreases 16 - i,
    {
        let q: usize = 4 * (i / 4);
        let n: usize = i % 4;
        r[i] = unmix_byte(
            s[q + n],
            s[q + (n + 1) % 4],
            s[q + (n + 2) % 4],
            s[q + (n + 3) % 4],
        );
        i = i + 1;
    }
    assert(r@ =~= unmixed(s@));
    r
}

fn turn_word(nk: usize, i: usize, t0: u8, t1: u8, t2: u8, t3: u8) -> (r: (u8, u8, u8, u8))
    requires
        nk == 4 && i < 44 || nk == 6 && i < 52 || nk == 8 && i < 60,
    ensures
        turned(nk as int, seq![t0, t1, t2, t3], i as int) == seq![r.0, r.1, r.2, r.3],
{
    assert(i / nk <= 10) by {
        if nk == 4 {
            assert(i / 4 <= 10);
        } else if nk == 6 {
            assert(i / 6 <= 10);
        } else {
            assert(i / 8 <= 10);
        }
    }
    if i % nk == 0 {
        (
            SBOX[t1 as usize] ^ RCON[i / nk],
            SBOX[t2 as usize],
            SBOX[t3 as usize],
            SBOX[t0 as usize],
        )
    } else if nk > 6 && i % nk == 4 {
        (SBOX[t0 as usize], SBOX[t1 as usize], SBOX[t2 as usize], SBOX[t3 as usize])
    } else {
        (t0, t1, t2, t3)
    }
}

impl Aes {
    /// The key.
    pub closed spec fn key(&self) -> Seq<u8> {
        self.key@
    }

    /// The round keys, filled up with zeros.
    pub closed spec fn round_keys(&self) -> Seq<u8> {
        self.round_keys@
    }

    /// How many rounds there are.
    pub open spec fn round_count(&self) -> nat {
        rounds_of(self.key().len())
    }

    /// The round keys are those of the key.
    pub closed spec fn wf(&self) -> bool {
        &&& is_key_len(self.key@.len())
        &&& self.rounds == rounds_of(self.key@.len())
        &&& self.round_keys@.take(16 * (self.rounds + 1)) == round_keys_of(self.key@)
    }

    /// What a cipher makes of a block.
    pub open spec fn enciphers(&self, block: Seq<u8>) -> Seq<u8> {
        enciphered(self.key(), block)
    }

    /// What a block is the cipher text of.
    pub open spec fn deciphers(&self, block: Seq<u8>) -> Seq<u8> {
        deciphered(self.key(), block)
    }

    /// The cipher for a key of 16, 24 or 32 bytes.
    #[verifier::rlimit(30)]
    #[verifier::spinoff_prover]
    pub fn new(key: &[u8]) -> (r: Option<Self>)
        ensures
            r is Some <==> is_key_len(key@.len()),
            r matches Some(a) ==> a.wf() && a.key() == key@,
    {
        let size: KeySize = match KeySize::from_key_len(key.len()) {
            None => {
                return None;
            },
            Some(s) => s,
        };
        let rounds: usize = size.rounds();
        let nk: usize = key.len() / 4;
        let words: usize = 4 * (rounds + 1);
        let mut round_keys: [u8; 240] = [0u8; 240];
        let mut k: usize = 0;
        while k < key.len()
            invariant
                k <= key.len() <= 32,
                round_keys@.len() == 240,
                forall|j: int| 0 <= j < k ==> #[trigger] round_keys@[j] == key@[j],
            decreases key.len() - k,
        {
            round_keys[k] = key[k];
            k = k + 1;
        }
        let mut i: usize = nk;
        proof {
            assert(round_keys@.take(4 * nk as int) =~= expanded(key@, nk as nat));
        }
        while i < words
            invariant
                is_key_len(key@.len()),
                nk == key@.len() / 4,
                words == 4 * (rounds_of(key@.len()) + 1),
                nk <= i <= words,
                round_keys@.len() == 240,
                round_keys@.take(4 * i as int) == expanded(key@, i as nat),
            decreases words - i,
        {
            let ghost e = expanded(key@, i as nat);
            proof {
                lemma_expanded_len(key@, i as nat);
                assert forall|j: int| 0 <= j < 4 * i implies round_keys@[j] == e[j] by {
                    assert(round_keys@.take(4 * i as int)[j] == e[j]);
                }
            }
            let t0: u8 = round_keys[4 * i - 4];
            let t1: u8 = round_keys[4 * i - 3];
            let t2: u8 = round_keys[4 * i - 2];
            let t3: u8 = round_keys[4 * i - 1];
            let (x0, x1, x2, x3) = turn_word(nk, i, t0, t1, t2, t3);
            let ghost t = turned(nk as int, e.subrange(4 * (i - 1), 4 * i), i as int);
            proof {
                assert(e.subrange(4 * (i - 1), 4 * i as int) =~= seq![t0, t1, t2, t3]);
                assert(t == seq![x0, x1, x2, x3]);
            }
            let ghost before = round_keys@;
            let from: usize = 4 * (i - nk);
            round_keys[4 * i] = round_keys[from] ^ x0;
            round_keys[4 * i + 1] = round_keys[from + 1] ^ x1;
            round_keys[4 * i + 2] = round_keys[from + 2] ^ x2;
            round_keys[4 * i + 3] = round_keys[from + 3] ^ x3;
            proof {
                let word = Seq::new(4, |j: int| e[4 * (i - nk) + j] ^ t[j]);
                assert(word =~= seq![
                    e[from as int] ^ x0,
                    e[from + 1] ^ x1,
                    e[from + 2] ^ x2,
                    e[from + 3] ^ x3,
                ]);
                assert(round_keys@.take(4 * (i + 1)) =~= before.take(4 * i as int) + word);
                assert(expanded(key@, (i + 1) as nat) == e + word);
            }
            i = i + 1;
        }
        let ghost kept = key@;
        Some(Aes { round_keys, rounds, key: Ghost(kept) })
    }

    /// How many rounds a block takes.
    pub fn rounds(&self) -> (r: usize)
        requires
            self.wf(),
        ensures
            r == self.round_count(),
    {
        self.rounds
    }

    /// The round keys, filled up with zeros.
    pub fn round_key_bytes(&self) -> (r: &[u8; 240])
        requires
            self.wf(),
        ensures
            r@ == self.round_keys(),
            r@.take(16 * (self.round_count() + 1) as int) == round_keys_of(self.key()),
    {
        &self.round_keys
    }

    fn combine(&self, s: &[u8; 16], n: usize) -> (r: [u8; 16])
        requires
            self.wf(),
            n <= self.rounds,
        ensures
            r@ == keyed(s@, round_keys_of(self.key@), n as int),
    {
        let ghost w = round_keys_of(self.key@);
        let mut r: [u8; 16] = [0u8; 16];
        let mut i: usize = 0;
        while i < 16
            invariant
                i <= 16,
                self.wf(),
                n <= self.rounds,
                w == round_keys_of(self.key@),
                r@.len() == 16,
                s@.len() == 16,
                forall|j: int| 0 <= j < i ==> #[trigger] r@[j] == s@[j] ^ w[16 * n + j],
            decreases 16 - i,
        {
            assert(self.round_keys@.take(16 * (self.rounds + 1))[16 * n + i] == w[16 * n + i]);
            r[i] = s[i] ^ self.round_keys[16 * n + i];
            i = i + 1;
        }
        assert(r@ =~= keyed(s@, w, n as int));
        r
    }

    /// Encrypt a block in place.
    pub fn encrypt_block(&self, block: &mut [u8; 16])
        requires
            self.wf(),
        ensures
            final(block)@ == self.enciphers(old(block)@),
    {
        let ghost w = round_keys_of(self.key@);
        let ghost plain = block@;
        let mut s: [u8; 16] = self.combine(block, 0);
        let mut round: usize = 1;
        while round < self.rounds
            invariant
                self.wf(),
                w == round_keys_of(self.key@),
                1 <= round <= self.rounds,
                s@ == rounds_done(w, plain, (round - 1) as nat),
            decreases self.rounds - round,
        {
            s = self.combine(&mix(&shift(&s)), round);
            round = round + 1;
        }
        *block = self.combine(&shift(&s), self.rounds);
    }

    /// Decrypt a block in place.
    pub fn decrypt_block(&self, block: &mut [u8; 16])
        requires
            self.wf(),
        ensures
            final(block)@ == self.deciphers(old(block)@),
    {
        let ghost w = round_keys_of(self.key@);
        let ghost stored = block@;
        let mut s: [u8; 16] = unshift(&self.combine(block, self.rounds));
        let mut round: usize = self.rounds - 1;
        while round > 0
            invariant
                self.wf(),
                w == round_keys_of(self.key@),
                round < self.rounds,
                decrypted(w, self.rounds as nat, stored) == rounds_undone(w, s@, round as nat),
            decreases round,
        {
            s = unshift(&unmix(&self.combine(&s, round)));
            round = round - 1;
        }
        *block = self.combine(&s, 0);
    }
}

/// A counter as a block.
pub open spec fn counter_block(n: nat) -> Seq<u8> {
    bytes::le_bytes(n % 0x1_0000_0000_0000_0000_0000_0000_0000_0000nat, 16)
}

/// Byte `k` of the key stream.
pub open spec fn pad_byte(key: Seq<u8>, k: nat) -> u8 {
    encrypted(
        round_keys_of(key),
        rounds_of(key.len()),
        counter_block(1 + k / 16),
    )[(k % 16) as int]
}

/// `data` combined with the key stream from byte `at` on.
pub open spec fn padded(key: Seq<u8>, at: nat, data: Seq<u8>) -> Seq<u8> {
    Seq::new(data.len(), |i: int| data[i] ^ pad_byte(key, (at + i) as nat))
}

/// Applying the key stream twice changes nothing.
pub proof fn lemma_padded_twice(key: Seq<u8>, at: nat, data: Seq<u8>)
    ensures
        padded(key, at, padded(key, at, data)) == data,
{
    let once = padded(key, at, data);
    assert forall|i: int| 0 <= i < data.len() implies padded(key, at, once)[i] == data[i] by {
        lemma_xor_back(data[i], pad_byte(key, (at + i) as nat));
    }
    assert(padded(key, at, once) =~= data);
}

/// The key stream applied in two pieces.
pub proof fn lemma_padded_concat(key: Seq<u8>, at: nat, a: Seq<u8>, b: Seq<u8>)
    ensures
        padded(key, at, a + b) == padded(key, at, a) + padded(key, at + a.len(), b),
{
    assert(padded(key, at, a + b) =~= padded(key, at, a) + padded(key, at + a.len(), b));
}

/// AES that counts: what it makes is combined with the data.
pub struct AesCtr {
    cipher: Aes,
    counter: u128,
    keystream: [u8; 16],
    used: usize,
    at: Ghost<nat>,
}

impl AesCtr {
    /// The key.
    pub closed spec fn key(&self) -> Seq<u8> {
        self.cipher.key()
    }

    /// How much of the key stream was used.
    pub closed spec fn at(&self) -> nat {
        self.at@
    }

    /// What is held is the block of the key stream that comes next.
    pub closed spec fn wf(&self) -> bool {
        let n = self.at@;
        &&& self.cipher.wf()
        &&& self.used <= 16
        &&& self.used < 16 ==> {
            &&& n % 16 == self.used
            &&& self.keystream@ == self.cipher.enciphers(counter_block(1 + n / 16))
            &&& self.counter == (2 + n / 16) % 0x1_0000_0000_0000_0000_0000_0000_0000_0000nat
        }
        &&& self.used == 16 ==> {
            &&& n % 16 == 0
            &&& self.counter == (1 + n / 16) % 0x1_0000_0000_0000_0000_0000_0000_0000_0000nat
        }
    }

    /// Start counting at one.
    pub fn new(key: &[u8]) -> (r: Option<Self>)
        ensures
            r is Some <==> is_key_len(key@.len()),
            r matches Some(c) ==> c.wf() && c.key() == key@ && c.at() == 0,
    {
        match Aes::new(key) {
            None => None,
            Some(cipher) => Some(
                AesCtr { cipher, counter: 1, keystream: [0u8; 16], used: 16, at: Ghost(0) },
            ),
        }
    }

    /// Whether a processor's own AES does the work, which it never does.
    pub fn is_hardware_accelerated(&self) -> (r: bool)
        ensures
            !r,
    {
        false
    }

    fn fill_one(&mut self)
        requires
            old(self).wf(),
            old(self).used == 16,
        ensures
            final(self).wf(),
            final(self).used == 0,
            final(self).key() == old(self).key(),
            final(self).at() == old(self).at(),
    {
        let mut block: [u8; 16] = [0u8; 16];
        let mut rest: u128 = self.counter;
        let mut i: usize = 0;
        let ghost c = self.counter as nat;
        while i < 16
            invariant
                i <= 16,
                block@.len() == 16,
                bytes::le_bytes(c, 16) == block@.take(i as int) + bytes::le_bytes(
                    rest as nat,
                    (16 - i) as nat,
                ),
            decreases 16 - i,
        {
            let ghost before = block@;
            block[i] = (rest % 256) as u8;
            assert(block@.take(i + 1) =~= before.take(i as int).push((rest % 256) as u8));
            assert(before.take(i as int) + (seq![(rest % 256) as u8] + bytes::le_bytes(
                (rest / 256) as nat,
                (15 - i) as nat,
            )) =~= block@.take(i + 1) + bytes::le_bytes((rest / 256) as nat, (15 - i) as nat));
            rest = rest / 256;
            i = i + 1;
        }
        assert(block@ =~= bytes::le_bytes(c, 16)) by {
            assert(block@.take(16) =~= block@);
            assert(block@ + Seq::<u8>::empty() =~= block@);
        }
        proof {
            let m = 0x1_0000_0000_0000_0000_0000_0000_0000_0000int;
            let n = self.at@ as int;
            lemma_add_mod_noop(1 + n / 16, 1, m);
        }
        self.counter = self.counter.wrapping_add(1);
        self.cipher.encrypt_block(&mut block);
        self.keystream = block;
        self.used = 0;
    }

    /// Combine `data` with the key stream in place.
    pub fn apply(&mut self, data: &mut [u8])
        requires
            old(self).wf(),
        ensures
            final(self).wf(),
            final(self).key() == old(self).key(),
            final(self).at() == old(self).at() + old(data)@.len(),
            final(data)@ == padded(old(self).key(), old(self).at(), old(data)@),
            final(data)@.len() == old(data)@.len(),
    {
        let ghost before = data@;
        let ghost k = self.key();
        let ghost start = self.at();
        let mut i: usize = 0;
        while i < data.len()
            invariant
                self.wf(),
                self.key() == k,
                k == old(self).key(),
                start == old(self).at(),
                before == old(data)@,
                i <= data@.len() == before.len(),
                self.at() == start + i,
                forall|j: int| 0 <= j < i ==> #[trigger] data@[j] == padded(k, start, before)[j],
                forall|j: int| i <= j < before.len() ==> #[trigger] data@[j] == before[j],
            decreases data@.len() - i,
        {
            if self.used == BLOCK_SIZE {
                self.fill_one();
            }
            let ghost n = self.at@;
            data[i] = data[i] ^ self.keystream[self.used];
            self.used = self.used + 1;
            let ghost next = n + 1;
            self.at = Ghost(next);
            i = i + 1;
        }
        assert(data@ =~= padded(k, start, before));
    }
}

/// Blocks chained: each is combined with the one stored before it.
pub open spec fn cbc_stored(key: Seq<u8>, iv: Seq<u8>, plain: Seq<u8>) -> Seq<u8>
    decreases plain.len(),
{
    if plain.len() < 16 {
        Seq::empty()
    } else {
        let block = enciphered(key, crossed(plain.take(16), iv));
        block + cbc_stored(key, block, plain.skip(16))
    }
}

/// What chained blocks are the cipher text of.
pub open spec fn cbc_plain(key: Seq<u8>, iv: Seq<u8>, stored: Seq<u8>) -> Seq<u8>
    decreases stored.len(),
{
    if stored.len() < 16 {
        Seq::empty()
    } else {
        let block = stored.take(16);
        crossed(deciphered(key, block), iv) + cbc_plain(key, block, stored.skip(16))
    }
}

/// Two blocks combined.
pub open spec fn crossed(a: Seq<u8>, b: Seq<u8>) -> Seq<u8> {
    Seq::new(16, |i: int| a[i] ^ b[i])
}

/// The last block of whole blocks, or what stood before them.
pub open spec fn last_block(iv: Seq<u8>, stored: Seq<u8>) -> Seq<u8> {
    if stored.len() < 16 {
        iv
    } else {
        stored.skip(stored.len() - 16)
    }
}

/// Chained decryption undoes chained encryption of whole blocks.
pub proof fn lemma_cbc_round_trip(key: Seq<u8>, iv: Seq<u8>, plain: Seq<u8>)
    requires
        iv.len() == 16,
        plain.len() % 16 == 0,
    ensures
        cbc_plain(key, iv, cbc_stored(key, iv, plain)) == plain,
        cbc_stored(key, iv, plain).len() == plain.len(),
    decreases plain.len(),
{
    if plain.len() < 16 {
        assert(plain =~= Seq::<u8>::empty());
    } else {
        let first = plain.take(16);
        let x = crossed(first, iv);
        lemma_decrypted(round_keys_of(key), rounds_of(key.len()), x);
        let block = enciphered(key, x);
        let rest = cbc_stored(key, block, plain.skip(16));
        lemma_cbc_round_trip(key, block, plain.skip(16));
        let stored = block + rest;
        assert(stored.take(16) =~= block);
        assert(stored.skip(16) =~= rest);
        assert(crossed(x, iv) =~= first) by {
            assert forall|i: int| 0 <= i < 16 implies crossed(x, iv)[i] == first[i] by {
                lemma_xor_back(first[i], iv[i]);
            }
        }
        assert(first + plain.skip(16) =~= plain);
    }
}

/// Chained decryption in two pieces.
pub proof fn lemma_cbc_concat(key: Seq<u8>, iv: Seq<u8>, a: Seq<u8>, b: Seq<u8>)
    requires
        a.len() % 16 == 0,
    ensures
        cbc_plain(key, iv, a + b) == cbc_plain(key, iv, a) + cbc_plain(key, last_block(iv, a), b),
        last_block(iv, a + b) == if b.len() >= 16 || b.len() == 0 {
            last_block(last_block(iv, a), b)
        } else {
            last_block(iv, a + b)
        },
    decreases a.len(),
{
    if a.len() < 16 {
        assert(a + b =~= b);
        assert(Seq::<u8>::empty() + cbc_plain(key, iv, b) =~= cbc_plain(key, iv, b));
    } else {
        let first = a.take(16);
        let rest = a.skip(16);
        lemma_cbc_concat(key, first, rest, b);
        assert((a + b).take(16) =~= first);
        assert((a + b).skip(16) =~= rest + b);
        assert(last_block(first, rest) =~= last_block(iv, a)) by {
            if rest.len() < 16 {
                assert(a.skip(a.len() - 16) =~= first);
            } else {
                assert(rest.skip(rest.len() - 16) =~= a.skip(a.len() - 16));
            }
        }
        let p = crossed(deciphered(key, first), iv);
        let q = cbc_plain(key, first, rest);
        let r = cbc_plain(key, last_block(iv, a), b);
        assert(p + (q + r) =~= p + q + r);
        if b.len() >= 16 {
            assert((a + b).skip((a + b).len() - 16) =~= b.skip(b.len() - 16));
        } else if b.len() == 0 {
            assert(a + b =~= a);
        }
    }
}

pub proof fn lemma_cbc_len(key: Seq<u8>, iv: Seq<u8>, stored: Seq<u8>)
    requires
        stored.len() % 16 == 0,
    ensures
        cbc_plain(key, iv, stored).len() == stored.len(),
    decreases stored.len(),
{
    if stored.len() >= 16 {
        lemma_cbc_len(key, stored.take(16), stored.skip(16));
    }
}

/// Decrypts chained blocks.
pub struct CbcDecrypt {
    cipher: Aes,
    chain: [u8; 16],
}

impl CbcDecrypt {
    /// The key.
    pub closed spec fn key(&self) -> Seq<u8> {
        self.cipher.key()
    }

    /// The block that the next one is combined with.
    pub closed spec fn chain(&self) -> Seq<u8> {
        self.chain@
    }

    pub closed spec fn wf(&self) -> bool {
        self.cipher.wf()
    }

    /// Start a chain with `iv`.
    pub fn new(key: &[u8], iv: [u8; 16]) -> (r: Option<Self>)
        ensures
            r is Some <==> is_key_len(key@.len()),
            r matches Some(c) ==> c.wf() && c.key() == key@ && c.chain() == iv@,
    {
        match Aes::new(key) {
            None => None,
            Some(cipher) => Some(CbcDecrypt { cipher, chain: iv }),
        }
    }

    /// Whether a processor's own AES does the work, which it never does.
    pub fn is_hardware_accelerated(&self) -> (r: bool)
        ensures
            !r,
    {
        false
    }

    /// Decrypt the block at `at`.
    fn one_block(&mut self, data: &mut Vec<u8>, at: usize)
        requires
            old(self).wf(),
            at + 16 <= old(data)@.len(),
        ensures
            final(self).wf(),
            final(self).key() == old(self).key(),
            final(self).chain@ == old(data)@.subrange(at as int, at + 16),
            final(data)@ == old(data)@.take(at as int) + crossed(
                deciphered(old(self).key(), old(data)@.subrange(at as int, at + 16)),
                old(self).chain@,
            ) + old(data)@.skip(at + 16),
    {
        let ghost before = data@;
        let ghost chain = self.chain@;
        let mut block: [u8; 16] = [0u8; 16];
        let mut i: usize = 0;
        while i < 16
            invariant
                i <= 16,
                at + 16 <= data.len(),
                data@ == before,
                block@.len() == 16,
                forall|j: int| 0 <= j < i ==> #[trigger] block@[j] == before[at + j],
            decreases 16 - i,
        {
            block[i] = data[at + i];
            i = i + 1;
        }
        let kept: [u8; 16] = block;
        assert(kept@ =~= before.subrange(at as int, at + 16));
        self.cipher.decrypt_block(&mut block);
        let mut k: usize = 0;
        while k < 16
            invariant
                k <= 16,
                at + 16 <= data.len(),
                data@.len() == before.len(),
                chain == self.chain@,
                block@.len() == 16,
                forall|j: int|
                    at <= j < at + k ==> #[trigger] data@[j] == block@[j - at] ^ chain[j - at],
                forall|j: int|
                    0 <= j < at || at + k <= j < data@.len() ==> #[trigger] data@[j] == before[j],
            decreases 16 - k,
        {
            data.set(at + k, block[k] ^ self.chain[k]);
            k = k + 1;
        }
        self.chain = kept;
        assert(data@ =~= before.take(at as int) + crossed(block@, chain) + before.skip(at + 16));
    }

    /// Decrypt whole blocks.
    #[verifier::spinoff_prover]
    #[verifier::rlimit(60)]
    pub fn apply(&mut self, data: &mut Vec<u8>)
        requires
            old(self).wf(),
            old(data)@.len() % 16 == 0,
        ensures
            final(self).wf(),
            final(self).key() == old(self).key(),
            final(data)@ == cbc_plain(old(self).key(), old(self).chain(), old(data)@),
            final(data)@.len() == old(data)@.len(),
            final(self).chain() == last_block(old(self).chain(), old(data)@),
    {
        let ghost stored = data@;
        let ghost key = self.key();
        let ghost iv = self.chain@;
        let mut at: usize = 0;
        proof {
            lemma_cbc_len(key, iv, stored);
            assert(stored.take(0) =~= Seq::<u8>::empty());
            assert(data@.take(0) =~= Seq::<u8>::empty());
        }
        while at < data.len()
            invariant
                self.wf(),
                self.key() == key,
                key == old(self).key(),
                iv == old(self).chain(),
                stored == old(data)@,
                stored.len() % 16 == 0,
                at % 16 == 0,
                at <= data@.len() == stored.len(),
                self.chain@ == last_block(iv, stored.take(at as int)),
                data@.take(at as int) == cbc_plain(key, iv, stored.take(at as int)),
                forall|j: int| at <= j < stored.len() ==> #[trigger] data@[j] == stored[j],
            decreases data@.len() - at,
        {
            let ghost before = data@;
            let ghost chain = self.chain@;
            let ghost here = stored.subrange(at as int, at + 16);
            assert(before.subrange(at as int, at + 16) =~= here);
            self.one_block(data, at);
            proof {
                let a = stored.take(at as int);
                lemma_cbc_concat(key, iv, a, here);
                assert(stored.take(at + 16) =~= a + here);
                let e = Seq::<u8>::empty();
                assert(here.take(16) =~= here);
                assert(here.skip(16) =~= e);
                let piece = crossed(deciphered(key, here), chain);
                assert(piece + e =~= piece);
                assert(cbc_plain(key, here, e) == e);
                assert(data@.take(at + 16) =~= before.take(at as int) + piece);
                assert(here.skip(0) =~= here);
            }
            at = at + 16;
        }
        assert(stored.take(at as int) =~= stored);
        assert(data@.take(at as int) =~= data@);
    }
}

} // verus!
