//! SHA-256.
use vstd::prelude::*;

verus! {

/// The length of a digest in bytes.
pub const DIGEST_LEN: usize = 32;

/// The length of a block in bytes.
pub const BLOCK_LEN: usize = 64;

/// The constants of the rounds.
pub const ROUND_CONSTANTS: [u32; 64] = [
    0x428a_2f98, 0x7137_4491, 0xb5c0_fbcf, 0xe9b5_dba5,
    0x3956_c25b, 0x59f1_11f1, 0x923f_82a4, 0xab1c_5ed5,
    0xd807_aa98, 0x1283_5b01, 0x2431_85be, 0x550c_7dc3,
    0x72be_5d74, 0x80de_b1fe, 0x9bdc_06a7, 0xc19b_f174,
    0xe49b_69c1, 0xefbe_4786, 0x0fc1_9dc6, 0x240c_a1cc,
    0x2de9_2c6f, 0x4a74_84aa, 0x5cb0_a9dc, 0x76f9_88da,
    0x983e_5152, 0xa831_c66d, 0xb003_27c8, 0xbf59_7fc7,
    0xc6e0_0bf3, 0xd5a7_9147, 0x06ca_6351, 0x1429_2967,
    0x27b7_0a85, 0x2e1b_2138, 0x4d2c_6dfc, 0x5338_0d13,
    0x650a_7354, 0x766a_0abb, 0x81c2_c92e, 0x9272_2c85,
    0xa2bf_e8a1, 0xa81a_664b, 0xc24b_8b70, 0xc76c_51a3,
    0xd192_e819, 0xd699_0624, 0xf40e_3585, 0x106a_a070,
    0x19a4_c116, 0x1e37_6c08, 0x2748_774c, 0x34b0_bcb5,
    0x391c_0cb3, 0x4ed8_aa4a, 0x5b9c_ca4f, 0x682e_6ff3,
    0x748f_82ee, 0x78a5_636f, 0x84c8_7814, 0x8cc7_0208,
    0x90be_fffa, 0xa450_6ceb, 0xbef9_a3f7, 0xc671_78f2,
];

/// The bits of `x` turned right by `n`.
pub open spec fn rotr(x: u32, n: u32) -> u32 {
    (x >> n) | (x << ((32 - n) as u32))
}

/// The state before any block.
pub open spec fn start_state() -> Seq<u32> {
    seq![
        0x6a09_e667u32,
        0xbb67_ae85,
        0x3c6e_f372,
        0xa54f_f53a,
        0x510e_527f,
        0x9b05_688c,
        0x1f83_d9ab,
        0x5be0_cd19,
    ]
}

/// The words that the rounds take from a block.
pub open spec fn schedule(block: Seq<u8>, t: int) -> u32
    decreases t,
{
    if t < 16 {
        word(block, t)
    } else {
        let x = schedule(block, t - 15);
        let y = schedule(block, t - 2);
        let s0 = rotr(x, 7) ^ rotr(x, 18) ^ (x >> 3u32);
        let s1 = rotr(y, 17) ^ rotr(y, 19) ^ (y >> 10u32);
        schedule(block, t - 16).wrapping_add(s0).wrapping_add(
            schedule(block, t - 7),
        ).wrapping_add(s1)
    }
}

/// The first `t` rounds over a block.
pub open spec fn rounds(block: Seq<u8>, s: Seq<u32>, t: int) -> Seq<u32>
    decreases t,
{
    if t <= 0 {
        s
    } else {
        let r = rounds(block, s, t - 1);
        let s1 = rotr(r[4], 6) ^ rotr(r[4], 11) ^ rotr(r[4], 25);
        let ch = (r[4] & r[5]) ^ (!r[4] & r[6]);
        let t1 = r[7].wrapping_add(s1).wrapping_add(ch).wrapping_add(
            ROUND_CONSTANTS@[t - 1],
        ).wrapping_add(schedule(block, t - 1));
        let s0 = rotr(r[0], 2) ^ rotr(r[0], 13) ^ rotr(r[0], 22);
        let maj = (r[0] & r[1]) ^ (r[0] & r[2]) ^ (r[1] & r[2]);
        let t2 = s0.wrapping_add(maj);
        seq![
            t1.wrapping_add(t2),
            r[0],
            r[1],
            r[2],
            r[3].wrapping_add(t1),
            r[4],
            r[5],
            r[6],
        ]
    }
}

/// The state after one more block.
#[verifier::opaque]
pub open spec fn compressed(s: Seq<u32>, block: Seq<u8>) -> Seq<u32> {
    let r = rounds(block, s, 64);
    Seq::new(8, |i: int| s[i].wrapping_add(r[i]))
}

/// A number in four bytes, the most significant byte first.
pub open spec fn be32(x: u32) -> Seq<u8> {
    seq![
        (x / 0x100_0000) as u8,
        ((x / 0x1_0000) % 256) as u8,
        ((x / 256) % 256) as u8,
        (x % 256) as u8,
    ]
}

/// The number in four bytes, the most significant byte first.
pub open spec fn word(block: Seq<u8>, i: int) -> u32 {
    (0x100_0000 * block[4 * i] + 0x1_0000 * block[4 * i + 1] + 256 * block[4 * i + 2] + block[4 * i
        + 3]) as u32
}

/// The state after whole blocks.
pub open spec fn absorbed(message: Seq<u8>) -> Seq<u32>
    decreases message.len(),
{
    if message.len() < 64 {
        start_state()
    } else {
        let n = message.len() - 64;
        compressed(absorbed(message.take(n)), message.skip(n))
    }
}

/// How many zero bytes pad a message of `n` bytes.
pub open spec fn pad_zeros(n: nat) -> nat {
    ((119 - n % 64) % 64) as nat
}

/// A message of `n` bits as eight bytes, the most significant byte first.
pub open spec fn length_bytes(bits: int) -> Seq<u8> {
    be32((bits / 0x1_0000_0000) as u32) + be32((bits % 0x1_0000_0000) as u32)
}

/// A message with its padding and its length in bits.
pub open spec fn padded(message: Seq<u8>) -> Seq<u8> {
    message.push(0x80) + Seq::new(pad_zeros(message.len()), |i: int| 0u8) + length_bytes(
        (8 * message.len() as int) % 0x1_0000_0000_0000_0000,
    )
}

/// The words of a state as bytes.
pub open spec fn state_bytes(state: Seq<u32>) -> Seq<u8>
    decreases state.len(),
{
    if state.len() == 0 {
        Seq::empty()
    } else {
        state_bytes(state.drop_last()) + be32(state.last())
    }
}

/// The digest of a message.
pub open spec fn digest_of(message: Seq<u8>) -> Seq<u8> {
    state_bytes(absorbed(padded(message)))
}

proof fn lemma_state_bytes_len(state: Seq<u32>)
    ensures
        state_bytes(state).len() == 4 * state.len(),
    decreases state.len(),
{
    if state.len() > 0 {
        lemma_state_bytes_len(state.drop_last());
    }
}

/// Every digest is as long as every other.
pub proof fn lemma_digest_len(message: Seq<u8>)
    ensures
        digest_of(message).len() == DIGEST_LEN,
{
    reveal(compressed);
    lemma_state_bytes_len(absorbed(padded(message)));
}

fn be_word(block: &[u8; 64], i: usize) -> (r: u32)
    requires
        i < 16,
    ensures
        r == word(block@, i as int),
{
    0x100_0000 * (block[4 * i] as u32) + 0x1_0000 * (block[4 * i + 1] as u32) + 256 * (block[4 * i
        + 2] as u32) + block[4 * i + 3] as u32
}

fn rotate(x: u32, n: u32) -> (r: u32)
    requires
        0 < n < 32,
    ensures
        r == rotr(x, n),
{
    (x >> n) | (x << (32 - n))
}


/// A running digest.
#[derive(Clone, Copy)]
pub struct Sha256 {
    state: [u32; 8],
    buffer: [u8; 64],
    buffered: usize,
    length: u64,
    data: Ghost<Seq<u8>>,
}

impl Default for Sha256 {
    fn default() -> (r: Self)
        ensures
            r.wf(),
            r.taken() == Seq::<u8>::empty(),
    {
        Self::new()
    }
}

impl Sha256 {
    /// What was taken so far.
    pub closed spec fn taken(&self) -> Seq<u8> {
        self.data@
    }

    /// The whole blocks of what was taken are in the state, the rest is in
    /// the buffer.
    spec fn follows(&self, data: Seq<u8>) -> bool {
        let n = data.len() - data.len() % 64;
        &&& self.buffered == data.len() % 64
        &&& self.state@ == absorbed(data.take(n))
        &&& self.buffer@.take(self.buffered as int) == data.skip(n)
    }

    /// The state is that of what was taken.
    pub closed spec fn wf(&self) -> bool {
        &&& self.follows(self.data@)
        &&& self.length == self.data@.len() % 0x1_0000_0000_0000_0000
    }

    /// Nothing taken yet.
    pub fn new() -> (r: Self)
        ensures
            r.wf(),
            r.taken() == Seq::<u8>::empty(),
    {
        let r: Sha256 = Sha256 {
            state: [
                0x6a09_e667,
                0xbb67_ae85,
                0x3c6e_f372,
                0xa54f_f53a,
                0x510e_527f,
                0x9b05_688c,
                0x1f83_d9ab,
                0x5be0_cd19,
            ],
            buffer: [0u8; 64],
            buffered: 0,
            length: 0,
            data: Ghost(Seq::empty()),
        };
        assert(r.state@ =~= start_state());
        assert(r.buffer@.take(0) =~= Seq::<u8>::empty().skip(0));
        r
    }

    /// Take the bytes of `data`.
    pub fn update(&mut self, data: &[u8])
        requires
            old(self).wf(),
        ensures
            final(self).wf(),
            final(self).taken() == old(self).taken() + data@,
    {
        let ghost before = self.data@;
        self.length = self.length.wrapping_add(data.len() as u64);
        self.update_raw(data, Ghost(before));
        proof {
            let a = before.len() as int;
            let b = data@.len() as int;
            vstd::arithmetic::div_mod::lemma_add_mod_noop(a, b, 0x1_0000_0000_0000_0000);
            assert(b % 0x1_0000_0000_0000_0000 == b);
        }
        let ghost all = before + data@;
        self.data = Ghost(all);
    }

    /// The digest of what was taken.
    pub fn finish(self) -> (r: [u8; 32])
        requires
            self.wf(),
        ensures
            r@ == digest_of(self.taken()),
    {
        let mut this: Sha256 = self;
        let ghost message = self.data@;
        let bit_length: u64 = this.length.wrapping_mul(8);
        let tail: Vec<u8> = padding(this.buffered, bit_length);
        this.update_raw(tail.as_slice(), Ghost(message));
        proof {
            lemma_padded(message, self.length as int, bit_length as int, tail@);
        }
        bytes_of(&this.state)
    }

    fn update_raw(&mut self, data: &[u8], Ghost(before): Ghost<Seq<u8>>)
        requires
            old(self).follows(before),
        ensures
            final(self).follows(before + data@),
            final(self).length == old(self).length,
            final(self).data == old(self).data,
    {
        let mut i: usize = 0;
        assert(before + data@.take(0) =~= before);
        while i < data.len()
            invariant
                i <= data@.len(),
                self.follows(before + data@.take(i as int)),
                self.length == old(self).length,
                self.data == old(self).data,
            decreases data@.len() - i,
        {
            let ghost now = before + data@.take(i as int);
            let ghost next = now.push(data@[i as int]);
            let ghost n = now.len() - now.len() % 64;
            let ghost held = self.buffer@.take(self.buffered as int);
            assert(before + data@.take(i + 1) =~= next);
            self.buffer[self.buffered] = data[i];
            self.buffered = self.buffered + 1;
            assert(self.buffer@.take(self.buffered as int) =~= held.push(data@[i as int]));
            assert(next.skip(n) =~= now.skip(n).push(data@[i as int]));
            if self.buffered == BLOCK_LEN {
                let block: [u8; 64] = self.buffer;
                self.compress(&block);
                self.buffered = 0;
                proof {
                    assert(next.len() == n + 64);
                    assert(block@ =~= next.skip(n));
                    assert(next.take(n) =~= now.take(n));
                    assert(next.take(next.len() as int) =~= next);
                    assert(self.buffer@.take(0) =~= next.skip(next.len() as int));
                }
            } else {
                assert(next.take(n) =~= now.take(n));
            }
            i = i + 1;
        }
        assert(data@.take(i as int) =~= data@);
    }

    fn compress(&mut self, block: &[u8; 64])
        ensures
            final(self).state@ == compressed(old(self).state@, block@),
            final(self).buffer == old(self).buffer,
            final(self).buffered == old(self).buffered,
            final(self).length == old(self).length,
            final(self).data == old(self).data,
    {
        let mut w: [u32; 64] = [0u32; 64];
        let mut i: usize = 0;
        while i < 64
            invariant
                i <= 64,
                forall|k: int| 0 <= k < i ==> #[trigger] w@[k] == schedule(block@, k),
            decreases 64 - i,
        {
            w[i] = if i < 16 {
                be_word(block, i)
            } else {
                let x: u32 = w[i - 15];
                let y: u32 = w[i - 2];
                let s0: u32 = rotate(x, 7) ^ rotate(x, 18) ^ (x >> 3);
                let s1: u32 = rotate(y, 17) ^ rotate(y, 19) ^ (y >> 10);
                w[i - 16].wrapping_add(s0).wrapping_add(w[i - 7]).wrapping_add(s1)
            };
            i = i + 1;
        }
        let mut r: [u32; 8] = self.state;
        let mut t: usize = 0;
        while t < 64
            invariant
                t <= 64,
                forall|k: int| 0 <= k < 64 ==> #[trigger] w@[k] == schedule(block@, k),
                r@ == rounds(block@, self.state@, t as int),
                *self == *old(self),
            decreases 64 - t,
        {
            let s1: u32 = rotate(r[4], 6) ^ rotate(r[4], 11) ^ rotate(r[4], 25);
            let ch: u32 = (r[4] & r[5]) ^ (!r[4] & r[6]);
            let t1: u32 = r[7].wrapping_add(s1).wrapping_add(ch).wrapping_add(
                ROUND_CONSTANTS[t],
            ).wrapping_add(w[t]);
            let s0: u32 = rotate(r[0], 2) ^ rotate(r[0], 13) ^ rotate(r[0], 22);
            let maj: u32 = (r[0] & r[1]) ^ (r[0] & r[2]) ^ (r[1] & r[2]);
            let t2: u32 = s0.wrapping_add(maj);
            r = [
                t1.wrapping_add(t2),
                r[0],
                r[1],
                r[2],
                r[3].wrapping_add(t1),
                r[4],
                r[5],
                r[6],
            ];
            t = t + 1;
            assert(r@ =~= rounds(block@, self.state@, t as int));
        }
        let s: [u32; 8] = self.state;
        self.state = [
            s[0].wrapping_add(r[0]),
            s[1].wrapping_add(r[1]),
            s[2].wrapping_add(r[2]),
            s[3].wrapping_add(r[3]),
            s[4].wrapping_add(r[4]),
            s[5].wrapping_add(r[5]),
            s[6].wrapping_add(r[6]),
            s[7].wrapping_add(r[7]),
        ];
        reveal(compressed);
        assert(self.state@ =~= compressed(old(self).state@, block@));
    }
}

fn bytes_of(state: &[u32; 8]) -> (r: [u8; 32])
    ensures
        r@ == state_bytes(state@),
{
    let mut out: [u8; 32] = [0u8; 32];
    let mut k: usize = 0;
    while k < 8
        invariant
            k <= 8,
            out@.take(4 * k as int) == state_bytes(state@.take(k as int)),
        decreases 8 - k,
    {
        let x: u32 = state[k];
        out[4 * k] = (x / 0x100_0000) as u8;
        out[4 * k + 1] = ((x / 0x1_0000) % 256) as u8;
        out[4 * k + 2] = ((x / 256) % 256) as u8;
        out[4 * k + 3] = (x % 256) as u8;
        k = k + 1;
        proof {
            let s = state@.take(k as int);
            assert(s.drop_last() =~= state@.take(k - 1));
            assert(s.last() == x);
            assert(out@.take(4 * k as int) =~= state_bytes(s.drop_last()) + be32(x)) by {
                assert(out@.take(4 * (k - 1)) =~= out@.take(4 * k as int).take(4 * (k - 1)));
            }
        }
    }
    assert(state@.take(8) =~= state@);
    assert(out@.take(32) =~= out@);
    out
}

proof fn lemma_bits(a: int)
    ensures
        (8 * a) % 0x1_0000_0000_0000_0000 == ((a % 0x1_0000_0000_0000_0000) * 8)
            % 0x1_0000_0000_0000_0000,
{
}

proof fn lemma_pad(n: nat)
    ensures
        pad_zeros(n % 64) == pad_zeros(n),
        (n + 9 + pad_zeros(n)) % 64 == 0,
{
    let r = (n % 64) as int;
    assert(pad_zeros(n) == if r <= 55 {
        55 - r
    } else {
        119 - r
    });
}

proof fn lemma_padded(message: Seq<u8>, length: int, bits: int, tail: Seq<u8>)
    requires
        length == message.len() % 0x1_0000_0000_0000_0000,
        bits == (length * 8) % 0x1_0000_0000_0000_0000,
        tail == seq![0x80u8] + Seq::new(pad_zeros(message.len() % 64), |i: int| 0u8)
            + length_bytes(bits),
    ensures
        message + tail == padded(message),
        (message + tail).len() % 64 == 0,
        (message + tail).take((message + tail).len() as int) == message + tail,
{
    let a = message.len() as int;
    let whole = message + tail;
    lemma_bits(a);
    lemma_pad(message.len());
    assert(whole =~= padded(message));
    assert(whole.len() == message.len() + 9 + pad_zeros(message.len()));
    assert(whole.take(whole.len() as int) =~= whole);
}

fn padding(buffered: usize, bit_length: u64) -> (tail: Vec<u8>)
    requires
        buffered < 64,
    ensures
        tail@ == seq![0x80u8] + Seq::new(pad_zeros(buffered as nat), |i: int| 0u8) + length_bytes(
            bit_length as int,
        ),
{
    let zeros: usize = (119 - buffered) % 64;
    let mut tail: Vec<u8> = Vec::with_capacity(128);
    tail.push(0x80);
    let mut i: usize = 0;
    while i < zeros
        invariant
            i <= zeros <= 64,
            tail@ == seq![0x80u8] + Seq::new(i as nat, |k: int| 0u8),
        decreases zeros - i,
    {
        tail.push(0);
        i = i + 1;
        assert(tail@ =~= seq![0x80u8] + Seq::new(i as nat, |k: int| 0u8));
    }
    let high: u32 = (bit_length / 0x1_0000_0000) as u32;
    let low: u32 = (bit_length % 0x1_0000_0000) as u32;
    push_be32(&mut tail, high);
    push_be32(&mut tail, low);
    assert(tail@ =~= seq![0x80u8] + Seq::new(pad_zeros(buffered as nat), |i: int| 0u8)
        + length_bytes(bit_length as int));
    tail
}

fn push_be32(out: &mut Vec<u8>, x: u32)
    ensures
        final(out)@ == old(out)@ + be32(x),
{
    out.push((x / 0x100_0000) as u8);
    out.push(((x / 0x1_0000) % 256) as u8);
    out.push(((x / 256) % 256) as u8);
    out.push((x % 256) as u8);
    assert(out@ =~= old(out)@ + be32(x));
}

/// The digest of `data`.
pub fn digest(data: &[u8]) -> (r: [u8; 32])
    ensures
        r@ == digest_of(data@),
{
    let mut h: Sha256 = Sha256::new();
    h.update(data);
    assert(Seq::<u8>::empty() + data@ =~= data@);
    h.finish()
}

} // verus!
