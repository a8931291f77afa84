//! SHA-1.
use vstd::prelude::*;

verus! {

/// The length of a digest in bytes.
pub const DIGEST_LEN: usize = 20;

/// The length of a block in bytes.
pub const BLOCK_LEN: usize = 64;

/// The bits of `x` turned left by `n`.
pub open spec fn rotl(x: u32, n: u32) -> u32 {
    (x << n) | (x >> ((32 - n) as u32))
}

/// The state before any block.
pub open spec fn start_state() -> Seq<u32> {
    seq![0x6745_2301u32, 0xEFCD_AB89, 0x98BA_DCFE, 0x1032_5476, 0xC3D2_E1F0]
}

/// The words that the rounds take from a block.
pub open spec fn schedule(block: Seq<u8>, t: int) -> u32
    decreases t,
{
    if t < 16 {
        word(block, t)
    } else {
        rotl(
            schedule(block, t - 3) ^ schedule(block, t - 8) ^ schedule(block, t - 14) ^ schedule(
                block,
                t - 16,
            ),
            1,
        )
    }
}

/// How a round mixes three words.
pub open spec fn mixed(t: int, b: u32, c: u32, d: u32) -> u32 {
    if t < 20 {
        (b & c) | (!b & d)
    } else if t < 40 {
        b ^ c ^ d
    } else if t < 60 {
        (b & c) | (b & d) | (c & d)
    } else {
        b ^ c ^ d
    }
}

/// The constant of a round.
pub open spec fn constant_of(t: int) -> u32 {
    if t < 20 {
        0x5A82_7999
    } else if t < 40 {
        0x6ED9_EBA1
    } else if t < 60 {
        0x8F1B_BCDC
    } else {
        0xCA62_C1D6
    }
}

/// The first `t` rounds over a block.
pub open spec fn rounds(block: Seq<u8>, s: Seq<u32>, t: int) -> Seq<u32>
    decreases t,
{
    if t <= 0 {
        s
    } else {
        let r = rounds(block, s, t - 1);
        let temp = rotl(r[0], 5).wrapping_add(mixed(t - 1, r[1], r[2], r[3])).wrapping_add(
            r[4],
        ).wrapping_add(constant_of(t - 1)).wrapping_add(schedule(block, t - 1));
        seq![temp, r[0], rotl(r[1], 30), r[2], r[3]]
    }
}

/// The state after one more block.
#[verifier::opaque]
pub open spec fn compressed(s: Seq<u32>, block: Seq<u8>) -> Seq<u32> {
    let r = rounds(block, s, 80);
    Seq::new(5, |i: int| s[i].wrapping_add(r[i]))
}

/// A number in four bytes, the most significant byte first.
pub open spec fn be32(x: u32) -> Seq<u8> {
    seq![
        (x / 0x100_0000) as u8,
        ((x / 0x1_0000) % 256) as u8,
        ((x / 256) % 256) as u8,
        (x % 256) as u8,
    ]
}

/// The number in four bytes, the most significant byte first.
pub open spec fn word(block: Seq<u8>, i: int) -> u32 {
    (0x100_0000 * block[4 * i] + 0x1_0000 * block[4 * i + 1] + 256 * block[4 * i + 2] + block[4 * i
        + 3]) as u32
}

/// The state after whole blocks.
pub open spec fn absorbed(message: Seq<u8>) -> Seq<u32>
    decreases message.len(),
{
    if message.len() < 64 {
        start_state()
    } else {
        let n = message.len() - 64;
        compressed(absorbed(message.take(n)), message.skip(n))
    }
}

/// How many zero bytes pad a message of `n` bytes.
pub open spec fn pad_zeros(n: nat) -> nat {
    ((119 - n % 64) % 64) as nat
}

/// A message of `n` bits as eight bytes, the most significant byte first.
pub open spec fn length_bytes(bits: int) -> Seq<u8> {
    be32((bits / 0x1_0000_0000) as u32) + be32((bits % 0x1_0000_0000) as u32)
}

/// A message with its padding and its length in bits.
pub open spec fn padded(message: Seq<u8>) -> Seq<u8> {
    message.push(0x80) + Seq::new(pad_zeros(message.len()), |i: int| 0u8) + length_bytes(
        (8 * message.len() as int) % 0x1_0000_0000_0000_0000,
    )
}

/// The words of a state as bytes.
pub open spec fn state_bytes(state: Seq<u32>) -> Seq<u8>
    decreases state.len(),
{
    if state.len() == 0 {
        Seq::empty()
    } else {
        state_bytes(state.drop_last()) + be32(state.last())
    }
}

/// The digest of a message.
pub open spec fn digest_of(message: Seq<u8>) -> Seq<u8> {
    state_bytes(absorbed(padded(message)))
}

proof fn lemma_state_bytes_len(state: Seq<u32>)
    ensures
        state_bytes(state).len() == 4 * state.len(),
    decreases state.len(),
{
    if state.len() > 0 {
        lemma_state_bytes_len(state.drop_last());
    }
}

/// Every digest is as long as every other.
pub proof fn lemma_digest_len(message: Seq<u8>)
    ensures
        digest_of(message).len() == DIGEST_LEN,
{
    reveal(compressed);
    lemma_state_bytes_len(absorbed(padded(message)));
}

fn be_word(block: &[u8; 64], i: usize) -> (r: u32)
    requires
        i < 16,
    ensures
        r == word(block@, i as int),
{
    0x100_0000 * (block[4 * i] as u32) + 0x1_0000 * (block[4 * i + 1] as u32) + 256 * (block[4 * i
        + 2] as u32) + block[4 * i + 3] as u32
}

fn rotate(x: u32, n: u32) -> (r: u32)
    requires
        0 < n < 32,
    ensures
        r == rotl(x, n),
{
    (x << n) | (x >> (32 - n))
}

fn mix(t: usize, b: u32, c: u32, d: u32) -> (r: u32)
    ensures
        r == mixed(t as int, b, c, d),
{
    if t < 20 {
        (b & c) | (!b & d)
    } else if t < 40 {
        b ^ c ^ d
    } else if t < 60 {
        (b & c) | (b & d) | (c & d)
    } else {
        b ^ c ^ d
    }
}

fn constant(t: usize) -> (r: u32)
    ensures
        r == constant_of(t as int),
{
    if t < 20 {
        0x5A82_7999
    } else if t < 40 {
        0x6ED9_EBA1
    } else if t < 60 {
        0x8F1B_BCDC
    } else {
        0xCA62_C1D6
    }
}


/// A running digest.
#[derive(Clone, Copy)]
pub struct Sha1 {
    state: [u32; 5],
    buffer: [u8; 64],
    buffered: usize,
    length: u64,
    data: Ghost<Seq<u8>>,
}

impl Default for Sha1 {
    fn default() -> (r: Self)
        ensures
            r.wf(),
            r.taken() == Seq::<u8>::empty(),
    {
        Self::new()
    }
}

impl Sha1 {
    /// What was taken so far.
    pub closed spec fn taken(&self) -> Seq<u8> {
        self.data@
    }

    /// The whole blocks of what was taken are in the state, the rest is in
    /// the buffer.
    spec fn follows(&self, data: Seq<u8>) -> bool {
        let n = data.len() - data.len() % 64;
        &&& self.buffered == data.len() % 64
        &&& self.state@ == absorbed(data.take(n))
        &&& self.buffer@.take(self.buffered as int) == data.skip(n)
    }

    /// The state is that of what was taken.
    pub closed spec fn wf(&self) -> bool {
        &&& self.follows(self.data@)
        &&& self.length == self.data@.len() % 0x1_0000_0000_0000_0000
    }

    /// Nothing taken yet.
    pub fn new() -> (r: Self)
        ensures
            r.wf(),
            r.taken() == Seq::<u8>::empty(),
    {
        let r: Sha1 = Sha1 {
            state: [0x6745_2301, 0xEFCD_AB89, 0x98BA_DCFE, 0x1032_5476, 0xC3D2_E1F0],
            buffer: [0u8; 64],
            buffered: 0,
            length: 0,
            data: Ghost(Seq::empty()),
        };
        assert(r.state@ =~= start_state());
        assert(r.buffer@.take(0) =~= Seq::<u8>::empty().skip(0));
        r
    }

    /// Take the bytes of `data`.
    pub fn update(&mut self, data: &[u8])
        requires
            old(self).wf(),
        ensures
            final(self).wf(),
            final(self).taken() == old(self).taken() + data@,
    {
        let ghost before = self.data@;
        self.length = self.length.wrapping_add(data.len() as u64);
        self.update_raw(data, Ghost(before));
        proof {
            let a = before.len() as int;
            let b = data@.len() as int;
            vstd::arithmetic::div_mod::lemma_add_mod_noop(a, b, 0x1_0000_0000_0000_0000);
            assert(b % 0x1_0000_0000_0000_0000 == b);
        }
        let ghost all = before + data@;
        self.data = Ghost(all);
    }

    /// The digest of what was taken.
    pub fn finish(self) -> (r: [u8; 20])
        requires
            self.wf(),
        ensures
            r@ == digest_of(self.taken()),
    {
        let mut this: Sha1 = self;
        let ghost message = self.data@;
        let bit_length: u64 = this.length.wrapping_mul(8);
        let tail: Vec<u8> = padding(this.buffered, bit_length);
        this.update_raw(tail.as_slice(), Ghost(message));
        proof {
            lemma_padded(message, self.length as int, bit_length as int, tail@);
        }
        bytes_of(&this.state)
    }

    fn update_raw(&mut self, data: &[u8], Ghost(before): Ghost<Seq<u8>>)
        requires
            old(self).follows(before),
        ensures
            final(self).follows(before + data@),
            final(self).length == old(self).length,
            final(self).data == old(self).data,
    {
        let mut i: usize = 0;
        assert(before + data@.take(0) =~= before);
        while i < data.len()
            invariant
                i <= data@.len(),
                self.follows(before + data@.take(i as int)),
                self.length == old(self).length,
                self.data == old(self).data,
            decreases data@.len() - i,
        {
            let ghost now = before + data@.take(i as int);
            let ghost next = now.push(data@[i as int]);
            let ghost n = now.len() - now.len() % 64;
            let ghost held = self.buffer@.take(self.buffered as int);
            assert(before + data@.take(i + 1) =~= next);
            self.buffer[self.buffered] = data[i];
            self.buffered = self.buffered + 1;
            assert(self.buffer@.take(self.buffered as int) =~= held.push(data@[i as int]));
            assert(next.skip(n) =~= now.skip(n).push(data@[i as int]));
            if self.buffered == BLOCK_LEN {
                let block: [u8; 64] = self.buffer;
                self.compress(&block);
                self.buffered = 0;
                proof {
                    assert(next.len() == n + 64);
                    assert(block@ =~= next.skip(n));
                    assert(next.take(n) =~= now.take(n));
                    assert(next.take(next.len() as int) =~= next);
                    assert(self.buffer@.take(0) =~= next.skip(next.len() as int));
                }
            } else {
                assert(next.take(n) =~= now.take(n));
            }
            i = i + 1;
        }
        assert(data@.take(i as int) =~= data@);
    }

    fn compress(&mut self, block: &[u8; 64])
        ensures
            final(self).state@ == compressed(old(self).state@, block@),
            final(self).buffer == old(self).buffer,
            final(self).buffered == old(self).buffered,
            final(self).length == old(self).length,
            final(self).data == old(self).data,
    {
        let mut w: [u32; 80] = [0u32; 80];
        let mut i: usize = 0;
        while i < 80
            invariant
                i <= 80,
                forall|k: int| 0 <= k < i ==> #[trigger] w@[k] == schedule(block@, k),
            decreases 80 - i,
        {
            w[i] = if i < 16 {
                be_word(block, i)
            } else {
                rotate(w[i - 3] ^ w[i - 8] ^ w[i - 14] ^ w[i - 16], 1)
            };
            i = i + 1;
        }
        let mut a: u32 = self.state[0];
        let mut b: u32 = self.state[1];
        let mut c: u32 = self.state[2];
        let mut d: u32 = self.state[3];
        let mut e: u32 = self.state[4];
        let mut t: usize = 0;
        assert(seq![a, b, c, d, e] =~= self.state@);
        while t < 80
            invariant
                t <= 80,
                forall|k: int| 0 <= k < 80 ==> #[trigger] w@[k] == schedule(block@, k),
                seq![a, b, c, d, e] == rounds(block@, self.state@, t as int),
                *self == *old(self),
            decreases 80 - t,
        {
            let ghost r = rounds(block@, self.state@, t as int);
            assert(r[0] == a && r[1] == b && r[2] == c && r[3] == d && r[4] == e);
            let temp: u32 = rotate(a, 5).wrapping_add(mix(t, b, c, d)).wrapping_add(
                e,
            ).wrapping_add(constant(t)).wrapping_add(w[t]);
            e = d;
            d = c;
            c = rotate(b, 30);
            b = a;
            a = temp;
            t = t + 1;
            assert(seq![a, b, c, d, e] =~= rounds(block@, self.state@, t as int));
        }
        let ghost r = rounds(block@, self.state@, 80);
        assert(r[0] == a && r[1] == b && r[2] == c && r[3] == d && r[4] == e);
        let s: [u32; 5] = self.state;
        self.state = [
            s[0].wrapping_add(a),
            s[1].wrapping_add(b),
            s[2].wrapping_add(c),
            s[3].wrapping_add(d),
            s[4].wrapping_add(e),
        ];
        reveal(compressed);
        assert(self.state@ =~= compressed(old(self).state@, block@));
    }
}

fn bytes_of(state: &[u32; 5]) -> (r: [u8; 20])
    ensures
        r@ == state_bytes(state@),
{
    let mut out: [u8; 20] = [0u8; 20];
    let mut k: usize = 0;
    while k < 5
        invariant
            k <= 5,
            out@.take(4 * k as int) == state_bytes(state@.take(k as int)),
        decreases 5 - k,
    {
        let x: u32 = state[k];
        out[4 * k] = (x / 0x100_0000) as u8;
        out[4 * k + 1] = ((x / 0x1_0000) % 256) as u8;
        out[4 * k + 2] = ((x / 256) % 256) as u8;
        out[4 * k + 3] = (x % 256) as u8;
        k = k + 1;
        proof {
            let s = state@.take(k as int);
            assert(s.drop_last() =~= state@.take(k - 1));
            assert(s.last() == x);
            assert(out@.take(4 * k as int) =~= state_bytes(s.drop_last()) + be32(x)) by {
                assert(out@.take(4 * (k - 1)) =~= out@.take(4 * k as int).take(4 * (k - 1)));
            }
        }
    }
    assert(state@.take(5) =~= state@);
    assert(out@.take(20) =~= out@);
    out
}

proof fn lemma_bits(a: int)
    ensures
        (8 * a) % 0x1_0000_0000_0000_0000 == ((a % 0x1_0000_0000_0000_0000) * 8)
            % 0x1_0000_0000_0000_0000,
{
}

proof fn lemma_pad(n: nat)
    ensures
        pad_zeros(n % 64) == pad_zeros(n),
        (n + 9 + pad_zeros(n)) % 64 == 0,
{
    let r = (n % 64) as int;
    assert(pad_zeros(n) == if r <= 55 {
        55 - r
    } else {
        119 - r
    });
}

proof fn lemma_padded(message: Seq<u8>, length: int, bits: int, tail: Seq<u8>)
    requires
        length == message.len() % 0x1_0000_0000_0000_0000,
        bits == (length * 8) % 0x1_0000_0000_0000_0000,
        tail == seq![0x80u8] + Seq::new(pad_zeros(message.len() % 64), |i: int| 0u8)
            + length_bytes(bits),
    ensures
        message + tail == padded(message),
        (message + tail).len() % 64 == 0,
        (message + tail).take((message + tail).len() as int) == message + tail,
{
    let a = message.len() as int;
    let whole = message + tail;
    lemma_bits(a);
    lemma_pad(message.len());
    assert(whole =~= padded(message));
    assert(whole.len() == message.len() + 9 + pad_zeros(message.len()));
    assert(whole.take(whole.len() as int) =~= whole);
}

fn padding(buffered: usize, bit_length: u64) -> (tail: Vec<u8>)
    requires
        buffered < 64,
    ensures
        tail@ == seq![0x80u8] + Seq::new(pad_zeros(buffered as nat), |i: int| 0u8) + length_bytes(
            bit_length as int,
        ),
{
    let zeros: usize = (119 - buffered) % 64;
    let mut tail: Vec<u8> = Vec::with_capacity(128);
    tail.push(0x80);
    let mut i: usize = 0;
    while i < zeros
        invariant
            i <= zeros <= 64,
            tail@ == seq![0x80u8] + Seq::new(i as nat, |k: int| 0u8),
        decreases zeros - i,
    {
        tail.push(0);
        i = i + 1;
        assert(tail@ =~= seq![0x80u8] + Seq::new(i as nat, |k: int| 0u8));
    }
    let high: u32 = (bit_length / 0x1_0000_0000) as u32;
    let low: u32 = (bit_length % 0x1_0000_0000) as u32;
    push_be32(&mut tail, high);
    push_be32(&mut tail, low);
    assert(tail@ =~= seq![0x80u8] + Seq::new(pad_zeros(buffered as nat), |i: int| 0u8)
        + length_bytes(bit_length as int));
    tail
}

fn push_be32(out: &mut Vec<u8>, x: u32)
    ensures
        final(out)@ == old(out)@ + be32(x),
{
    out.push((x / 0x100_0000) as u8);
    out.push(((x / 0x1_0000) % 256) as u8);
    out.push(((x / 256) % 256) as u8);
    out.push((x % 256) as u8);
    assert(out@ =~= old(out)@ + be32(x));
}

/// The digest of `data`.
pub fn digest(data: &[u8]) -> (r: [u8; 20])
    ensures
        r@ == digest_of(data@),
{
    let mut h: Sha1 = Sha1::new();
    h.update(data);
    assert(Seq::<u8>::empty() + data@ =~= data@);
    h.finish()
}

} // verus!
