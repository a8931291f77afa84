//! The CRC-32 of bzip2, the most significant bit first.
use vstd::prelude::*;

verus! {

/// One bit of division by the polynomial.
pub open spec fn crc_bit(x: u32) -> u32 {
    if x & 0x8000_0000u32 != 0u32 {
        (x << 1u32) ^ 0x04C1_1DB7u32
    } else {
        x << 1u32
    }
}

/// Eight bits of division.
pub open spec fn crc_byte(x: u32) -> u32 {
    crc_bit(crc_bit(crc_bit(crc_bit(crc_bit(crc_bit(crc_bit(crc_bit(x))))))))
}

/// The register after the bytes of `s`.
pub open spec fn crc_state(s: Seq<u8>) -> u32
    decreases s.len(),
{
    if s.len() == 0 {
        0xffff_ffff
    } else {
        crc_byte(crc_state(s.drop_last()) ^ ((s.last() as u32) << 24u32))
    }
}

/// The checksum of `s`.
pub open spec fn crc_of(s: Seq<u8>) -> u32 {
    crc_state(s) ^ 0xffff_ffff
}

/// The checksum of a stream from that of the blocks before and of one block.
pub open spec fn combined(running: u32, block: u32) -> u32 {
    ((running << 1u32) | (running >> 31u32)) ^ block
}

/// The checksum of the blocks before is doubled, its highest bit coming in at
/// the low end, and combined with that of the block.
pub proof fn lemma_combined(running: u32, block: u32)
    ensures
        combined(running, block) == ((2 * (running % 0x8000_0000) + running / 0x8000_0000) as u32)
            ^ block,
        combined(0, block) == block,
{
    assert(((running << 1u32) | (running >> 31u32)) == (2 * (running % 0x8000_0000) + running
        / 0x8000_0000) as u32 && ((0u32 << 1u32) | (0u32 >> 31u32)) ^ block == block)
        by (bit_vector);
}

/// One byte over and over.
pub open spec fn run_of(byte: u8, n: nat) -> Seq<u8> {
    Seq::new(n, |j: int| byte)
}

/// Division is linear: the high byte can be divided on its own.
proof fn lemma_table(x: u32)
    ensures
        crc_byte(x) == (x << 8u32) ^ crc_byte((x >> 24u32) << 24u32),
        x >> 24u32 < 256,
{
    assert(crc_byte(x) == (x << 8u32) ^ crc_byte((x >> 24u32) << 24u32) && x >> 24u32 < 256)
        by (bit_vector);
}

/// A running checksum.
#[derive(Clone)]
pub struct Crc {
    table: Vec<u32>,
    state: u32,
}

impl Default for Crc {
    fn default() -> (r: Self)
        ensures
            r.wf(),
            r.covers(Seq::empty()),
    {
        Crc::new()
    }
}

impl Crc {
    /// The table holds the quotients of all bytes.
    pub closed spec fn wf(&self) -> bool {
        &&& self.table@.len() == 256
        &&& forall|i: u32| i < 256 ==> #[trigger] self.table@[i as int] == crc_byte(i << 24u32)
    }

    /// Whether the register is that of `s`.
    pub closed spec fn covers(&self, s: Seq<u8>) -> bool {
        self.state == crc_state(s)
    }

    fn divide_bit(x: u32) -> (r: u32)
        ensures
            r == crc_bit(x),
    {
        if x & 0x8000_0000 != 0 {
            (x << 1) ^ 0x04C1_1DB7
        } else {
            x << 1
        }
    }

    fn divide(x: u32) -> (r: u32)
        ensures
            r == crc_byte(x),
    {
        let y: u32 = Self::divide_bit(
            Self::divide_bit(Self::divide_bit(Self::divide_bit(x))),
        );
        Self::divide_bit(Self::divide_bit(Self::divide_bit(Self::divide_bit(y))))
    }

    /// Nothing taken yet.
    pub fn new() -> (r: Self)
        ensures
            r.wf(),
            r.covers(Seq::empty()),
    {
        let mut table: Vec<u32> = Vec::with_capacity(256);
        let mut i: u32 = 0;
        while i < 256
            invariant
                i <= 256,
                table@.len() == i,
                forall|k: u32| k < i ==> #[trigger] table@[k as int] == crc_byte(k << 24u32),
            decreases 256 - i,
        {
            table.push(Self::divide(i << 24));
            i = i + 1;
        }
        Crc { table, state: 0xffff_ffff }
    }

    /// Take nothing back: as if new.
    pub(crate) fn reset(&mut self)
        requires
            old(self).wf(),
        ensures
            final(self).wf(),
            final(self).covers(Seq::empty()),
    {
        self.state = 0xffff_ffff;
    }

    fn step(&mut self, byte: u8)
        requires
            old(self).wf(),
        ensures
            final(self).wf(),
            forall|s: Seq<u8>| old(self).covers(s) ==> #[trigger] final(self).covers(s.push(byte)),
    {
        let x: u32 = self.state ^ ((byte as u32) << 24);
        proof {
            lemma_table(x);
            assert forall|s: Seq<u8>| old(self).covers(s) implies crc_byte(x)
                == #[trigger] crc_state(s.push(byte)) by {
                assert(s.push(byte).drop_last() =~= s);
            }
        }
        self.state = (x << 8) ^ self.table[(x >> 24) as usize];
    }

    /// Take the bytes of `data`.
    pub fn update(&mut self, data: &[u8])
        requires
            old(self).wf(),
        ensures
            final(self).wf(),
            forall|s: Seq<u8>| old(self).covers(s) ==> #[trigger] final(self).covers(s + data@),
    {
        let mut i: usize = 0;
        proof {
            assert forall|s: Seq<u8>| old(self).covers(s) implies #[trigger] self.covers(
                s + data@.take(0),
            ) by {
                assert(s + data@.take(0) =~= s);
            }
        }
        while i < data.len()
            invariant
                self.wf(),
                i <= data@.len(),
                forall|s: Seq<u8>|
                    old(self).covers(s) ==> #[trigger] self.covers(s + data@.take(i as int)),
            decreases data@.len() - i,
        {
            let ghost was = *self;
            self.step(data[i]);
            proof {
                assert forall|s: Seq<u8>| old(self).covers(s) implies #[trigger] self.covers(
                    s + data@.take(i + 1),
                ) by {
                    let t = s + data@.take(i as int);
                    assert(was.covers(t));
                    assert(self.covers(t.push(data@[i as int])));
                    assert(s + data@.take(i + 1) =~= t.push(data@[i as int]));
                }
            }
            i = i + 1;
        }
        proof {
            assert(data@.take(i as int) =~= data@);
        }
    }

    /// Take one byte `count` times.
    pub fn update_run(&mut self, byte: u8, count: usize)
        requires
            old(self).wf(),
        ensures
            final(self).wf(),
            forall|s: Seq<u8>|
                old(self).covers(s) ==> #[trigger] final(self).covers(
                    s + run_of(byte, count as nat),
                ),
    {
        let mut i: usize = 0;
        proof {
            assert forall|s: Seq<u8>| #[trigger] old(self).covers(s) implies self.covers(
                s + run_of(byte, 0),
            ) by {
                assert(s + run_of(byte, 0) =~= s);
            }
        }
        while i < count
            invariant
                self.wf(),
                i <= count,
                forall|s: Seq<u8>| #[trigger]
                    old(self).covers(s) ==> self.covers(s + run_of(byte, i as nat)),
            decreases count - i,
        {
            let ghost was = *self;
            self.step(byte);
            proof {
                assert forall|s: Seq<u8>| #[trigger] old(self).covers(s) implies self.covers(
                    s + run_of(byte, (i + 1) as nat),
                ) by {
                    let t = s + run_of(byte, i as nat);
                    assert(was.covers(t));
                    assert(self.covers(t.push(byte)));
                    assert(s + run_of(byte, (i + 1) as nat) =~= t.push(byte));
                }
            }
            i = i + 1;
        }
    }

    /// The checksum of what was taken.
    pub fn finish(&self) -> (r: u32)
        ensures
            forall|s: Seq<u8>| #[trigger] self.covers(s) ==> r == crc_of(s),
    {
        self.state ^ 0xffff_ffff
    }
}

/// The checksum of a stream, one block further.
pub fn combine(running: u32, block: u32) -> (r: u32)
    ensures
        r == combined(running, block),
{
    ((running << 1) | (running >> 31)) ^ block
}

} // verus!
