//! CRC-32 as ZIP, gzip and xz use it.
use vstd::prelude::*;

verus! {

/// One bit of division by the polynomial.
pub open spec fn crc32_bit(x: u32) -> u32 {
    if x & 1u32 == 1u32 {
        (x >> 1u32) ^ 0xEDB8_8320u32
    } else {
        x >> 1u32
    }
}

/// Eight bits of division.
pub open spec fn crc32_byte(x: u32) -> u32 {
    crc32_bit(
        crc32_bit(crc32_bit(crc32_bit(crc32_bit(crc32_bit(crc32_bit(crc32_bit(x))))))),
    )
}

/// The register after the bytes of `s`.
pub open spec fn crc32_state(s: Seq<u8>) -> u32
    decreases s.len(),
{
    if s.len() == 0 {
        0xffff_ffff
    } else {
        crc32_byte(crc32_state(s.drop_last()) ^ s.last() as u32)
    }
}

/// The CRC-32 of `s`.
pub open spec fn crc32(s: Seq<u8>) -> u32 {
    crc32_state(s) ^ 0xffff_ffff
}

/// Division is linear: the low byte can be divided on its own.
proof fn lemma_table(x: u32)
    ensures
        crc32_byte(x) == (x >> 8u32) ^ crc32_byte(x & 0xff),
        x & 0xff < 256,
{
    assert(crc32_byte(x) == (x >> 8u32) ^ crc32_byte(x & 0xff) && x & 0xff < 256) by (bit_vector);
}

/// A running CRC-32.
pub struct Crc32 {
    table: Vec<u32>,
    state: u32,
}

impl Crc32 {
    /// The table holds the quotients of all bytes.
    pub closed spec fn wf(&self) -> bool {
        &&& self.table@.len() == 256
        &&& forall|i: u32| i < 256 ==> #[trigger] self.table@[i as int] == crc32_byte(i)
    }

    /// Whether the register is that of `s`.
    pub closed spec fn covers(&self, s: Seq<u8>) -> bool {
        self.state == crc32_state(s)
    }

    fn divide_bit(x: u32) -> (r: u32)
        ensures
            r == crc32_bit(x),
    {
        if x & 1 == 1 {
            (x >> 1) ^ 0xEDB8_8320
        } else {
            x >> 1
        }
    }

    fn divide(x: u32) -> (r: u32)
        ensures
            r == crc32_byte(x),
    {
        let y: u32 = Self::divide_bit(
            Self::divide_bit(Self::divide_bit(Self::divide_bit(x))),
        );
        Self::divide_bit(Self::divide_bit(Self::divide_bit(Self::divide_bit(y))))
    }

    /// Nothing taken yet.
    pub fn new() -> (r: Self)
        ensures
            r.wf(),
            r.covers(Seq::empty()),
    {
        let mut table: Vec<u32> = Vec::with_capacity(256);
        let mut i: u32 = 0;
        while i < 256
            invariant
                i <= 256,
                table@.len() == i,
                forall|k: u32| k < i ==> #[trigger] table@[k as int] == crc32_byte(k),
            decreases 256 - i,
        {
            table.push(Self::divide(i));
            i = i + 1;
        }
        Crc32 { table, state: 0xffff_ffff }
    }

    /// Take the bytes of `data`.
    pub fn update(&mut self, data: &[u8])
        requires
            old(self).wf(),
        ensures
            final(self).wf(),
            forall|s: Seq<u8>| old(self).covers(s) ==> final(self).covers(s + data@),
    {
        let mut i: usize = 0;
        proof {
            assert forall|s: Seq<u8>| old(self).covers(s) implies self.covers(
                s + data@.take(0),
            ) by {
                assert(s + data@.take(0) =~= s);
            }
        }
        while i < data.len()
            invariant
                self.wf(),
                i <= data@.len(),
                forall|s: Seq<u8>| old(self).covers(s) ==> self.covers(s + data@.take(i as int)),
            decreases data@.len() - i,
        {
            let x: u32 = self.state ^ data[i] as u32;
            proof {
                lemma_table(x);
                assert forall|s: Seq<u8>| old(self).covers(s) implies crc32_byte(x)
                    == #[trigger] crc32_state(s + data@.take(i + 1)) by {
                    assert(self.covers(s + data@.take(i as int)));
                    assert((s + data@.take(i + 1)).drop_last() =~= s + data@.take(i as int));
                }
            }
            self.state = (x >> 8) ^ self.table[(x & 0xff) as usize];
            i = i + 1;
            assert forall|s: Seq<u8>| old(self).covers(s) implies self.covers(
                s + data@.take(i as int),
            ) by {
                assert(crc32_state(s + data@.take(i as int)) == self.state);
            }
        }
        assert(data@.take(i as int) =~= data@);
    }

    /// The CRC-32 of what was taken.
    pub fn finish(&self) -> (r: u32)
        ensures
            forall|s: Seq<u8>| self.covers(s) ==> r == crc32(s),
    {
        self.state ^ 0xffff_ffff
    }
}

/// The CRC-32 of `data`.
pub fn checksum(data: &[u8]) -> (r: u32)
    ensures
        r == crc32(data@),
{
    let mut crc: Crc32 = Crc32::new();
    crc.update(data);
    assert(crc.covers(Seq::<u8>::empty() + data@));
    assert(Seq::<u8>::empty() + data@ =~= data@);
    crc.finish()
}

} // verus!
