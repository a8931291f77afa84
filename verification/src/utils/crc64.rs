//! CRC-64 as xz uses it.
use vstd::prelude::*;

verus! {

/// One bit of division by the polynomial.
pub open spec fn crc64_bit(x: u64) -> u64 {
    if x & 1u64 == 1u64 {
        (x >> 1u64) ^ 0xC96C_5795_D787_0F42u64
    } else {
        x >> 1u64
    }
}

/// Eight bits of division.
pub open spec fn crc64_byte(x: u64) -> u64 {
    crc64_bit(
        crc64_bit(crc64_bit(crc64_bit(crc64_bit(crc64_bit(crc64_bit(crc64_bit(x))))))),
    )
}

/// The register after the bytes of `s`.
pub open spec fn crc64_state(s: Seq<u8>) -> u64
    decreases s.len(),
{
    if s.len() == 0 {
        0xffff_ffff_ffff_ffff
    } else {
        crc64_byte(crc64_state(s.drop_last()) ^ s.last() as u64)
    }
}

/// The CRC-64 of `s`.
pub open spec fn crc64(s: Seq<u8>) -> u64 {
    crc64_state(s) ^ 0xffff_ffff_ffff_ffff
}

/// Division is linear: the low byte can be divided on its own.
proof fn lemma_table(x: u64)
    ensures
        crc64_byte(x) == (x >> 8u64) ^ crc64_byte(x & 0xff),
        x & 0xff < 256,
{
    assert(crc64_byte(x) == (x >> 8u64) ^ crc64_byte(x & 0xff) && x & 0xff < 256) by (bit_vector);
}

/// A running CRC-64.
pub struct Crc64 {
    table: Vec<u64>,
    state: u64,
}

impl Crc64 {
    /// The table holds the quotients of all bytes.
    pub closed spec fn wf(&self) -> bool {
        &&& self.table@.len() == 256
        &&& forall|i: u64| i < 256 ==> #[trigger] self.table@[i as int] == crc64_byte(i)
    }

    /// Whether the register is that of `s`.
    pub closed spec fn covers(&self, s: Seq<u8>) -> bool {
        self.state == crc64_state(s)
    }

    fn divide_bit(x: u64) -> (r: u64)
        ensures
            r == crc64_bit(x),
    {
        if x & 1 == 1 {
            (x >> 1) ^ 0xC96C_5795_D787_0F42
        } else {
            x >> 1
        }
    }

    fn divide(x: u64) -> (r: u64)
        ensures
            r == crc64_byte(x),
    {
        let y: u64 = Self::divide_bit(
            Self::divide_bit(Self::divide_bit(Self::divide_bit(x))),
        );
        Self::divide_bit(Self::divide_bit(Self::divide_bit(Self::divide_bit(y))))
    }

    /// Nothing taken yet.
    pub fn new() -> (r: Self)
        ensures
            r.wf(),
            r.covers(Seq::empty()),
    {
        let mut table: Vec<u64> = Vec::with_capacity(256);
        let mut i: u64 = 0;
        while i < 256
            invariant
                i <= 256,
                table@.len() == i,
                forall|k: u64| k < i ==> #[trigger] table@[k as int] == crc64_byte(k),
            decreases 256 - i,
        {
            table.push(Self::divide(i));
            i = i + 1;
        }
        Crc64 { table, state: 0xffff_ffff_ffff_ffff }
    }

    /// Take the bytes of `data`.
    pub fn update(&mut self, data: &[u8])
        requires
            old(self).wf(),
        ensures
            final(self).wf(),
            forall|s: Seq<u8>| old(self).covers(s) ==> final(self).covers(s + data@),
    {
        let mut i: usize = 0;
        proof {
            assert forall|s: Seq<u8>| old(self).covers(s) implies self.covers(
                s + data@.take(0),
            ) by {
                assert(s + data@.take(0) =~= s);
            }
        }
        while i < data.len()
            invariant
                self.wf(),
                i <= data@.len(),
                forall|s: Seq<u8>| old(self).covers(s) ==> self.covers(s + data@.take(i as int)),
            decreases data@.len() - i,
        {
            let x: u64 = self.state ^ data[i] as u64;
            proof {
                lemma_table(x);
                assert forall|s: Seq<u8>| old(self).covers(s) implies crc64_byte(x)
                    == #[trigger] crc64_state(s + data@.take(i + 1)) by {
                    assert(self.covers(s + data@.take(i as int)));
                    assert((s + data@.take(i + 1)).drop_last() =~= s + data@.take(i as int));
                }
            }
            self.state = (x >> 8) ^ self.table[(x & 0xff) as usize];
            i = i + 1;
            assert forall|s: Seq<u8>| old(self).covers(s) implies self.covers(
                s + data@.take(i as int),
            ) by {
                assert(crc64_state(s + data@.take(i as int)) == self.state);
            }
        }
        assert(data@.take(i as int) =~= data@);
    }

    /// The CRC-64 of what was taken.
    pub fn finish(&self) -> (r: u64)
        ensures
            forall|s: Seq<u8>| self.covers(s) ==> r == crc64(s),
    {
        self.state ^ 0xffff_ffff_ffff_ffff
    }
}

/// The CRC-64 of `data`.
pub fn checksum(data: &[u8]) -> (r: u64)
    ensures
        r == crc64(data@),
{
    let mut crc: Crc64 = Crc64::new();
    crc.update(data);
    assert(crc.covers(Seq::<u8>::empty() + data@));
    assert(Seq::<u8>::empty() + data@ =~= data@);
    crc.finish()
}

} // verus!
