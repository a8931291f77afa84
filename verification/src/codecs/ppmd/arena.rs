//! The memory of a model: bytes, numbers, and blocks of units.
//!
//! Addresses are offsets. What lies outside reads as zero and takes no
//! writes.
use vstd::prelude::*;

verus! {

/// The size of a unit.
pub const UNIT_SIZE: u32 = 12;

/// How many sizes of blocks there are.
pub const INDEXES: usize = 38;

/// The size of a state.
pub const STATE: u32 = 6;

/// The byte at an address.
pub open spec fn get8(b: Seq<u8>, at: u32) -> u8 {
    if at < b.len() {
        b[at as int]
    } else {
        0
    }
}

/// The number in two bytes.
pub open spec fn get16(b: Seq<u8>, at: u32) -> u16 {
    if at + 2 <= b.len() {
        (b[at as int] + 0x100 * b[at + 1]) as u16
    } else {
        0
    }
}

/// The number in four bytes.
pub open spec fn get32(b: Seq<u8>, at: u32) -> u32 {
    if at + 4 <= b.len() {
        (b[at as int] + 0x100 * b[at + 1] + 0x1_0000 * b[at + 2] + 0x100_0000 * b[at + 3]) as u32
    } else {
        0
    }
}

/// Memory with another byte.
pub open spec fn put8(b: Seq<u8>, at: u32, v: u8) -> Seq<u8> {
    if at < b.len() {
        b.update(at as int, v)
    } else {
        b
    }
}

/// Memory with another number in two bytes.
pub open spec fn put16(b: Seq<u8>, at: u32, v: u16) -> Seq<u8> {
    if at + 2 <= b.len() {
        b.update(at as int, (v % 0x100) as u8).update(at + 1, (v / 0x100) as u8)
    } else {
        b
    }
}

/// Memory with another number in four bytes.
pub open spec fn put32(b: Seq<u8>, at: u32, v: u32) -> Seq<u8> {
    if at + 4 <= b.len() {
        b.update(at as int, (v % 0x100) as u8).update(at + 1, (v / 0x100 % 0x100) as u8).update(
            at + 2,
            (v / 0x1_0000 % 0x100) as u8,
        ).update(at + 3, (v / 0x100_0000) as u8)
    } else {
        b
    }
}

/// Memory with `n` bytes copied.
pub open spec fn copied(b: Seq<u8>, dest: u32, src: u32, n: u32) -> Seq<u8> {
    if dest + n <= b.len() && src + n <= b.len() {
        Seq::new(
            b.len(),
            |i: int|
                if dest <= i < dest + n {
                    b[src + (i - dest)]
                } else {
                    b[i]
                },
        )
    } else {
        b
    }
}

/// Memory with two states in each other's place.
pub open spec fn swapped(b: Seq<u8>, x: u32, y: u32) -> Seq<u8> {
    if x + STATE <= b.len() && y + STATE <= b.len() {
        Seq::new(
            b.len(),
            |i: int|
                if x <= i < x + STATE {
                    b[y + (i - x)]
                } else if y <= i < y + STATE {
                    b[x + (i - y)]
                } else {
                    b[i]
                },
        )
    } else {
        b
    }
}

/// The six bytes of a state.
pub open spec fn state_at(b: Seq<u8>, at: u32) -> Seq<u8> {
    if at + STATE <= b.len() {
        b.subrange(at as int, at + STATE)
    } else {
        Seq::new(STATE as nat, |i: int| 0u8)
    }
}

/// Memory with the six bytes of a state.
pub open spec fn with_state(b: Seq<u8>, at: u32, state: Seq<u8>) -> Seq<u8> {
    if at + STATE <= b.len() {
        Seq::new(
            b.len(),
            |i: int|
                if at <= i < at + STATE {
                    state[i - at]
                } else {
                    b[i]
                },
        )
    } else {
        b
    }
}

/// How many units a block of a size has.
pub open spec fn units_of(index: int) -> u32 {
    if index < 4 {
        (index + 1) as u32
    } else if index < 8 {
        (2 * index - 2) as u32
    } else if index < 12 {
        (3 * index - 9) as u32
    } else if index < 38 {
        (4 * index - 20) as u32
    } else {
        128
    }
}

/// The size of the smallest block with that many units.
pub open spec fn index_of(nu: u32) -> int {
    if nu == 0 {
        0
    } else if nu <= 4 {
        nu - 1
    } else if nu <= 12 {
        (nu + 3) / 2
    } else if nu <= 24 {
        (nu + 11) / 3
    } else if nu <= 128 {
        (nu + 23) / 4
    } else {
        37
    }
}

/// Memory.
pub(crate) struct Arena {
    base: Vec<u8>,
}

impl View for Arena {
    type V = Seq<u8>;

    closed spec fn view(&self) -> Seq<u8> {
        self.base@
    }
}

impl Arena {
    /// So many bytes of zero.
    pub fn new(n: usize) -> (r: Self)
        ensures
            r@ == Seq::new(n as nat, |i: int| 0u8),
    {
        let r: Arena = Arena { base: vec![0u8; n] };
        assert(r@ =~= Seq::new(n as nat, |i: int| 0u8));
        r
    }

    pub fn len(&self) -> (r: usize)
        ensures
            r == self@.len(),
    {
        self.base.len()
    }

    pub fn u8_at(&self, at: u32) -> (r: u8)
        ensures
            r == get8(self@, at),
    {
        if (at as usize) < self.base.len() {
            self.base[at as usize]
        } else {
            0
        }
    }

    pub fn u16_at(&self, at: u32) -> (r: u16)
        ensures
            r == get16(self@, at),
    {
        let n: usize = self.base.len();
        if n >= 2 && at as usize <= n - 2 {
            let at: usize = at as usize;
            self.base[at] as u16 + 0x100 * self.base[at + 1] as u16
        } else {
            0
        }
    }

    pub fn u32_at(&self, at: u32) -> (r: u32)
        ensures
            r == get32(self@, at),
    {
        let n: usize = self.base.len();
        if n >= 4 && at as usize <= n - 4 {
            let at: usize = at as usize;
            self.base[at] as u32 + 0x100 * self.base[at + 1] as u32 + 0x1_0000
                * self.base[at + 2] as u32 + 0x100_0000 * self.base[at + 3] as u32
        } else {
            0
        }
    }

    pub fn set_u8(&mut self, at: u32, v: u8)
        ensures
            final(self)@ == put8(old(self)@, at, v),
    {
        if (at as usize) < self.base.len() {
            self.base.set(at as usize, v);
        }
    }

    pub fn set_u16(&mut self, at: u32, v: u16)
        ensures
            final(self)@ == put16(old(self)@, at, v),
    {
        let n: usize = self.base.len();
        if n >= 2 && at as usize <= n - 2 {
            let at: usize = at as usize;
            self.base.set(at, (v % 0x100) as u8);
            self.base.set(at + 1, (v / 0x100) as u8);
        }
    }

    pub fn set_u32(&mut self, at: u32, v: u32)
        ensures
            final(self)@ == put32(old(self)@, at, v),
    {
        let n: usize = self.base.len();
        if n >= 4 && at as usize <= n - 4 {
            let at: usize = at as usize;
            self.base.set(at, (v % 0x100) as u8);
            self.base.set(at + 1, (v / 0x100 % 0x100) as u8);
            self.base.set(at + 2, (v / 0x1_0000 % 0x100) as u8);
            self.base.set(at + 3, (v / 0x100_0000) as u8);
        }
    }

    /// Copy bytes, whether or not the two places overlap.
    pub fn copy(&mut self, dest: u32, src: u32, n: u32)
        ensures
            final(self)@ == copied(old(self)@, dest, src, n),
    {
        let len: usize = self.base.len();
        let count: usize = n as usize;
        if len < count || dest as usize > len - count || src as usize > len - count {
            return;
        }
        let ghost b = self@;
        let dest: usize = dest as usize;
        let src: usize = src as usize;
        if dest <= src {
            let mut i: usize = 0;
            while i < count
                invariant
                    i <= count,
                    dest <= src,
                    src + count <= len,
                    len == self.base.len(),
                    b.len() == len,
                    forall|k: int|
                        0 <= k < len ==> #[trigger] self.base[k] == if dest <= k < dest + i {
                            b[src + (k - dest)]
                        } else {
                            b[k]
                        },
                decreases count - i,
            {
                let v: u8 = self.base[src + i];
                self.base.set(dest + i, v);
                i = i + 1;
            }
        } else {
            let mut i: usize = count;
            while i > 0
                invariant
                    i <= count,
                    dest > src,
                    dest + count <= len,
                    len == self.base.len(),
                    b.len() == len,
                    forall|k: int|
                        0 <= k < len ==> #[trigger] self.base[k] == if dest + i <= k < dest
                            + count {
                            b[src + (k - dest)]
                        } else {
                            b[k]
                        },
                decreases i,
            {
                i = i - 1;
                let v: u8 = self.base[src + i];
                self.base.set(dest + i, v);
            }
        }
        proof {
            assert(self@ =~= copied(b, dest as u32, src as u32, n));
        }
    }

    /// Put two states in each other's place.
    pub fn swap_states(&mut self, x: u32, y: u32)
        ensures
            final(self)@ == swapped(old(self)@, x, y),
    {
        let len: usize = self.base.len();
        let six: usize = STATE as usize;
        if len < six || x as usize > len - six || y as usize > len - six {
            return;
        }
        let ghost b = self@;
        let one: [u8; 6] = self.state(x);
        let other: [u8; 6] = self.state(y);
        self.set_state(y, one);
        self.set_state(x, other);
        proof {
            assert(self@ =~= swapped(b, x, y));
        }
    }

    /// The bytes of a state.
    pub fn state(&self, at: u32) -> (r: [u8; 6])
        ensures
            r@ == state_at(self@, at),
    {
        let len: usize = self.base.len();
        let six: usize = STATE as usize;
        if len < six || at as usize > len - six {
            let r: [u8; 6] = [0, 0, 0, 0, 0, 0];
            assert(r@ =~= state_at(self@, at));
            return r;
        }
        let at: usize = at as usize;
        let r: [u8; 6] = [
            self.base[at],
            self.base[at + 1],
            self.base[at + 2],
            self.base[at + 3],
            self.base[at + 4],
            self.base[at + 5],
        ];
        assert(r@ =~= state_at(self@, at as u32));
        r
    }

    /// Write the bytes of a state.
    pub fn set_state(&mut self, at: u32, v: [u8; 6])
        ensures
            final(self)@ == with_state(old(self)@, at, v@),
    {
        let len: usize = self.base.len();
        let six: usize = STATE as usize;
        if len < six || at as usize > len - six {
            return;
        }
        let ghost b = self@;
        let at: usize = at as usize;
        self.base.set(at, v[0]);
        self.base.set(at + 1, v[1]);
        self.base.set(at + 2, v[2]);
        self.base.set(at + 3, v[3]);
        self.base.set(at + 4, v[4]);
        self.base.set(at + 5, v[5]);
        proof {
            assert(self@ =~= with_state(b, at as u32, v@));
        }
    }
}

/// The tables of block sizes.
pub(crate) struct Sizes {
    indx2units: Vec<u8>,
    units2indx: Vec<u8>,
}

impl Sizes {
    /// The tables hold what the sizes are.
    pub closed spec fn wf(&self) -> bool {
        &&& self.indx2units@.len() == INDEXES
        &&& self.units2indx@.len() == 128
        &&& forall|i: int| 0 <= i < INDEXES ==> #[trigger] self.indx2units@[i] == units_of(i)
        &&& forall|k: int|
            0 <= k < 128 ==> #[trigger] self.units2indx@[k] == index_of((k + 1) as u32)
    }

    pub fn new() -> (r: Self)
        ensures
            r.wf(),
    {
        let mut indx2units: Vec<u8> = Vec::with_capacity(INDEXES);
        let mut units2indx: Vec<u8> = Vec::with_capacity(128);
        let mut i: usize = 0;
        while i < INDEXES
            invariant
                i <= INDEXES,
                indx2units.len() == i,
                units2indx.len() == if i == 0 {
                    0
                } else {
                    units_of(i - 1) as int
                },
                forall|j: int| 0 <= j < i ==> #[trigger] indx2units[j] == units_of(j),
                forall|k: int|
                    0 <= k < units2indx.len() ==> #[trigger] units2indx[k] == index_of(
                        (k + 1) as u32,
                    ),
            decreases INDEXES - i,
        {
            let step: usize = if i >= 12 {
                4
            } else {
                i / 4 + 1
            };
            let ghost start = units2indx.len() as int;
            let mut n: usize = 0;
            while n < step
                invariant
                    n <= step,
                    i < INDEXES,
                    step == if i >= 12 {
                        4
                    } else {
                        i / 4 + 1
                    },
                    start == if i == 0 {
                        0
                    } else {
                        units_of(i - 1) as int
                    },
                    units2indx.len() == start + n,
                    forall|k: int|
                        0 <= k < units2indx.len() ==> #[trigger] units2indx[k] == index_of(
                            (k + 1) as u32,
                        ),
                decreases step - n,
            {
                units2indx.push(i as u8);
                n = n + 1;
            }
            indx2units.push(units2indx.len() as u8);
            i = i + 1;
        }
        Sizes { indx2units, units2indx }
    }

    /// How many units a block of a size has.
    pub fn units_of(&self, index: usize) -> (r: u32)
        requires
            self.wf(),
        ensures
            r == units_of(index as int),
            1 <= r <= 128,
    {
        if index < INDEXES {
            self.indx2units[index] as u32
        } else {
            128
        }
    }

    /// The size of the smallest block with that many units.
    pub fn index_of(&self, nu: u32) -> (r: usize)
        requires
            self.wf(),
        ensures
            r == index_of(nu),
            r < INDEXES,
    {
        if nu == 0 {
            0
        } else if nu <= 128 {
            self.units2indx[nu as usize - 1] as usize
        } else {
            INDEXES - 1
        }
    }
}

/// An adaptive estimate of how often a context is left.
#[derive(Clone, Copy)]
pub struct See {
    /// The sum.
    pub summ: u16,
    /// How far the sum is scaled.
    pub shift: u8,
    /// Until when the scale holds.
    pub count: u8,
}

/// An estimate after a symbol was found.
pub open spec fn see_updated(e: See) -> See {
    if e.shift < 7 {
        let count = e.count.wrapping_sub(1);
        if count == 0 {
            See {
                summ: e.summ.wrapping_add(e.summ),
                count: (3u8 << e.shift) as u8,
                shift: (e.shift + 1) as u8,
            }
        } else {
            See { count, ..e }
        }
    } else {
        e
    }
}

/// What an estimate gives before it is used.
pub open spec fn see_mean(e: See) -> u32 {
    let r = (e.summ >> e.shift) as u32;
    if r == 0 {
        1
    } else {
        r
    }
}

/// An estimate after it is used.
pub open spec fn see_used(e: See) -> See {
    See { summ: e.summ.wrapping_sub(e.summ >> e.shift), ..e }
}

impl See {
    pub(crate) fn update(&mut self)
        ensures
            *final(self) == see_updated(*old(self)),
    {
        if self.shift < 7 {
            self.count = self.count.wrapping_sub(1);
            if self.count == 0 {
                self.summ = self.summ.wrapping_add(self.summ);
                self.count = 3u8 << self.shift;
                self.shift = self.shift + 1;
            }
        }
    }

    pub(crate) fn mean(&mut self) -> (r: u32)
        requires
            old(self).shift < 16,
        ensures
            *final(self) == see_used(*old(self)),
            r == see_mean(*old(self)),
    {
        let r: u16 = self.summ >> self.shift;
        self.summ = self.summ.wrapping_sub(r);
        if r == 0 {
            1
        } else {
            r as u32
        }
    }
}

/// The part of an estimate that is used at once.
pub open spec fn mean_of(summ: u32) -> u32 {
    ((summ + 32) / 128) as u32
}

pub(crate) fn mean(summ: u32) -> (r: u32)
    requires
        summ <= 0xffff,
    ensures
        r == mean_of(summ),
{
    (summ + 32) / 128
}

/// What a symbol that is escaped from costs, by how likely it was.
pub const EXP_ESCAPE: [u8; 16] = [25, 14, 9, 7, 5, 5, 4, 4, 4, 3, 3, 3, 2, 2, 2, 2];

/// The first estimates in contexts of one symbol.
pub const INIT_BIN_ESC: [u16; 8] = [
    0x3CDD,
    0x1F3F,
    0x59BF,
    0x48F3,
    0x64A1,
    0x5ABC,
    0x6632,
    0x6051,
];

/// What is set aside for escapes after one, by how likely the symbol was.
pub open spec fn escape_cost(left: u32) -> u32 {
    if left / 1024 < 16 {
        EXP_ESCAPE[(left / 1024) as int] as u32
    } else {
        2
    }
}

pub(crate) fn cost_of_escape(left: u32) -> (r: u32)
    ensures
        r == escape_cost(left),
{
    let i: usize = (left / 1024) as usize;
    if i < 16 {
        EXP_ESCAPE[i] as u32
    } else {
        2
    }
}

} // verus!
