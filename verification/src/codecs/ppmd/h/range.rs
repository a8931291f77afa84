//! The range decoder of var. H.
use crate::utils::error::{Error, Result};
use vstd::prelude::*;

verus! {

/// Below this the range is widened.
pub const TOP: u32 = 0x100_0000;

/// How finely a chance between two symbols is given, in bits.
pub const BIN_SHIFT: u32 = 14;

/// The same as a number of steps.
pub const BIN_SCALE: u32 = 16384;

/// A range decoder.
pub struct Coder {
    /// What it reads.
    pub data: Seq<u8>,
    /// How much of it was read.
    pub at: int,
    /// The width of the interval.
    pub range: u32,
    /// Where in the interval the code stands.
    pub code: u32,
    /// Whether it had to read past the end.
    pub dry: bool,
}

/// The next byte, zero past the end.
pub open spec fn next_byte(c: Coder) -> u8 {
    if !c.dry && c.at < c.data.len() {
        c.data[c.at]
    } else {
        0
    }
}

/// After one more byte.
pub open spec fn shifted(c: Coder) -> Coder {
    let more = !c.dry && c.at < c.data.len();
    Coder {
        code: c.code.wrapping_mul(0x100).wrapping_add(next_byte(c) as u32),
        range: c.range.wrapping_mul(0x100),
        at: if more {
            c.at + 1
        } else {
            c.at
        },
        dry: !more,
        ..c
    }
}

/// With the interval widened, at most twice.
pub open spec fn widened(c: Coder) -> Coder {
    if c.range < TOP {
        let d = shifted(c);
        if d.range < TOP {
            shifted(d)
        } else {
            d
        }
    } else {
        c
    }
}

/// With the interval divided into `total` parts.
pub open spec fn divided(c: Coder, total: u32) -> Coder {
    if total == 0 {
        c
    } else {
        Coder { range: c.range / total, ..c }
    }
}

/// The part in which the code stands.
pub open spec fn part(c: Coder, total: u32) -> u32 {
    if total == 0 {
        0
    } else if c.range / total == 0 {
        u32::MAX
    } else {
        c.code / (c.range / total)
    }
}

/// After `size` parts from `start` on.
pub open spec fn taken(c: Coder, start: u32, size: u32) -> Coder {
    widened(
        Coder {
            code: c.code.wrapping_sub(start.wrapping_mul(c.range)),
            range: c.range.wrapping_mul(size),
            ..c
        },
    )
}

/// Where the interval of a zero ends.
pub open spec fn bound(c: Coder, size0: u32) -> u32 {
    (c.range / BIN_SCALE).wrapping_mul(size0)
}

/// After a bit.
pub open spec fn bit_taken(c: Coder, size0: u32) -> Coder {
    let b = bound(c, size0);
    widened(
        if c.code < b {
            Coder { range: b, ..c }
        } else {
            Coder { code: c.code.wrapping_sub(b), range: c.range.wrapping_sub(b), ..c }
        },
    )
}

/// A decoder at the start of its input.
pub open spec fn started(data: Seq<u8>) -> Option<Coder> {
    if data.len() < 5 || data[0] != 0 {
        None
    } else {
        Some(
            Coder {
                data,
                at: 5,
                range: u32::MAX,
                code: (data[1] * 0x100_0000 + data[2] * 0x1_0000 + data[3] * 0x100
                    + data[4]) as u32,
                dry: false,
            },
        )
    }
}

/// Decodes symbols by the intervals that they own.
pub struct RangeDecoder {
    inner: Vec<u8>,
    pos: usize,
    range: u32,
    code: u32,
    exhausted: bool,
}

impl View for RangeDecoder {
    type V = Coder;

    closed spec fn view(&self) -> Coder {
        Coder {
            data: self.inner@,
            at: self.pos as int,
            range: self.range,
            code: self.code,
            dry: self.exhausted,
        }
    }
}

impl RangeDecoder {
    /// Start on `inner`, which opens with a zero byte and four bytes of code.
    pub fn new(inner: Vec<u8>) -> (r: Result<Self>)
        ensures
            match started(inner@) {
                Some(c) => r matches Ok(d) && d@ == c,
                None => r matches Err(e) && e == Error::Malformed,
            },
    {
        if inner.len() < 5 {
            return Err(Error::Malformed);
        }
        if inner[0] != 0 {
            return Err(Error::Malformed);
        }
        let code: u32 = inner[1] as u32 * 0x100_0000 + inner[2] as u32 * 0x1_0000 + inner[3] as u32
            * 0x100 + inner[4] as u32;
        Ok(RangeDecoder { inner, pos: 5, range: u32::MAX, code, exhausted: false })
    }

    /// Whether the code has been used up.
    pub fn is_finished(&self) -> (r: bool)
        ensures
            r == (self@.code == 0),
    {
        self.code == 0
    }

    /// Whether more was read than there is.
    pub fn ran_dry(&self) -> (r: bool)
        ensures
            r == self@.dry,
    {
        self.exhausted
    }

    fn shift(&mut self)
        ensures
            final(self)@ == shifted(old(self)@),
    {
        let mut byte: u8 = 0;
        if !self.exhausted {
            if self.pos < self.inner.len() {
                byte = self.inner[self.pos];
                self.pos = self.pos + 1;
            } else {
                self.exhausted = true;
            }
        }
        self.code = self.code.wrapping_mul(0x100).wrapping_add(byte as u32);
        self.range = self.range.wrapping_mul(0x100);
    }

    fn normalize(&mut self)
        ensures
            final(self)@ == widened(old(self)@),
    {
        if self.range < TOP {
            self.shift();
            if self.range < TOP {
                self.shift();
            }
        }
    }

    /// Divide the interval into `total` parts and tell in which the code
    /// stands.
    pub fn threshold(&mut self, total: u32) -> (r: u32)
        ensures
            final(self)@ == divided(old(self)@, total),
            r == part(old(self)@, total),
    {
        if total == 0 {
            return 0;
        }
        self.range = self.range / total;
        if self.range == 0 {
            return u32::MAX;
        }
        self.code / self.range
    }

    /// Take the interval of `size` parts from `start` on.
    pub fn decode(&mut self, start: u32, size: u32)
        ensures
            final(self)@ == taken(old(self)@, start, size),
    {
        self.code = self.code.wrapping_sub(start.wrapping_mul(self.range));
        self.range = self.range.wrapping_mul(size);
        self.normalize();
    }

    /// Take a bit that is zero with a chance of `size0` in 16384.
    pub fn decode_bit(&mut self, size0: u32) -> (r: u32)
        ensures
            final(self)@ == bit_taken(old(self)@, size0),
            r == if old(self)@.code < bound(old(self)@, size0) {
                0u32
            } else {
                1
            },
    {
        let bound: u32 = (self.range / BIN_SCALE).wrapping_mul(size0);
        let bit: u32 = if self.code < bound {
            self.range = bound;
            0
        } else {
            self.code = self.code.wrapping_sub(bound);
            self.range = self.range.wrapping_sub(bound);
            1
        };
        self.normalize();
        bit
    }
}

} // verus!
