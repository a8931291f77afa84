//! The range decoder of var. I.
use crate::utils::error::{Error, Result};
use vstd::prelude::*;

verus! {

/// Where the top byte begins.
pub const TOP: u32 = 0x100_0000;

/// Below this the range is widened by force.
pub const BOT: u32 = 0x8000;

/// How finely a chance between two symbols is given.
pub const BIN_SCALE: u32 = 16384;

/// A range decoder.
pub struct Coder {
    /// What it reads.
    pub data: Seq<u8>,
    /// How much of it was read.
    pub at: int,
    /// The width of the interval.
    pub range: u32,
    /// Where in the interval the code stands.
    pub code: u32,
    /// Where the interval begins.
    pub low: u32,
    /// Whether it had to read past the end.
    pub dry: bool,
}

/// The next byte, zero past the end.
pub open spec fn next_byte(c: Coder) -> u8 {
    if !c.dry && c.at < c.data.len() {
        c.data[c.at]
    } else {
        0
    }
}

/// After one more byte.
pub open spec fn shifted(c: Coder) -> Coder {
    let more = !c.dry && c.at < c.data.len();
    Coder {
        code: c.code.wrapping_mul(0x100).wrapping_add(next_byte(c) as u32),
        range: c.range.wrapping_mul(0x100),
        low: c.low.wrapping_mul(0x100),
        at: if more {
            c.at + 1
        } else {
            c.at
        },
        dry: !more,
        ..c
    }
}

/// Whether the ends of the interval have the same top byte.
pub open spec fn settled(c: Coder) -> bool {
    c.low / TOP == c.low.wrapping_add(c.range) / TOP
}

/// With the interval widened, byte by byte, eight at most.
pub open spec fn widened(c: Coder, fuel: nat) -> Coder
    decreases fuel,
{
    if fuel == 0 || (!settled(c) && c.range >= BOT) {
        c
    } else if settled(c) {
        widened(shifted(c), (fuel - 1) as nat)
    } else {
        widened(
            shifted(Coder { range: 0u32.wrapping_sub(c.low) % BOT, ..c }),
            (fuel - 1) as nat,
        )
    }
}

/// With the interval wide enough.
pub open spec fn normal(c: Coder) -> Coder {
    widened(c, 8)
}

/// With the interval divided into `total` parts.
pub open spec fn divided(c: Coder, total: u32) -> Coder {
    if total == 0 {
        c
    } else {
        Coder { range: c.range / total, ..c }
    }
}

/// The part in which the code stands.
pub open spec fn part(c: Coder, total: u32) -> u32 {
    if total == 0 || c.range / total == 0 {
        u32::MAX
    } else {
        c.code / (c.range / total)
    }
}

/// After `size` parts from `start` on.
pub open spec fn taken(c: Coder, start: u32, size: u32) -> Coder {
    let from = start.wrapping_mul(c.range);
    Coder {
        low: c.low.wrapping_add(from),
        code: c.code.wrapping_sub(from),
        range: c.range.wrapping_mul(size),
        ..c
    }
}

/// After a one, `size0` being the interval of a zero.
pub open spec fn one_taken(c: Coder, size0: u32) -> Coder {
    Coder {
        low: c.low.wrapping_add(size0),
        code: c.code.wrapping_sub(size0),
        range: ((c.range - c.range % BIN_SCALE) as u32).wrapping_sub(size0),
        ..c
    }
}

/// As many parts as the interval has room for.
pub open spec fn corrected(c: Coder, sum: u32) -> u32 {
    if sum > c.range {
        c.range
    } else {
        sum
    }
}

/// A decoder at the start of its input.
pub open spec fn started(data: Seq<u8>) -> Option<Coder> {
    if data.len() < 4 {
        None
    } else {
        let code = (data[0] * 0x100_0000 + data[1] * 0x1_0000 + data[2] * 0x100 + data[3]) as u32;
        if code == u32::MAX {
            None
        } else {
            Some(Coder { data, at: 4, range: u32::MAX, code, low: 0, dry: false })
        }
    }
}

/// Decodes symbols by the intervals that they own.
pub struct RangeDecoder {
    inner: Vec<u8>,
    pos: usize,
    range: u32,
    code: u32,
    low: u32,
    exhausted: bool,
}

impl View for RangeDecoder {
    type V = Coder;

    closed spec fn view(&self) -> Coder {
        Coder {
            data: self.inner@,
            at: self.pos as int,
            range: self.range,
            code: self.code,
            low: self.low,
            dry: self.exhausted,
        }
    }
}

impl RangeDecoder {
    /// Start on `inner`, which opens with four bytes of code.
    pub fn new(inner: Vec<u8>) -> (r: Result<Self>)
        ensures
            match started(inner@) {
                Some(c) => r matches Ok(d) && d@ == c,
                None => r matches Err(e) && e == Error::Malformed,
            },
    {
        if inner.len() < 4 {
            return Err(Error::Malformed);
        }
        let code: u32 = inner[0] as u32 * 0x100_0000 + inner[1] as u32 * 0x1_0000 + inner[2] as u32
            * 0x100 + inner[3] as u32;
        if code == u32::MAX {
            return Err(Error::Malformed);
        }
        Ok(RangeDecoder { inner, pos: 4, range: u32::MAX, code, low: 0, exhausted: false })
    }

    /// Whether the code has been used up.
    pub fn is_finished(&self) -> (r: bool)
        ensures
            r == (self@.code == 0),
    {
        self.code == 0
    }

    /// The width of the interval.
    pub fn range(&self) -> (r: u32)
        ensures
            r == self@.range,
    {
        self.range
    }

    /// Where in the interval the code stands.
    pub fn code(&self) -> (r: u32)
        ensures
            r == self@.code,
    {
        self.code
    }

    /// Set the width of the interval.
    pub fn set_range(&mut self, range: u32)
        ensures
            final(self)@ == (Coder { range, ..old(self)@ }),
    {
        self.range = range;
    }

    fn shift(&mut self)
        ensures
            final(self)@ == shifted(old(self)@),
    {
        let mut byte: u8 = 0;
        if !self.exhausted {
            if self.pos < self.inner.len() {
                byte = self.inner[self.pos];
                self.pos = self.pos + 1;
            } else {
                self.exhausted = true;
            }
        }
        self.code = self.code.wrapping_mul(0x100).wrapping_add(byte as u32);
        self.range = self.range.wrapping_mul(0x100);
        self.low = self.low.wrapping_mul(0x100);
    }

    /// Widen the interval until it is wide enough.
    pub fn normalize(&mut self)
        ensures
            final(self)@ == normal(old(self)@),
    {
        let mut fuel: u32 = 8;
        while fuel > 0
            invariant
                fuel <= 8,
                normal(old(self)@) == widened(self@, fuel as nat),
            decreases fuel,
        {
            if self.low / TOP != self.low.wrapping_add(self.range) / TOP {
                if self.range >= BOT {
                    return;
                }
                self.range = 0u32.wrapping_sub(self.low) % BOT;
            }
            self.shift();
            fuel = fuel - 1;
        }
    }

    /// Widen the interval until it is wide enough.
    pub fn normalize_remote(&mut self)
        ensures
            final(self)@ == normal(old(self)@),
    {
        self.normalize();
    }

    /// Divide the interval into `total` parts and tell in which the code
    /// stands.
    pub fn threshold(&mut self, total: u32) -> (r: u32)
        ensures
            final(self)@ == divided(old(self)@, total),
            r == part(old(self)@, total),
    {
        if total == 0 {
            return u32::MAX;
        }
        self.range = self.range / total;
        if self.range == 0 {
            return u32::MAX;
        }
        self.code / self.range
    }

    /// Take the interval of `size` parts from `start` on.
    pub fn decode(&mut self, start: u32, size: u32)
        ensures
            final(self)@ == taken(old(self)@, start, size),
    {
        let from: u32 = start.wrapping_mul(self.range);
        self.low = self.low.wrapping_add(from);
        self.code = self.code.wrapping_sub(from);
        self.range = self.range.wrapping_mul(size);
    }

    /// Take a one, `size0` being the interval of a zero.
    pub fn decode_bit1(&mut self, size0: u32)
        ensures
            final(self)@ == one_taken(old(self)@, size0),
    {
        self.low = self.low.wrapping_add(size0);
        self.code = self.code.wrapping_sub(size0);
        self.range = (self.range - self.range % BIN_SCALE).wrapping_sub(size0);
    }

    /// Hold a number of parts to what the interval has room for.
    pub fn correct_sum_range(&self, sum: &mut u32)
        ensures
            *final(sum) == corrected(self@, *old(sum)),
    {
        if *sum > self.range {
            *sum = self.range;
        }
    }
}

} // verus!
