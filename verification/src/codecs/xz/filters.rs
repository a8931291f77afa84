//! The filters that an xz block can put before LZMA2.
pub use crate::codecs::bcj::scan::{
    ARM, ARM64, ARM_THUMB, DELTA, IA64, LZMA2, POWERPC, RISCV, SPARC, X86,
};
use crate::codecs::bcj::convert_from;
use crate::codecs::bcj::delta;
use crate::codecs::bcj::scan;
use crate::codecs::bcj::words;
use crate::codecs::bcj::words::shift;
use crate::utils::bytes;
use crate::utils::bytes::get_le32;
use crate::utils::error::{Error, Result, Unsupported};
use vstd::prelude::*;

verus! {

/// Which sets of earlier opcodes let an instruction be converted.
pub open spec fn allowed(mask: u32) -> bool {
    mask == 0 || mask == 1 || mask == 2 || mask == 4
}

/// How far back the earliest of those opcodes stands.
pub open spec fn earliest(mask: u32) -> u32 {
    if mask == 0 {
        0
    } else if mask == 1 {
        1
    } else if mask <= 3 {
        2
    } else {
        3
    }
}

/// The earlier opcodes, seen from `gap` bytes after the last of them.
pub open spec fn seen_from(mask: u32, gap: int) -> u32 {
    if gap == 1 {
        mask & 7
    } else if gap == 2 {
        (mask << 1u32) & 7
    } else if gap == 3 {
        (mask << 2u32) & 7
    } else {
        0
    }
}

/// The displacement of an instruction at `current`.
pub open spec fn x86_target(source: u32, current: u32, mask: u32) -> u32 {
    let first = words::shifted(false, source, current);
    let index = 8 * earliest(mask);
    let target = if mask != 0 && words::is_top((first >> ((24 - index) as u32)) as u8) {
        words::shifted(
            false,
            first ^ words::shifted(false, 1u32 << ((32 - index) as u32), 1),
            current,
        )
    } else {
        first
    };
    (target & 0x01FF_FFFF) | words::shifted(false, 0, target & 0x0100_0000)
}

/// What the x86 filter makes of the next bytes, which stand at `pc`. `gap` is
/// how far back the last opcode stands, `mask` which ones stand before it.
#[verifier::opaque]
pub open spec fn x86_step(w: Seq<u8>, mask: u32, gap: int, pc: u32) -> (Seq<u8>, u32, int) {
    if w[0] & 0xFE != 0xE8 {
        (w.take(1), mask, gap + 1)
    } else {
        let seen = seen_from(mask, gap);
        let kept = (w.take(1), ((seen << 1u32) & 7) | 1, 1int);
        if seen != 0 && (!allowed(seen) || w[4 - earliest(seen)] == 0xFF) {
            kept
        } else if w[4] == 0 || w[4] == 0xFF {
            (
                seq![w[0]] + words::le_split(
                    x86_target(scan::le_at(w, 1), words::shifted(true, pc, 5), seen),
                ),
                0,
                5,
            )
        } else {
            kept
        }
    }
}

/// What the x86 filter makes of code that stands at `pc`.
pub open spec fn x86_decoded(w: Seq<u8>, mask: u32, gap: int, pc: u32) -> Seq<u8>
    decreases w.len(),
{
    if w.len() < 5 {
        w
    } else {
        let (head, next, more) = x86_step(w, mask, gap, pc);
        let n = head.len() as int;
        if 0 < n <= w.len() {
            head + x86_decoded(w.skip(n), next, more, words::shifted(true, pc, n as u32))
        } else {
            w
        }
    }
}

/// An ARM64 branch that links, or the address of a page.
pub open spec fn arm64_word(word: u32, pc: u32) -> u32 {
    if word >> 26u32 == 0x25 {
        0x9400_0000 | (words::shifted(false, word & 0x03FF_FFFF, pc >> 2u32) & 0x03FF_FFFF)
    } else if word & 0x9F00_0000 == 0x9000_0000 {
        let source = ((word >> 29u32) & 3) | ((word >> 3u32) & 0x001F_FFFC);
        if words::shifted(true, source, 0x0002_0000) & 0x001C_0000 == 0 {
            let target = words::shifted(false, source, pc >> 12u32);
            (word & 0x9000_001F) | ((target & 3) << 29u32) | ((target & 0x0003_FFFC) << 3u32)
        } else {
            word
        }
    } else {
        word
    }
}

/// What the ARM64 filter makes of code that stands at `pc`.
pub open spec fn arm64_decoded(w: Seq<u8>, pc: u32) -> Seq<u8>
    decreases w.len(),
{
    if w.len() < 4 {
        w
    } else {
        words::le_split(arm64_word(scan::le_at(w, 0), pc)) + arm64_decoded(
            w.skip(4),
            words::shifted(true, pc, 4),
        )
    }
}

/// Where the code stands that a filter works on.
pub open spec fn start_of(props: Seq<u8>) -> Option<u32> {
    if props.len() == 0 {
        Some(0)
    } else if props.len() == 4 {
        Some(bytes::le(props, 0, 4) as u32)
    } else {
        None
    }
}

/// What a filter stands for.
pub open spec fn decoded(id: u64, props: Seq<u8>, data: Seq<u8>) -> std::result::Result<
    Seq<u8>,
    Error,
> {
    if id == DELTA {
        if props.len() == 0 {
            Err(Error::Malformed)
        } else {
            Ok(delta::converted(false, Seq::empty(), data, props[0] + 1))
        }
    } else if id == X86 || id == POWERPC || id == ARM || id == ARM_THUMB || id == SPARC || id
        == ARM64 {
        match start_of(props) {
            None => Err(Error::Malformed),
            Some(start) => if id == X86 {
                Ok(x86_decoded(data, 0, 0, start))
            } else if id == ARM64 {
                Ok(arm64_decoded(data, start))
            } else {
                Ok(scan::scan(id, false, data, 0, start).out)
            },
        }
    } else if id == LZMA2 {
        Err(Error::Malformed)
    } else {
        Err(Error::Unsupported(Unsupported::Other))
    }
}

/// Undo a filter.
pub fn decode(id: u64, props: &[u8], data: &mut [u8]) -> (r: Result<()>)
    ensures
        match decoded(id, props@, old(data)@) {
            Ok(out) => r is Ok && final(data)@ == out,
            Err(e) => r == Err::<(), Error>(e) && final(data)@ == old(data)@,
        },
{
    if id == DELTA {
        if props.len() == 0 {
            return Err(Error::Malformed);
        }
        let mut history: Vec<u8> = Vec::new();
        delta::convert(false, &mut history, data, props[0] as usize + 1);
        return Ok(());
    }
    if id == X86 || id == POWERPC || id == ARM || id == ARM_THUMB || id == SPARC || id == ARM64 {
        let start: u32 = match start_offset(props) {
            Ok(n) => n,
            Err(e) => {
                return Err(e);
            },
        };
        if id == X86 {
            x86_decode(data, start);
        } else if id == ARM64 {
            arm64_decode(data, start);
        } else {
            let (_done, _mask) = convert_from(id, data, start, 0, false);
        }
        return Ok(());
    }
    if id == LZMA2 {
        return Err(Error::Malformed);
    }
    Err(Error::Unsupported(Unsupported::Other))
}

fn start_offset(props: &[u8]) -> (r: Result<u32>)
    ensures
        match start_of(props@) {
            Some(n) => r == Ok::<u32, Error>(n),
            None => r == Err::<u32, Error>(Error::Malformed),
        },
{
    if props.len() == 0 {
        Ok(0)
    } else if props.len() == 4 {
        Ok(get_le32(props, 0))
    } else {
        Err(Error::Malformed)
    }
}

fn get_word(data: &[u8], at: usize) -> (r: u32)
    requires
        at + 4 <= data.len(),
    ensures
        r == scan::le_at(data@, at as int),
{
    (data[at] as u32) | ((data[at + 1] as u32) << 8) | ((data[at + 2] as u32) << 16) | ((data[at
        + 3] as u32) << 24)
}

fn put_word(data: &mut [u8], at: usize, x: u32)
    requires
        at + 4 <= old(data).len(),
    ensures
        final(data)@ == old(data)@.take(at as int) + words::le_split(x) + old(data)@.skip(at + 4),
{
    data[at] = #[verifier::truncate]
    (x as u8);
    data[at + 1] = #[verifier::truncate]
    ((x >> 8) as u8);
    data[at + 2] = #[verifier::truncate]
    ((x >> 16) as u8);
    data[at + 3] = #[verifier::truncate]
    ((x >> 24) as u8);
    assert(data@ =~= old(data)@.take(at as int) + words::le_split(x) + old(data)@.skip(at + 4));
}

fn earliest_of(mask: u32) -> (r: u32)
    ensures
        r == earliest(mask),
        r <= 3,
{
    if mask == 0 {
        0
    } else if mask == 1 {
        1
    } else if mask <= 3 {
        2
    } else {
        3
    }
}

fn x86_displace(source: u32, current: u32, mask: u32) -> (r: u32)
    ensures
        r == x86_target(source, current, mask),
{
    let first: u32 = shift(false, source, current);
    let index: u32 = 8 * earliest_of(mask);
    let byte: u8 = #[verifier::truncate]
    ((first >> (24 - index)) as u8);
    let target: u32 = if mask != 0 && (byte == 0 || byte == 0xff) {
        shift(false, first ^ shift(false, 1u32 << (32 - index), 1), current)
    } else {
        first
    };
    (target & 0x01FF_FFFF) | shift(false, 0, target & 0x0100_0000)
}

/// One step at `at`: how many bytes it goes over, and the state after it.
fn x86_one(data: &mut [u8], at: usize, mask: u32, gap: usize, pc: u32) -> (r: (usize, u32, usize))
    requires
        at + 5 <= old(data).len(),
        gap <= at,
    ensures
        ({
            let (head, next, more) = x86_step(old(data)@.skip(at as int), mask, gap as int, pc);
            &&& r.0 == head.len()
            &&& r.1 == next
            &&& r.2 == more
            &&& 1 <= r.0 <= 5
            &&& r.2 <= at + r.0
            &&& final(data)@ == old(data)@.take(at as int) + head + old(data)@.skip(at + r.0)
        }),
{
    let ghost w = data@.skip(at as int);
    reveal(x86_step);
    let opcode: u8 = data[at];
    assert(w[0] == opcode);
    assert(data@ =~= data@.take(at as int) + w.take(1) + data@.skip(at + 1));
    if opcode & 0xFE != 0xE8 {
        return (1, mask, gap + 1);
    }
    let seen: u32 = if gap == 1 {
        mask & 7
    } else if gap == 2 {
        (mask << 1) & 7
    } else if gap == 3 {
        (mask << 2) & 7
    } else {
        0
    };
    let near: usize = earliest_of(seen) as usize;
    let held: bool = seen != 0 && (!(seen == 1 || seen == 2 || seen == 4) || data[at + 4 - near]
        == 0xFF);
    if !held && (data[at + 4] == 0 || data[at + 4] == 0xFF) {
        let source: u32 = get_word(data, at + 1);
        assert(source == scan::le_at(w, 1));
        let moved: u32 = x86_displace(source, shift(true, pc, 5), seen);
        put_word(data, at + 1, moved);
        assert(data@ =~= old(data)@.take(at as int) + (seq![w[0]] + words::le_split(moved)) + old(
            data)@.skip(at + 5));
        (5, 0, 5)
    } else {
        (1, ((seen << 1) & 7) | 1, 1)
    }
}

fn x86_decode(data: &mut [u8], start: u32)
    ensures
        final(data)@ == x86_decoded(old(data)@, 0, 0, start),
{
    let ghost given = data@;
    let ghost target = x86_decoded(given, 0, 0, start);
    let mut at: usize = 0;
    let mut mask: u32 = 0;
    let mut gap: usize = 0;
    let mut pc: u32 = start;
    proof {
        assert(given.skip(0) =~= given);
        assert(given.take(0) + target =~= target);
    }
    while data.len() - at >= 5
        invariant
            at <= data@.len(),
            data@.len() == given.len(),
            gap <= at,
            target == data@.take(at as int) + x86_decoded(
                data@.skip(at as int),
                mask,
                gap as int,
                pc,
            ),
        decreases data@.len() - at,
    {
        let ghost w = data@.skip(at as int);
        let ghost before = data@;
        let ghost head = x86_step(w, mask, gap as int, pc).0;
        let (n, next, more) = x86_one(data, at, mask, gap, pc);
        mask = next;
        gap = more;
        pc = shift(true, pc, n as u32);
        at = at + n;
        proof {
            let rest = x86_decoded(w.skip(n as int), next, more as int, pc);
            assert(data@.skip(at as int) =~= w.skip(n as int));
            assert(data@.take(at as int) =~= before.take(at - n) + head);
            assert(before.take(at - n) + (head + rest) =~= data@.take(at as int) + rest);
        }
    }
    assert(data@.take(at as int) + data@.skip(at as int) =~= data@);
}

fn arm64_decode(data: &mut [u8], start: u32)
    ensures
        final(data)@ == arm64_decoded(old(data)@, start),
{
    let ghost given = data@;
    let ghost target = arm64_decoded(given, start);
    let mut at: usize = 0;
    let mut pc: u32 = start;
    proof {
        assert(given.skip(0) =~= given);
        assert(given.take(0) + target =~= target);
    }
    while data.len() - at >= 4
        invariant
            at <= data@.len(),
            data@.len() == given.len(),
            target == data@.take(at as int) + arm64_decoded(data@.skip(at as int), pc),
        decreases data@.len() - at,
    {
        let ghost w = data@.skip(at as int);
        let ghost before = data@;
        let word: u32 = get_word(data, at);
        assert(word == scan::le_at(w, 0));
        let mut next: u32 = word;
        if word >> 26 == 0x25 {
            next = 0x9400_0000 | (shift(false, word & 0x03FF_FFFF, pc >> 2) & 0x03FF_FFFF);
        } else if word & 0x9F00_0000 == 0x9000_0000 {
            let source: u32 = ((word >> 29) & 3) | ((word >> 3) & 0x001F_FFFC);
            if shift(true, source, 0x0002_0000) & 0x001C_0000 == 0 {
                let moved: u32 = shift(false, source, pc >> 12);
                next = (word & 0x9000_001F) | ((moved & 3) << 29) | ((moved & 0x0003_FFFC) << 3);
            }
        }
        put_word(data, at, next);
        pc = shift(true, pc, 4);
        at = at + 4;
        proof {
            let head = words::le_split(next);
            let rest = arm64_decoded(w.skip(4), pc);
            assert(data@.skip(at as int) =~= w.skip(4));
            assert(data@.take(at as int) =~= before.take(at - 4) + head);
            assert(before.take(at - 4) + (head + rest) =~= data@.take(at as int) + rest);
        }
    }
    assert(data@.take(at as int) + data@.skip(at as int) =~= data@);
}

} // verus!
