//! Branch converters and differences, which make code and samples easier to
//! compress.
pub mod bcj2;
pub mod delta;
pub mod pieces;
pub mod scan;
pub mod split;
pub mod targets;
pub mod words;

pub use crate::codecs::bcj::scan::{
    ARM, ARM64, ARM_THUMB, DELTA, IA64, LZMA2, POWERPC, RISCV, SPARC, X86,
};
use crate::codecs::bcj::words::shift;
use crate::utils::bytes;
use crate::utils::bytes::get_le32;
use crate::utils::error::{Error, Result, Unsupported};
use vstd::prelude::*;

verus! {

/// Where the code stands that a branch converter works on.
pub open spec fn start_of(id: u64, props: Seq<u8>) -> std::result::Result<u32, Error> {
    if id == LZMA2 {
        Err(Error::Malformed)
    } else if !scan::is_branch(id) {
        Err(Error::Unsupported(Unsupported::Other))
    } else if props.len() != 0 && props.len() != 4 {
        Err(Error::Malformed)
    } else {
        let start = if props.len() == 0 {
            0
        } else {
            bytes::le(props, 0, 4) as u32
        };
        if start & scan::align_mask(id) != 0 {
            Err(Error::Malformed)
        } else {
            Ok(start)
        }
    }
}

/// What a filter makes of data.
pub open spec fn converted(id: u64, up: bool, props: Seq<u8>, data: Seq<u8>) -> std::result::Result<
    Seq<u8>,
    Error,
> {
    if id == DELTA {
        if props.len() == 0 {
            Err(Error::Malformed)
        } else {
            Ok(delta::converted(up, Seq::empty(), data, props[0] + 1))
        }
    } else {
        match start_of(id, props) {
            Err(e) => Err(e),
            Ok(start) => Ok(scan::scan(id, up, data, 0, start).out),
        }
    }
}

/// What a filter does to data, it undoes the other way.
pub proof fn lemma_back(id: u64, up: bool, props: Seq<u8>, data: Seq<u8>)
    requires
        converted(id, up, props, data) is Ok,
    ensures
        converted(id, !up, props, converted(id, up, props, data)->Ok_0) == Ok::<Seq<u8>, Error>(
            data,
        ),
{
    if id == DELTA {
        delta::lemma_back(up, Seq::empty(), data, props[0] + 1);
    } else {
        scan::lemma_back(id, up, data, 0, start_of(id, props)->Ok_0);
    }
}

/// Undo a filter.
pub fn decode(id: u64, props: &[u8], data: &mut [u8]) -> (r: Result<()>)
    ensures
        match converted(id, false, props@, old(data)@) {
            Ok(out) => r is Ok && final(data)@ == out,
            Err(e) => r == Err::<(), Error>(e) && final(data)@ == old(data)@,
        },
{
    convert(id, props, data, Way::Decode)
}

/// Apply a filter.
pub fn encode(id: u64, props: &[u8], data: &mut [u8]) -> (r: Result<()>)
    ensures
        match converted(id, true, props@, old(data)@) {
            Ok(out) => r is Ok && final(data)@ == out,
            Err(e) => r == Err::<(), Error>(e) && final(data)@ == old(data)@,
        },
{
    convert(id, props, data, Way::Encode)
}

/// How many bytes a filter needs to see at once.
pub fn reserve(id: u64) -> (r: usize)
    ensures
        r == scan::span_of(id),
{
    if id == X86 {
        5
    } else if id == IA64 {
        16
    } else if id == RISCV {
        8
    } else if id == DELTA {
        0
    } else {
        4
    }
}

#[derive(Clone, Copy, PartialEq, Eq, Structural)]
enum Way {
    Encode,
    Decode,
}

impl Way {
    spec fn up(self) -> bool {
        self is Encode
    }

    fn is_up(self) -> (r: bool)
        ensures
            r == self.up(),
    {
        match self {
            Way::Encode => true,
            Way::Decode => false,
        }
    }
}

fn alignment(id: u64) -> (r: Result<u32>)
    ensures
        match r {
            Ok(n) => scan::is_branch(id) && n == scan::align_mask(id) + 1,
            Err(e) => !scan::is_branch(id) && e == if id == LZMA2 {
                Error::Malformed
            } else {
                Error::Unsupported(Unsupported::Other)
            },
        },
{
    if id == X86 {
        Ok(1)
    } else if id == POWERPC || id == ARM || id == SPARC || id == ARM64 {
        Ok(4)
    } else if id == ARM_THUMB || id == RISCV {
        Ok(2)
    } else if id == IA64 {
        Ok(16)
    } else if id == LZMA2 {
        Err(Error::Malformed)
    } else {
        Err(Error::Unsupported(Unsupported::Other))
    }
}

fn distance_of(props: &[u8]) -> (r: Result<usize>)
    ensures
        match r {
            Ok(n) => props@.len() > 0 && n == props@[0] + 1,
            Err(e) => props@.len() == 0 && e == Error::Malformed,
        },
{
    if props.len() == 0 {
        Err(Error::Malformed)
    } else {
        Ok(props[0] as usize + 1)
    }
}

fn start_offset(props: &[u8], alignment: u32) -> (r: Result<u32>)
    requires
        1 <= alignment,
    ensures
        match r {
            Ok(start) => (props@.len() == 0 && start == 0 || props@.len() == 4 && start
                == bytes::le(props@, 0, 4)) && start & ((alignment - 1) as u32) == 0,
            Err(e) => e == Error::Malformed && (props@.len() != 0 && props@.len() != 4
                || props@.len() == 4 && (bytes::le(props@, 0, 4) as u32) & ((alignment - 1) as u32)
                != 0),
        },
{
    let start: u32 = if props.len() == 0 {
        0
    } else if props.len() == 4 {
        get_le32(props, 0)
    } else {
        return Err(Error::Malformed);
    };
    let low: u32 = alignment - 1;
    assert(0u32 & low == 0) by (bit_vector);
    if start & low != 0 {
        return Err(Error::Malformed);
    }
    Ok(start)
}

fn start_for(id: u64, props: &[u8]) -> (r: Result<u32>)
    ensures
        r == start_of(id, props@),
{
    match alignment(id) {
        Err(e) => Err(e),
        Ok(n) => start_offset(props, n),
    }
}

fn convert(id: u64, props: &[u8], data: &mut [u8], way: Way) -> (r: Result<()>)
    ensures
        match converted(id, way.up(), props@, old(data)@) {
            Ok(out) => r is Ok && final(data)@ == out,
            Err(e) => r == Err::<(), Error>(e) && final(data)@ == old(data)@,
        },
{
    if id == DELTA {
        let distance: usize = match distance_of(props) {
            Ok(n) => n,
            Err(e) => {
                return Err(e);
            },
        };
        let mut history: Vec<u8> = Vec::new();
        delta::convert(way.is_up(), &mut history, data, distance);
        return Ok(());
    }
    let start: u32 = match start_for(id, props) {
        Ok(n) => n,
        Err(e) => {
            return Err(e);
        },
    };
    let (_done, _mask) = convert_from(id, data, start, 0, way.is_up());
    Ok(())
}

fn get_le(data: &[u8], at: usize) -> (r: u32)
    requires
        at + 4 <= data.len(),
    ensures
        r == scan::le_at(data@, at as int),
{
    (data[at] as u32) | ((data[at + 1] as u32) << 8) | ((data[at + 2] as u32) << 16) | ((data[at
        + 3] as u32) << 24)
}

fn get_be(data: &[u8], at: usize) -> (r: u32)
    requires
        at + 4 <= data.len(),
    ensures
        r == scan::be_at(data@, at as int),
{
    (data[at + 3] as u32) | ((data[at + 2] as u32) << 8) | ((data[at + 1] as u32) << 16) | ((
    data[at] as u32) << 24)
}

fn put_le(data: &mut [u8], at: usize, x: u32)
    requires
        at + 4 <= old(data).len(),
    ensures
        final(data)@ == old(data)@.take(at as int) + words::le_split(x) + old(data)@.skip(at + 4),
{
    data[at] = #[verifier::truncate]
    (x as u8);
    data[at + 1] = #[verifier::truncate]
    ((x >> 8) as u8);
    data[at + 2] = #[verifier::truncate]
    ((x >> 16) as u8);
    data[at + 3] = #[verifier::truncate]
    ((x >> 24) as u8);
    assert(data@ =~= old(data)@.take(at as int) + words::le_split(x) + old(data)@.skip(at + 4));
}

fn put_be(data: &mut [u8], at: usize, x: u32)
    requires
        at + 4 <= old(data).len(),
    ensures
        final(data)@ == old(data)@.take(at as int) + words::be_split(x) + old(data)@.skip(at + 4),
{
    data[at] = #[verifier::truncate]
    ((x >> 24) as u8);
    data[at + 1] = #[verifier::truncate]
    ((x >> 16) as u8);
    data[at + 2] = #[verifier::truncate]
    ((x >> 8) as u8);
    data[at + 3] = #[verifier::truncate]
    (x as u8);
    assert(data@ =~= old(data)@.take(at as int) + words::be_split(x) + old(data)@.skip(at + 4));
}

/// Whether the bytes from `at` on were replaced as a step replaces them.
spec fn replaced(before: Seq<u8>, after: Seq<u8>, at: int, head: Seq<u8>) -> bool {
    after == before.take(at) + head + before.skip(at + head.len())
}

fn x86_convert(data: &mut [u8], at: usize, mask: u32, pc: u32, up: bool) -> (r: (usize, u32))
    requires
        at + 5 <= old(data).len(),
        mask < 8,
    ensures
        ({
            let (head, next) = scan::x86_step(up, old(data)@.skip(at as int), mask, pc);
            replaced(old(data)@, final(data)@, at as int, head) && r.0 == head.len() && r.1 == next
                && next < 8
        }),
{
    let ghost w = data@.skip(at as int);
    assert(mask < 8 ==> (mask >> 1u32) < 4 && ((mask >> 1u32) | 4) < 8) by (bit_vector);
    let opcode: u8 = data[at];
    assert(w[0] == opcode);
    assert(data@.take(at as int) + w.take(1) + data@.skip(at + 1) =~= data@);
    if opcode & 0xFE != 0xE8 {
        return (1, mask >> 1);
    }
    if mask != 0 && (mask > 4 || mask == 3 || is_top(data[at + (mask >> 1) as usize + 1])) {
        return (1, (mask >> 1) | 4);
    }
    if !is_top(data[at + 4]) {
        return (1, (mask >> 1) | 4);
    }
    let value: u32 = get_le(data, at + 1);
    let current: u32 = shift(true, pc, 5);
    assert(value == scan::le_at(w, 1));
    assert(((mask & 6) << 2u32) < 32 && (mask < 8 ==> ((mask & 6) << 2u32) <= 24)) by (bit_vector);
    let turn: u32 = (mask & 6) << 2;
    let first: u32 = shift(up, value, current);
    let second: u32 = if mask != 0 && is_top(
        #[verifier::truncate]
        ((first >> turn) as u8),
    ) {
        shift(up, first ^ shift(false, 0x100u32 << turn, 1), current)
    } else {
        first
    };
    let moved: u32 = (second & 0x00FF_FFFF) | shift(false, 0, (second >> 24) & 1) << 24;
    put_le(data, at + 1, moved);
    assert(data@ =~= old(data)@.take(at as int) + (seq![w[0]] + words::le_split(moved)) + old(
        data)@.skip(at + 5));
    (5, 0)
}

fn is_top(b: u8) -> (r: bool)
    ensures
        r == words::is_top(b),
{
    b == 0 || b == 0xff
}

fn powerpc_convert(data: &mut [u8], at: usize, pc: u32, up: bool)
    requires
        at + 4 <= old(data).len(),
    ensures
        replaced(
            old(data)@,
            final(data)@,
            at as int,
            words::be_split(words::powerpc_word(up, scan::be_at(old(data)@, at as int), pc)),
        ),
{
    let word: u32 = get_be(data, at);
    let next: u32 = if word & 0xFC00_0003 == 0x4800_0001 {
        0x4800_0001 | (shift(up, word & 0x03FF_FFFC, pc) & 0x03FF_FFFC)
    } else {
        word
    };
    put_be(data, at, next);
}

fn arm_convert(data: &mut [u8], at: usize, pc: u32, up: bool)
    requires
        at + 4 <= old(data).len(),
    ensures
        replaced(
            old(data)@,
            final(data)@,
            at as int,
            words::le_split(words::arm_word(up, scan::le_at(old(data)@, at as int), pc)),
        ),
{
    let word: u32 = get_le(data, at);
    let next: u32 = if word >> 24 == 0xEB {
        0xEB00_0000 | ((shift(up, (word & 0x00FF_FFFF) << 2, shift(true, pc, 8)) >> 2)
            & 0x00FF_FFFF)
    } else {
        word
    };
    put_le(data, at, next);
}

fn arm_thumb_convert(data: &mut [u8], at: usize, pc: u32, up: bool) -> (r: usize)
    requires
        at + 4 <= old(data).len(),
    ensures
        ({
            let word = scan::le_at(old(data)@, at as int);
            if words::is_thumb(word) {
                r == 4 && replaced(
                    old(data)@,
                    final(data)@,
                    at as int,
                    words::le_split(words::thumb_word(up, word, pc)),
                )
            } else {
                r == 2 && final(data)@ == old(data)@
            }
        }),
{
    let word: u32 = get_le(data, at);
    if word & 0xF800_F800 != 0xF800_F000 {
        return 2;
    }
    let source: u32 = (((word & 0x7FF) << 11) | ((word >> 16) & 0x7FF)) << 1;
    let target: u32 = shift(up, source, shift(true, pc, 4)) >> 1;
    put_le(data, at, 0xF800_F000 | ((target >> 11) & 0x7FF) | ((target & 0x7FF) << 16));
    4
}

fn sparc_convert(data: &mut [u8], at: usize, pc: u32, up: bool)
    requires
        at + 4 <= old(data).len(),
    ensures
        replaced(
            old(data)@,
            final(data)@,
            at as int,
            words::be_split(words::sparc_word(up, scan::be_at(old(data)@, at as int), pc)),
        ),
{
    let word: u32 = get_be(data, at);
    let next: u32 = if word >> 22 == 0x100 || word >> 22 == 0x1FF {
        let target: u32 = shift(up, word << 2, pc) >> 2;
        shift(false, 0x4000_0000, target & 0x0040_0000) | 0x4000_0000 | (target & 0x003F_FFFF)
    } else {
        word
    };
    put_be(data, at, next);
}

fn arm64_convert(data: &mut [u8], at: usize, pc: u32, up: bool)
    requires
        at + 4 <= old(data).len(),
    ensures
        replaced(
            old(data)@,
            final(data)@,
            at as int,
            words::le_split(words::arm64_word(up, scan::le_at(old(data)@, at as int), pc)),
        ),
{
    let word: u32 = get_le(data, at);
    let mut next: u32 = word;
    if word >> 26 == 0x25 {
        next = 0x9400_0000 | (shift(up, word & 0x03FF_FFFF, pc >> 2) & 0x03FF_FFFF);
    } else if word & 0x9F00_0000 == 0x9000_0000 {
        let source: u32 = ((word >> 29) & 3) | ((word >> 3) & 0x001F_FFFC);
        if shift(true, source, 0x0002_0000) & 0x001C_0000 == 0 {
            let target: u32 = shift(up, source, pc >> 12);
            let sign: u32 = shift(false, 0, target & 0x0002_0000) & 0x00E0_0000;
            next = (word & 0x9000_001F) | ((target & 3) << 29) | ((target & 0x0003_FFFC) << 3)
                | sign;
        }
    }
    put_le(data, at, next);
}

fn ia64_slot(data: &mut [u8], base: usize, slot: u32, pc: u32, up: bool)
    requires
        base + 16 <= old(data).len(),
        2 <= slot <= 4,
    ensures
        final(data)@ == old(data)@.take(base as int) + scan::ia64_slot(
            up,
            old(data)@.subrange(base as int, base + 16),
            slot,
            pc,
        ) + old(data)@.skip(base + 16),
        final(data)@.len() == old(data)@.len(),
{
    let ghost b = data@.subrange(base as int, base + 16);
    let at: usize = base + (5 * (slot as usize) - 8);
    let ghost k = 5 * slot - 8;
    assert(data@.take(base as int) + b + data@.skip(base + 16) =~= data@);
    let word: u32 = get_le(data, at);
    let before: u8 = data[at - 1];
    assert(word == scan::le_at(b, k) && before == b[k - 1]);
    if ((word >> 24) >> slot) & 0x0F != 5 || (((before as u32) | ((word & 0xff) << 8)) >> slot)
        & 0x70 != 0 {
        return;
    }
    let field: u32 = word >> slot;
    let source: u32 = (field & 0x000F_FFFF) | ((field >> 3) & 0x0010_0000);
    let moved: u32 = shift(up, source << 4, pc) >> 4;
    let target: u32 = shift(true, moved & 0x001F_FFFF, 0x0070_0000) & 0x008F_FFFF;
    put_le(data, at, (word & !(0x008F_FFFFu32 << slot)) | (target << slot));
    assert(data@ =~= old(data)@.take(base as int) + scan::ia64_slot(up, b, slot, pc) + old(
        data)@.skip(base + 16));
}

fn ia64_convert(data: &mut [u8], at: usize, pc: u32, up: bool)
    requires
        at + 16 <= old(data).len(),
    ensures
        replaced(
            old(data)@,
            final(data)@,
            at as int,
            scan::ia64_bundle(up, old(data)@.skip(at as int).take(16), pc),
        ),
{
    let ghost b = data@.skip(at as int).take(16);
    let ghost before = data@;
    assert(b =~= data@.subrange(at as int, at + 16));
    assert(data@ =~= data@.take(at as int) + b + data@.skip(at + 16));
    let template: u8 = data[at];
    let turn: u32 = (template & 0x1E) as u32;
    assert((template & 0x1E) < 32) by (bit_vector);
    let first: u32 = (0x334B_0000u32 >> turn) & 3;
    if first == 0 {
        return;
    }
    if first == 1 {
        ia64_slot(data, at, 2, pc, up);
    }
    let ghost b2 = data@.subrange(at as int, at + 16);
    assert(data@ =~= before.take(at as int) + b2 + before.skip(at + 16));
    if first <= 2 {
        ia64_slot(data, at, 3, pc, up);
    }
    let ghost b3 = data@.subrange(at as int, at + 16);
    assert(data@ =~= before.take(at as int) + b3 + before.skip(at + 16));
    ia64_slot(data, at, 4, pc, up);
    proof {
        let b4 = scan::ia64_slot(up, b3, 4, pc);
        assert(data@ =~= before.take(at as int) + b4 + before.skip(at + 16));
        if first == 1 {
            assert(b2 =~= scan::ia64_slot(up, b, 2, pc));
        } else {
            assert(b2 =~= b);
        }
        if first <= 2 {
            assert(b3 =~= scan::ia64_slot(up, b2, 3, pc));
        } else {
            assert(b3 =~= b2);
        }
    }
}

fn swap(x: u32) -> (r: u32)
    ensures
        r == words::swapped(x),
{
    (x >> 24) | ((x >> 8) & 0xFF00) | ((x << 8) & 0xFF_0000) | (x << 24)
}

fn jal_encode(word: u32, pc: u32) -> (r: u32)
    ensures
        r == words::jal_word(true, word, pc),
{
    let b1: u32 = (word >> 8) & 0xff;
    let b2: u32 = (word >> 16) & 0xff;
    let b3: u32 = word >> 24;
    let address: u32 = shift(
        true,
        ((b1 & 0xF0) << 8) | ((b2 & 0x0F) << 16) | ((b2 & 0x10) << 7) | ((b2 & 0xE0) >> 4) | ((b3
            & 0x7F) << 4) | ((b3 & 0x80) << 13),
        pc,
    );
    (word & 0xff) | (((b1 & 0x0F) | ((address >> 13) & 0xF0)) << 8) | (((address >> 9) & 0xff)
        << 16) | (((address >> 1) & 0xff) << 24)
}

fn jal_decode(word: u32, pc: u32) -> (r: u32)
    ensures
        r == words::jal_word(false, word, pc),
{
    let b1: u32 = (word >> 8) & 0xff;
    let b2: u32 = (word >> 16) & 0xff;
    let b3: u32 = word >> 24;
    let address: u32 = shift(false, ((b1 & 0xF0) << 13) | (b2 << 9) | (b3 << 1), pc);
    (word & 0xff) | (((b1 & 0x0F) | ((address >> 8) & 0xF0)) << 8) | ((((address >> 16) & 0x0F) | ((
    address >> 7) & 0x10) | ((address << 4) & 0xE0)) << 16) | ((((address >> 4) & 0x7F) | ((address
        >> 13) & 0x80)) << 24)
}

fn riscv_encode(first: u32, second: u32, pc: u32) -> (r: (u32, u32))
    ensures
        r.0 == words::pair_first(true, first, second, pc),
        r.1 == words::pair_second(true, first, second, pc),
{
    if first & 0xE80 != 0 {
        let address: u32 = shift(
            true,
            shift(
                true,
                first & 0xFFFF_F000,
                shift(false, second >> 20, (second >> 19) & 0x1000),
            ),
            pc,
        );
        (0x117 | (second << 12), swap(address))
    } else {
        (
            0x17 | ((first >> 27) << 7) | (second & 0xFFFF_F000),
            (first >> 12) | (second << 20),
        )
    }
}

fn riscv_decode(first: u32, second: u32, pc: u32) -> (r: (u32, u32))
    ensures
        r.0 == words::pair_first(false, first, second, pc),
        r.1 == words::pair_second(false, first, second, pc),
{
    if first & 0xE80 != 0 {
        (0x117 | (second << 12), shift(true, first & 0xFFFF_F000, second >> 20))
    } else {
        let address: u32 = shift(false, swap(second), pc);
        (
            0x17 | ((first >> 27) << 7) | (shift(true, address, 0x800) & 0xFFFF_F000),
            (first >> 12) | (address << 20),
        )
    }
}

fn riscv_convert(data: &mut [u8], at: usize, pc: u32, up: bool) -> (r: usize)
    requires
        at + 8 <= old(data).len(),
    ensures
        ({
            let head = scan::riscv_step(up, old(data)@.skip(at as int), pc);
            r == head.len() && replaced(old(data)@, final(data)@, at as int, head)
        }),
{
    let ghost w = data@.skip(at as int);
    let ghost before = data@;
    proof {
        assert(before =~= before.take(at as int) + w.take(2) + before.skip(at + 2));
        assert(before =~= before.take(at as int) + w.take(4) + before.skip(at + 4));
        assert(before =~= before.take(at as int) + w.take(6) + before.skip(at + 6));
    }
    let first: u32 = get_le(data, at);
    let second: u32 = get_le(data, at + 4);
    assert(first == scan::le_at(w, 0) && second == scan::le_at(w, 4));
    if data[at] == 0xEF {
        if !(first & 0xff == 0xEF && first & 0x0D00 == 0) {
            return 2;
        }
        let moved: u32 = if up {
            jal_encode(first, pc)
        } else {
            jal_decode(first, pc)
        };
        put_le(data, at, moved);
        4
    } else if first & 0x7F == 0x17 {
        if first & 0xE80 != 0 {
            if ((first << 8) ^ shift(false, second, 3)) & 0x000F_8003 != 0 {
                return 6;
            }
        } else if (shift(false, first, 0x3117) << 18) >= ((first >> 27) & 0x1D) {
            return 4;
        }
        let (f, s) = if up {
            riscv_encode(first, second, pc)
        } else {
            riscv_decode(first, second, pc)
        };
        put_le(data, at, f);
        put_le(data, at + 4, s);
        assert(data@ =~= before.take(at as int) + (words::le_split(f) + words::le_split(s))
            + before.skip(at + 8));
        8
    } else {
        2
    }
}

#[verifier::rlimit(60)]
#[verifier::spinoff_prover]
fn step(id: u64, data: &mut [u8], at: usize, mask: u32, pc: u32, up: bool) -> (r: (usize, u32))
    requires
        scan::is_branch(id),
        at + scan::span_of(id) <= old(data).len(),
        mask < 8,
    ensures
        ({
            let (head, next) = scan::step(id, up, old(data)@.skip(at as int), mask, pc);
            r.0 == head.len() && r.1 == next && next < 8 && replaced(
                old(data)@,
                final(data)@,
                at as int,
                head,
            )
        }),
{
    reveal(scan::step);
    let ghost w = data@.skip(at as int);
    assert(scan::le_at(w, 0) == scan::le_at(data@, at as int));
    assert(scan::be_at(w, 0) == scan::be_at(data@, at as int));
    assert(data@ =~= data@.take(at as int) + w.take(2) + data@.skip(at + 2));
    if id == X86 {
        x86_convert(data, at, mask, pc, up)
    } else if id == POWERPC {
        powerpc_convert(data, at, pc, up);
        (4, mask)
    } else if id == ARM {
        arm_convert(data, at, pc, up);
        (4, mask)
    } else if id == ARM_THUMB {
        let n: usize = arm_thumb_convert(data, at, pc, up);
        (n, mask)
    } else if id == SPARC {
        sparc_convert(data, at, pc, up);
        (4, mask)
    } else if id == ARM64 {
        arm64_convert(data, at, pc, up);
        (4, mask)
    } else if id == IA64 {
        ia64_convert(data, at, pc, up);
        (16, mask)
    } else {
        let n: usize = riscv_convert(data, at, pc, up);
        (n, mask)
    }
}

/// Convert code that stands at `start`. What comes back is how much is
/// settled, and where the last opcodes stand.
pub(crate) fn convert_from(id: u64, data: &mut [u8], start: u32, mask: u32, up: bool) -> (r: (
    usize,
    u32,
))
    requires
        scan::is_branch(id),
        mask < 8,
    ensures
        ({
            let s = scan::scan(id, up, old(data)@, mask, start);
            final(data)@ == s.out && r.0 == s.done && r.1 == s.mask && r.0 <= old(data)@.len()
                && r.1 < 8
        }),
{
    let ghost given = data@;
    let ghost target = scan::scan(id, up, given, mask, start);
    let need: usize = reserve(id);
    let mut at: usize = 0;
    let mut mask: u32 = mask;
    let mut pc: u32 = start;
    proof {
        assert(given.skip(0) =~= given);
        assert(given.take(0) + target.out =~= target.out);
    }
    while data.len() - at >= need
        invariant
            scan::is_branch(id),
            need == scan::span_of(id),
            at <= data@.len(),
            data@.len() == given.len(),
            mask < 8,
            ({
                let rest = scan::scan(id, up, data@.skip(at as int), mask, pc);
                &&& target.out == data@.take(at as int) + rest.out
                &&& target.done == at + rest.done
                &&& target.mask == rest.mask
            }),
        decreases data@.len() - at,
    {
        let ghost w = data@.skip(at as int);
        let ghost before = data@;
        proof {
            scan::lemma_step_len(id, up, w, mask, pc);
        }
        let ghost head = scan::step(id, up, w, mask, pc).0;
        let (n, next) = step(id, data, at, mask, pc, up);
        proof {
            let rest = scan::scan(id, up, w.skip(n as int), next, words::shifted(
                true,
                pc,
                n as u32,
            ));
            assert(data@.skip(at + n) =~= w.skip(n as int));
            assert(data@.take(at + n) =~= before.take(at as int) + head);
            assert(before.take(at as int) + (head + rest.out) =~= data@.take(at + n) + rest.out);
        }
        pc = shift(true, pc, n as u32);
        mask = next;
        at = at + n;
    }
    assert(data@.take(at as int) + data@.skip(at as int) =~= data@);
    (at, mask)
}

/// A filter that takes its data piece by piece.
pub struct Converter {
    filter: u64,
    distance: usize,
    way: Way,
    position: u32,
    mask: u32,
    history: Vec<u8>,
}

impl Converter {
    /// The filter.
    pub closed spec fn filter(&self) -> u64 {
        self.filter
    }

    /// Whether it applies the filter, rather than undoing it.
    pub closed spec fn up(&self) -> bool {
        self.way.up()
    }

    /// Where the next code stands.
    pub closed spec fn position(&self) -> u32 {
        self.position
    }

    /// Where the last opcodes stand.
    pub closed spec fn mask(&self) -> u32 {
        self.mask
    }

    /// The distance of differences.
    pub closed spec fn distance(&self) -> int {
        self.distance as int
    }

    /// The last bytes that differences were or will be taken from.
    pub closed spec fn history(&self) -> Seq<u8> {
        self.history@
    }

    /// What it carries from one piece to the next.
    pub open spec fn at(&self) -> pieces::At {
        pieces::At {
            history: self.history(),
            mask: self.mask(),
            position: self.position(),
        }
    }

    /// The filter is one that there is.
    pub closed spec fn wf(&self) -> bool {
        &&& self.filter == DELTA || scan::is_branch(self.filter)
        &&& self.filter == DELTA ==> self.distance >= 1
        &&& self.mask < 8
    }

    /// Undo a filter.
    pub fn decode(filter: u64, properties: &[u8]) -> (r: Result<Self>)
        ensures
            opened(r, filter, properties@, false),
    {
        Converter::new(filter, properties, Way::Decode)
    }

    /// Apply a filter.
    pub fn encode(filter: u64, properties: &[u8]) -> (r: Result<Self>)
        ensures
            opened(r, filter, properties@, true),
    {
        Converter::new(filter, properties, Way::Encode)
    }

    fn new(filter: u64, properties: &[u8], way: Way) -> (r: Result<Self>)
        ensures
            opened(r, filter, properties@, way.up()),
    {
        let mut distance: usize = 0;
        let mut position: u32 = 0;
        if filter == DELTA {
            distance = match distance_of(properties) {
                Ok(n) => n,
                Err(e) => {
                    return Err(e);
                },
            };
        } else {
            position = match start_for(filter, properties) {
                Ok(n) => n,
                Err(e) => {
                    return Err(e);
                },
            };
        }
        Ok(Converter { filter, distance, way, position, mask: 0, history: Vec::new() })
    }

    /// How many bytes the filter needs to see at once.
    pub fn reserve(&self) -> (r: usize)
        ensures
            r == scan::span_of(self.filter()),
    {
        reserve(self.filter)
    }

    /// Convert some more data. What comes back is how much of it is settled;
    /// the rest must come again, with more after it. The last piece is settled
    /// whole.
    pub fn convert(&mut self, data: &mut [u8], last: bool) -> (r: usize)
        requires
            old(self).wf(),
        ensures
            final(self).wf(),
            final(self).filter() == old(self).filter(),
            final(self).up() == old(self).up(),
            final(self).distance() == old(self).distance(),
            ({
                let t = pieces::turned(
                    old(self).filter(),
                    old(self).up(),
                    old(self).distance(),
                    old(self).at(),
                    old(data)@,
                    last,
                );
                &&& final(data)@ == t.out
                &&& r == t.done
                &&& final(self).at() == t.next
            }),
    {
        proof {
            delta::lemma_len(self.up(), self.history(), data@, self.distance());
            if self.filter != DELTA {
                scan::lemma_scan_len(self.filter, self.up(), data@, self.mask, self.position);
            }
        }
        if self.filter == DELTA {
            delta::convert(self.way.is_up(), &mut self.history, data, self.distance);
            return data.len();
        }
        let (settled, mask) = convert_from(
            self.filter,
            data,
            self.position,
            self.mask,
            self.way.is_up(),
        );
        self.mask = mask;
        let done: usize = if last {
            data.len()
        } else {
            settled
        };
        let moved: u32 = (done as u64 % 0x1_0000_0000) as u32;
        self.position = shift(true, self.position, moved);
        done
    }
}

/// How a converter is opened.
pub open spec fn opened(r: Result<Converter>, filter: u64, props: Seq<u8>, up: bool) -> bool {
    match r {
        Ok(c) => {
            &&& c.wf()
            &&& c.filter() == filter
            &&& c.up() == up
            &&& c.history() == Seq::<u8>::empty()
            &&& c.mask() == 0
            &&& if filter == DELTA {
                props.len() > 0 && c.distance() == props[0] + 1
            } else {
                start_of(filter, props) == Ok::<u32, Error>(c.position())
            }
        },
        Err(e) => if filter == DELTA {
            props.len() == 0 && e == Error::Malformed
        } else {
            start_of(filter, props) == Err::<u32, Error>(e)
        },
    }
}

} // verus!
