//! Branch instructions as words, and what converting one does to it.
use vstd::prelude::*;

verus! {

/// A target moved up by a position, or down.
pub open spec fn shifted(up: bool, source: u32, position: u32) -> u32 {
    if up {
        (source + position) as u32
    } else {
        (source + (0x1_0000_0000 - position)) as u32
    }
}

/// Whether a byte is all zeros or all ones, as the top byte of a near target.
pub open spec fn is_top(b: u8) -> bool {
    b == 0 || b == 0xff
}

/// A PowerPC branch that links.
pub open spec fn powerpc_word(up: bool, word: u32, pc: u32) -> u32 {
    if word & 0xFC00_0003 == 0x4800_0001 {
        0x4800_0001 | (shifted(up, word & 0x03FF_FFFC, pc) & 0x03FF_FFFC)
    } else {
        word
    }
}

/// An ARM branch that links.
pub open spec fn arm_word(up: bool, word: u32, pc: u32) -> u32 {
    if word >> 24u32 == 0xEB {
        0xEB00_0000 | ((shifted(
            up,
            (word & 0x00FF_FFFF) << 2u32,
            (pc + 8) as u32,
        ) >> 2u32) & 0x00FF_FFFF)
    } else {
        word
    }
}

/// Whether a word is a pair of Thumb halves that make a branch.
pub open spec fn is_thumb(word: u32) -> bool {
    word & 0xF800_F800 == 0xF800_F000
}

/// A Thumb branch that links.
pub open spec fn thumb_word(up: bool, word: u32, pc: u32) -> u32 {
    let source = (((word & 0x7FF) << 11u32) | ((word >> 16u32) & 0x7FF)) << 1u32;
    let target = shifted(up, source, (pc + 4) as u32) >> 1u32;
    0xF800_F000 | ((target >> 11u32) & 0x7FF) | ((target & 0x7FF) << 16u32)
}

/// A SPARC call.
pub open spec fn sparc_word(up: bool, word: u32, pc: u32) -> u32 {
    if word >> 22u32 == 0x100 || word >> 22u32 == 0x1FF {
        let target = shifted(up, word << 2u32, pc) >> 2u32;
        shifted(false, 0x4000_0000, target & 0x0040_0000) | 0x4000_0000 | (target & 0x003F_FFFF)
    } else {
        word
    }
}

/// An ARM64 branch that links, or the address of a page.
pub open spec fn arm64_word(up: bool, word: u32, pc: u32) -> u32 {
    if word >> 26u32 == 0x25 {
        0x9400_0000 | (shifted(up, word & 0x03FF_FFFF, pc >> 2u32) & 0x03FF_FFFF)
    } else if word & 0x9F00_0000 == 0x9000_0000 {
        let source = ((word >> 29u32) & 3) | ((word >> 3u32) & 0x001F_FFFC);
        if shifted(true, source, 0x0002_0000) & 0x001C_0000 == 0 {
            let target = shifted(up, source, pc >> 12u32);
            let sign = shifted(false, 0, target & 0x0002_0000) & 0x00E0_0000;
            (word & 0x9000_001F) | ((target & 3) << 29u32) | ((target & 0x0003_FFFC) << 3u32)
                | sign
        } else {
            word
        }
    } else {
        word
    }
}

/// Which slots of an IA-64 bundle can hold a branch: those after this one.
pub open spec fn ia64_first(template: u8) -> u32 {
    (0x334B_0000u32 >> ((template & 0x1E) as u32)) & 3
}

/// Whether a slot holds a branch, by the byte before its word and the word.
pub open spec fn is_ia64(before: u8, word: u32, slot: u32) -> bool {
    ((word >> 24u32) >> slot) & 0x0F == 5 && (((before as u32) | ((word & 0xff) << 8u32)) >> slot)
        & 0x70 == 0
}

/// An IA-64 branch.
pub open spec fn ia64_word(up: bool, word: u32, slot: u32, pc: u32) -> u32 {
    let field = word >> slot;
    let source = (field & 0x000F_FFFF) | ((field >> 3u32) & 0x0010_0000);
    let moved = shifted(up, source << 4u32, pc) >> 4u32;
    let target = shifted(true, moved & 0x001F_FFFF, 0x0070_0000) & 0x008F_FFFF;
    (word & !(0x008F_FFFFu32 << slot)) | (target << slot)
}

/// The displacement of an x86 call or jump. `shift` is where the byte stands
/// that must not look like a top byte, if there is one.
pub open spec fn x86_value(up: bool, value: u32, current: u32, mask: u32) -> u32 {
    let shift = (mask & 6) << 2u32;
    let first = shifted(up, value, current);
    let second = if mask != 0 && is_top((first >> shift) as u8) {
        shifted(up, first ^ shifted(false, 0x100u32 << shift, 1), current)
    } else {
        first
    };
    (second & 0x00FF_FFFF) | shifted(false, 0, (second >> 24u32) & 1) << 24u32
}

proof fn lemma_wrapped(source: u32, position: u32)
    ensures
        (source + position) as u32 == if source + position > 0xffff_ffff {
            source + position - 0x1_0000_0000
        } else {
            source + position
        },
        (source + (0x1_0000_0000 - position)) as u32 == if source >= position {
            source - position
        } else {
            source - position + 0x1_0000_0000
        },
{
    assert((source + position) as u32 == (if source + position > 0xffff_ffff {
        source + position - 0x1_0000_0000
    } else {
        source + position
    }) && (source + (0x1_0000_0000 - position)) as u32 == (if source >= position {
        source - position
    } else {
        source - position + 0x1_0000_0000
    })) by (bit_vector);
}

/// A target moved by a position.
pub(crate) fn shift(up: bool, source: u32, position: u32) -> (r: u32)
    ensures
        r == shifted(up, source, position),
{
    proof {
        lemma_wrapped(source, position);
    }
    if up {
        source.wrapping_add(position)
    } else {
        source.wrapping_sub(position)
    }
}

/// The word in four bytes, the least significant byte first.
pub open spec fn le_word(b0: u8, b1: u8, b2: u8, b3: u8) -> u32 {
    (b0 as u32) | ((b1 as u32) << 8u32) | ((b2 as u32) << 16u32) | ((b3 as u32) << 24u32)
}

/// The word in four bytes, the most significant byte first.
pub open spec fn be_word(b0: u8, b1: u8, b2: u8, b3: u8) -> u32 {
    le_word(b3, b2, b1, b0)
}

/// The bytes of a word, the least significant byte first.
pub open spec fn le_split(x: u32) -> Seq<u8> {
    seq![x as u8, (x >> 8u32) as u8, (x >> 16u32) as u8, (x >> 24u32) as u8]
}

/// The bytes of a word, the most significant byte first.
pub open spec fn be_split(x: u32) -> Seq<u8> {
    seq![(x >> 24u32) as u8, (x >> 16u32) as u8, (x >> 8u32) as u8, x as u8]
}

/// Bytes as a word and back.
pub proof fn lemma_word_split(b0: u8, b1: u8, b2: u8, b3: u8)
    ensures
        le_split(le_word(b0, b1, b2, b3)) == seq![b0, b1, b2, b3],
        be_split(be_word(b0, b1, b2, b3)) == seq![b0, b1, b2, b3],
        be_split(le_word(b0, b1, b2, b3)) == seq![b3, b2, b1, b0],
{
    let x = le_word(b0, b1, b2, b3);
    assert(x as u8 == b0 && (x >> 8u32) as u8 == b1 && (x >> 16u32) as u8 == b2 && (x >> 24u32) as u8
        == b3) by (bit_vector)
        requires
            x == (b0 as u32) | ((b1 as u32) << 8u32) | ((b2 as u32) << 16u32) | ((b3 as u32)
                << 24u32),
    ;
    let y = le_word(b3, b2, b1, b0);
    assert(y as u8 == b3 && (y >> 8u32) as u8 == b2 && (y >> 16u32) as u8 == b1 && (y >> 24u32) as u8
        == b0) by (bit_vector)
        requires
            y == (b3 as u32) | ((b2 as u32) << 8u32) | ((b1 as u32) << 16u32) | ((b0 as u32)
                << 24u32),
    ;
    assert(le_split(x) =~= seq![b0, b1, b2, b3]);
    assert(be_split(y) =~= seq![b0, b1, b2, b3]);
    assert(be_split(x) =~= seq![b3, b2, b1, b0]);
}

/// A word as bytes and back.
pub proof fn lemma_split_word(x: u32)
    ensures
        le_word(x as u8, (x >> 8u32) as u8, (x >> 16u32) as u8, (x >> 24u32) as u8) == x,
{
    assert(((x as u8) as u32) | (((x >> 8u32) as u8) as u32) << 8u32 | (((x >> 16u32) as u8) as u32)
        << 16u32 | (((x >> 24u32) as u8) as u32) << 24u32 == x) by (bit_vector);
}

pub proof fn lemma_powerpc_back(up: bool, word: u32, pc: u32)
    requires
        pc & 3 == 0,
    ensures
        powerpc_word(!up, powerpc_word(up, word, pc), pc) == word,
{
    assert(pc & 3 == 0 ==> powerpc_word(!up, powerpc_word(up, word, pc), pc) == word)
        by (bit_vector);
}

/// Instructions stand at multiples of four, as does everything before them.
pub proof fn lemma_arm_back(up: bool, word: u32, pc: u32)
    requires
        pc & 3 == 0,
    ensures
        arm_word(!up, arm_word(up, word, pc), pc) == word,
{
    assert(pc & 3 == 0 ==> arm_word(!up, arm_word(up, word, pc), pc) == word) by (bit_vector);
}

pub proof fn lemma_thumb_back(up: bool, word: u32, pc: u32)
    requires
        pc & 1 == 0,
        is_thumb(word),
    ensures
        is_thumb(thumb_word(up, word, pc)),
        thumb_word(!up, thumb_word(up, word, pc), pc) == word,
        (thumb_word(up, word, pc) >> 8u32) & 0xF8 == (word >> 8u32) & 0xF8,
{
    assert(pc & 1 == 0 && is_thumb(word) ==> is_thumb(thumb_word(up, word, pc)) && thumb_word(
        !up,
        thumb_word(up, word, pc),
        pc,
    ) == word && (thumb_word(up, word, pc) >> 8u32) & 0xF8 == (word >> 8u32) & 0xF8)
        by (bit_vector);
}

pub proof fn lemma_sparc_back(up: bool, word: u32, pc: u32)
    requires
        pc & 3 == 0,
    ensures
        sparc_word(!up, sparc_word(up, word, pc), pc) == word,
{
    assert(pc & 3 == 0 ==> sparc_word(!up, sparc_word(up, word, pc), pc) == word) by (bit_vector);
}

pub proof fn lemma_arm64_back(up: bool, word: u32, pc: u32)
    ensures
        arm64_word(!up, arm64_word(up, word, pc), pc) == word,
{
    assert(arm64_word(!up, arm64_word(up, word, pc), pc) == word) by (bit_vector);
}

pub proof fn lemma_ia64_back(up: bool, before: u8, word: u32, slot: u32, pc: u32)
    requires
        pc & 15 == 0,
        2 <= slot <= 4,
        is_ia64(before, word, slot),
    ensures
        is_ia64(before, ia64_word(up, word, slot, pc), slot),
        ia64_word(!up, ia64_word(up, word, slot, pc), slot, pc) == word,
{
    assert(pc & 15 == 0 && 2 <= slot && slot <= 4 && is_ia64(before, word, slot) ==> is_ia64(
        before,
        ia64_word(up, word, slot, pc),
        slot,
    ) && ia64_word(!up, ia64_word(up, word, slot, pc), slot, pc) == word) by (bit_vector);
}

/// The byte that must not look like a top byte does not after converting, and
/// converting back gives the displacement.
pub proof fn lemma_x86_back(up: bool, value: u32, current: u32, mask: u32)
    requires
        mask == 0 || mask == 1 || mask == 2 || mask == 4,
        is_top((value >> 24u32) as u8),
        mask != 0 ==> !is_top((value >> ((mask & 6) << 2u32)) as u8),
    ensures
        is_top((x86_value(up, value, current, mask) >> 24u32) as u8),
        mask != 0 ==> !is_top(
            (x86_value(up, value, current, mask) >> ((mask & 6) << 2u32)) as u8,
        ),
        x86_value(!up, x86_value(up, value, current, mask), current, mask) == value,
{
    assert((mask == 0 || mask == 1 || mask == 2 || mask == 4) && is_top((value >> 24u32) as u8) && (
    mask != 0 ==> !is_top((value >> ((mask & 6) << 2u32)) as u8)) ==> is_top(
        (x86_value(up, value, current, mask) >> 24u32) as u8,
    ) && (mask != 0 ==> !is_top(
        (x86_value(up, value, current, mask) >> ((mask & 6) << 2u32)) as u8,
    )) && x86_value(!up, x86_value(up, value, current, mask), current, mask) == value)
        by (bit_vector);
}

/// Whether a RISC-V word jumps and links through one of the usual registers.
pub open spec fn is_jal(word: u32) -> bool {
    word & 0xff == 0xEF && word & 0x0D00 == 0
}

/// A RISC-V jump that links.
pub open spec fn jal_word(up: bool, word: u32, pc: u32) -> u32 {
    let b1 = (word >> 8u32) & 0xff;
    let b2 = (word >> 16u32) & 0xff;
    let b3 = word >> 24u32;
    if up {
        let address = shifted(
            true,
            ((b1 & 0xF0) << 8u32) | ((b2 & 0x0F) << 16u32) | ((b2 & 0x10) << 7u32) | ((b2 & 0xE0)
                >> 4u32) | ((b3 & 0x7F) << 4u32) | ((b3 & 0x80) << 13u32),
            pc,
        );
        (word & 0xff) | (((b1 & 0x0F) | ((address >> 13u32) & 0xF0)) << 8u32) | (((address >> 9u32)
            & 0xff) << 16u32) | (((address >> 1u32) & 0xff) << 24u32)
    } else {
        let address = shifted(
            false,
            ((b1 & 0xF0) << 13u32) | (b2 << 9u32) | (b3 << 1u32),
            pc,
        );
        (word & 0xff) | (((b1 & 0x0F) | ((address >> 8u32) & 0xF0)) << 8u32) | ((((address
            >> 16u32) & 0x0F) | ((address >> 7u32) & 0x10) | ((address << 4u32) & 0xE0)) << 16u32)
            | ((((address >> 4u32) & 0x7F) | ((address >> 13u32) & 0x80)) << 24u32)
    }
}

/// Whether a RISC-V word adds to the program counter.
pub open spec fn is_auipc(word: u32) -> bool {
    word & 0x7F == 0x17
}

/// Whether such a word names a register that a pair can use.
pub open spec fn is_pair(first: u32) -> bool {
    first & 0xE80 != 0
}

/// Whether the second word of a pair uses the register of the first.
pub open spec fn pair_fits(first: u32, second: u32) -> bool {
    ((first << 8u32) ^ shifted(false, second, 3)) & 0x000F_8003 == 0
}

/// Whether a word that is no pair looks like a rewritten one.
pub open spec fn fake_fits(first: u32) -> bool {
    (shifted(false, first, 0x3117) << 18u32) < ((first >> 27u32) & 0x1D)
}

/// A word with its bytes in the other order.
pub open spec fn swapped(x: u32) -> u32 {
    (x >> 24u32) | ((x >> 8u32) & 0xFF00) | ((x << 8u32) & 0xFF_0000) | (x << 24u32)
}

/// The first word of a pair.
pub open spec fn pair_first(up: bool, first: u32, second: u32, pc: u32) -> u32 {
    if is_pair(first) {
        0x117 | (second << 12u32)
    } else if up {
        0x17 | ((first >> 27u32) << 7u32) | (second & 0xFFFF_F000)
    } else {
        0x17 | ((first >> 27u32) << 7u32) | (shifted(
            true,
            shifted(false, swapped(second), pc),
            0x800,
        ) & 0xFFFF_F000)
    }
}

/// The second word of a pair.
pub open spec fn pair_second(up: bool, first: u32, second: u32, pc: u32) -> u32 {
    if is_pair(first) {
        if up {
            swapped(
                shifted(
                    true,
                    shifted(
                        true,
                        first & 0xFFFF_F000,
                        shifted(false, second >> 20u32, (second >> 19u32) & 0x1000),
                    ),
                    pc,
                ),
            )
        } else {
            shifted(true, first & 0xFFFF_F000, second >> 20u32)
        }
    } else if up {
        (first >> 12u32) | (second << 20u32)
    } else {
        (first >> 12u32) | (shifted(false, swapped(second), pc) << 20u32)
    }
}

/// Whether a pair is rewritten.
pub open spec fn pair_moves(first: u32, second: u32) -> bool {
    is_auipc(first) && if is_pair(first) {
        pair_fits(first, second)
    } else {
        fake_fits(first)
    }
}

pub proof fn lemma_jal_back(up: bool, word: u32, pc: u32)
    requires
        pc & 1 == 0,
        is_jal(word),
    ensures
        is_jal(jal_word(up, word, pc)),
        jal_word(!up, jal_word(up, word, pc), pc) == word,
{
    assert(pc & 1 == 0 && is_jal(word) ==> is_jal(jal_word(up, word, pc)) && jal_word(
        !up,
        jal_word(up, word, pc),
        pc,
    ) == word) by (bit_vector);
}

pub proof fn lemma_pair_back(up: bool, first: u32, second: u32, pc: u32)
    requires
        pair_moves(first, second),
    ensures
        pair_moves(pair_first(up, first, second, pc), pair_second(up, first, second, pc)),
        pair_first(
            !up,
            pair_first(up, first, second, pc),
            pair_second(up, first, second, pc),
            pc,
        ) == first,
        pair_second(
            !up,
            pair_first(up, first, second, pc),
            pair_second(up, first, second, pc),
            pc,
        ) == second,
{
    assert(pair_moves(first, second) ==> pair_moves(
        pair_first(up, first, second, pc),
        pair_second(up, first, second, pc),
    ) && pair_first(
        !up,
        pair_first(up, first, second, pc),
        pair_second(up, first, second, pc),
        pc,
    ) == first && pair_second(
        !up,
        pair_first(up, first, second, pc),
        pair_second(up, first, second, pc),
        pc,
    ) == second) by (bit_vector);
}

/// What follows the first six bytes of a pair matters only in its low half
/// byte.
pub proof fn lemma_pair_fits_local(first: u32, a: u32, b: u32)
    requires
        a & 0x000F_FFFF == b & 0x000F_FFFF,
    ensures
        pair_fits(first, a) == pair_fits(first, b),
{
    assert(a & 0x000F_FFFF == b & 0x000F_FFFF ==> pair_fits(first, a) == pair_fits(first, b))
        by (bit_vector);
}

} // verus!
