//! Instructions that name their target, and what converting them gives.
//!
//! An instruction names its target by how far it is from the instruction. In
//! converted code it is named by where it is.
use crate::codecs::bcj;
use crate::codecs::bcj::scan;
use crate::codecs::bcj::words;
use crate::codecs::xz::filters;
use crate::utils::bytes;
use crate::utils::error::Error;
use vstd::arithmetic::power2::*;
use vstd::prelude::*;

verus! {

/// The ARM64 branch that links, `imm` words on.
pub open spec fn bl(imm: u32) -> u32 {
    (0x9400_0000 + imm % 0x400_0000) as u32
}

/// A branch that stands at `pc` names the word `pc / 4` on.
pub proof fn lemma_bl(imm: u32, pc: u32)
    requires
        imm < 0x400_0000,
    ensures
        words::arm64_word(true, bl(imm), pc) == bl(((imm + pc / 4) % 0x400_0000) as u32),
        words::arm64_word(false, bl(((imm + pc / 4) % 0x400_0000) as u32), pc) == bl(imm),
{
    assert(imm < 0x400_0000 ==> words::arm64_word(
        true,
        (0x9400_0000 + imm % 0x400_0000) as u32,
        pc,
    ) == (0x9400_0000 + ((imm + pc / 4) % 0x400_0000) as u32 % 0x400_0000) as u32) by (bit_vector);
    words::lemma_arm64_back(true, bl(imm), pc);
}

/// The ARM64 instruction that puts the address of a page into a register,
/// `v` pages on, in 21 bits: two of them above, nineteen below.
pub open spec fn adrp(reg: u32, v: u32) -> u32 {
    (0x9000_0000 + 0x2000_0000 * (v % 4) + 32 * (v / 4) + reg) as u32
}

/// A page less than 512 MiB off is named by its number, in eighteen bits that
/// are extended by their sign; one farther off is left.
pub open spec fn page(v: u32, pc: u32) -> u32 {
    if 0x2_0000 <= v < 0x1E_0000 {
        v
    } else {
        let t = (v + pc / 4096) % 0x4_0000;
        if t < 0x2_0000 {
            t as u32
        } else {
            (t + 0x1C_0000) as u32
        }
    }
}

/// The address of a page that is named at `pc`.
pub proof fn lemma_adrp(reg: u32, v: u32, pc: u32)
    requires
        reg < 32,
        v < 0x20_0000,
    ensures
        words::arm64_word(true, adrp(reg, v), pc) == adrp(reg, page(v, pc)),
        words::arm64_word(false, adrp(reg, page(v, pc)), pc) == adrp(reg, v),
{
    assert(reg < 32 && v < 0x20_0000 ==> words::arm64_word(
        true,
        (0x9000_0000 + 0x2000_0000 * (v % 4) + 32 * (v / 4) + reg) as u32,
        pc,
    ) == (0x9000_0000 + 0x2000_0000 * ((if 0x2_0000 <= v && v < 0x1E_0000 {
        v
    } else if (v + pc / 4096) % 0x4_0000 < 0x2_0000 {
        ((v + pc / 4096) % 0x4_0000) as u32
    } else {
        ((v + pc / 4096) % 0x4_0000 + 0x1C_0000) as u32
    }) % 4) + 32 * ((if 0x2_0000 <= v && v < 0x1E_0000 {
        v
    } else if (v + pc / 4096) % 0x4_0000 < 0x2_0000 {
        ((v + pc / 4096) % 0x4_0000) as u32
    } else {
        ((v + pc / 4096) % 0x4_0000 + 0x1C_0000) as u32
    }) / 4) + reg) as u32) by (bit_vector);
    words::lemma_arm64_back(true, adrp(reg, v), pc);
}

/// The RISC-V jump that links through register `reg`, `o` bytes on in 21 bits:
/// bit 20, bits 1 to 10, bit 11, bits 12 to 19 from the highest bit down.
pub open spec fn jal(reg: u32, o: u32) -> u32 {
    (0x6F + 0x80 * reg + 0x1000 * (o / 0x1000 % 0x100) + 0x10_0000 * (o / 0x800 % 2) + 0x20_0000
        * (o / 2 % 0x400) + 0x8000_0000 * (o / 0x10_0000 % 2)) as u32
}

/// The same with its target, high bits first: four bits, eight and eight.
pub open spec fn jal_converted(reg: u32, a: u32) -> u32 {
    (0x6F + 0x80 * reg + 0x1000 * (a / 0x2_0000 % 0x10) + 0x1_0000 * (a / 0x200 % 0x100)
        + 0x100_0000 * (a / 2 % 0x100)) as u32
}

/// A jump that links through register 1 or 5 and stands at `pc`.
pub proof fn lemma_jal(reg: u32, o: u32, pc: u32)
    requires
        reg == 1 || reg == 5,
        o < 0x20_0000,
        o % 2 == 0,
        pc % 2 == 0,
    ensures
        words::is_jal(jal(reg, o)),
        words::jal_word(true, jal(reg, o), pc) == jal_converted(
            reg,
            ((o + pc) % 0x20_0000) as u32,
        ),
{
    assert((reg == 1 || reg == 5) && o < 0x20_0000 && o % 2 == 0 && pc % 2 == 0 ==> words::is_jal(
        (0x6F + 0x80 * reg + 0x1000 * (o / 0x1000 % 0x100) + 0x10_0000 * (o / 0x800 % 2)
            + 0x20_0000 * (o / 2 % 0x400) + 0x8000_0000 * (o / 0x10_0000 % 2)) as u32,
    ) && words::jal_word(
        true,
        (0x6F + 0x80 * reg + 0x1000 * (o / 0x1000 % 0x100) + 0x10_0000 * (o / 0x800 % 2)
            + 0x20_0000 * (o / 2 % 0x400) + 0x8000_0000 * (o / 0x10_0000 % 2)) as u32,
        pc,
    ) == (0x6F + 0x80 * reg + 0x1000 * (((o + pc) % 0x20_0000) as u32 / 0x2_0000 % 0x10)
        + 0x1_0000 * (((o + pc) % 0x20_0000) as u32 / 0x200 % 0x100) + 0x100_0000 * (((o + pc)
        % 0x20_0000) as u32 / 2 % 0x100)) as u32) by (bit_vector);
}

/// Two RISC-V instructions that together name a target through register
/// `reg`: the first adds its upper twenty bits to where it stands, the second
/// the upper twelve bits of its own, with their sign.
pub open spec fn pair_target(first: u32, second: u32, pc: u32) -> u32 {
    ((first - first % 0x1000 + second / 0x10_0000 + (if second >= 0x8000_0000 {
        0xFFFF_F000int
    } else {
        0
    }) + pc) % 0x1_0000_0000) as u32
}

/// The four bytes of a word from the other end.
pub open spec fn turned(x: u32) -> u32 {
    (x / 0x100_0000 + 0x100 * (x / 0x1_0000 % 0x100) + 0x1_0000 * (x / 0x100 % 0x100) + 0x100_0000
        * (x % 0x100)) as u32
}

/// Such a pair is converted where the register is neither 0 nor 2 and the
/// second uses the register of the first: what is left of the second stands in
/// the first, and the target in the second, the most significant byte first.
pub proof fn lemma_pair(reg: u32, first: u32, second: u32, pc: u32)
    requires
        reg < 32,
        reg != 0 && reg != 2,
        first % 0x1000 == 0x17 + 0x80 * reg,
        second % 4 == 3,
        second / 0x8000 % 32 == reg,
    ensures
        words::pair_moves(first, second),
        words::pair_first(true, first, second, pc) == (0x117 + 0x1000 * (second % 0x10_0000)) as u32,
        words::pair_second(true, first, second, pc) == turned(pair_target(first, second, pc)),
{
    assert(reg < 32 && reg != 0 && reg != 2 && first % 0x1000 == 0x17 + 0x80 * reg && second % 4
        == 3 && second / 0x8000 % 32 == reg ==> words::pair_moves(first, second)
        && words::pair_first(true, first, second, pc) == (0x117 + 0x1000 * (second % 0x10_0000))
        as u32 && words::pair_second(true, first, second, pc) == ({
        let x = ((first - first % 0x1000 + second / 0x10_0000 + (if second >= 0x8000_0000 {
            0xFFFF_F000u32
        } else {
            0u32
        }) + pc) % 0x1_0000_0000) as u32;
        (x / 0x100_0000 + 0x100 * (x / 0x1_0000 % 0x100) + 0x1_0000 * (x / 0x100 % 0x100)
            + 0x100_0000 * (x % 0x100)) as u32
    })) by (bit_vector);
}

/// The page that is named in an xz block: its number less that of the page of
/// the instruction, in eighteen bits without their sign.
pub open spec fn xz_page(v: u32, pc: u32) -> u32 {
    if 0x2_0000 <= v < 0x1E_0000 {
        v
    } else {
        ((v + 0x10_0000 - pc / 4096) % 0x4_0000) as u32
    }
}

/// What the ARM64 filter of an xz block makes of a branch and of the address of
/// a page.
pub proof fn lemma_xz_arm64(imm: u32, reg: u32, v: u32, pc: u32)
    requires
        imm < 0x400_0000,
        reg < 32,
        v < 0x20_0000,
    ensures
        filters::arm64_word(bl(((imm + pc / 4) % 0x400_0000) as u32), pc) == bl(imm),
        filters::arm64_word(adrp(reg, v), pc) == adrp(reg, xz_page(v, pc)),
{
    assert(imm < 0x400_0000 && reg < 32 && v < 0x20_0000 ==> filters::arm64_word(
        (0x9400_0000 + ((imm + pc / 4) % 0x400_0000) as u32 % 0x400_0000) as u32,
        pc,
    ) == (0x9400_0000 + imm % 0x400_0000) as u32 && filters::arm64_word(
        (0x9000_0000 + 0x2000_0000 * (v % 4) + 32 * (v / 4) + reg) as u32,
        pc,
    ) == (0x9000_0000 + 0x2000_0000 * ((if 0x2_0000 <= v && v < 0x1E_0000 {
        v
    } else {
        ((v + 0x10_0000 - pc / 4096) % 0x4_0000) as u32
    }) % 4) + 32 * ((if 0x2_0000 <= v && v < 0x1E_0000 {
        v
    } else {
        ((v + 0x10_0000 - pc / 4096) % 0x4_0000) as u32
    }) / 4) + reg) as u32) by (bit_vector);
}

/// In an xz block an x86 branch that no other opcode stands close before gets
/// its displacement: the difference of the address and of where the next
/// instruction stands, in 25 bits with their sign.
pub proof fn lemma_xz_x86(address: u32, next: u32)
    ensures
        ({
            let r = filters::x86_target(address, next, 0);
            &&& r % 0x200_0000 == (address - next) % 0x200_0000
            &&& r < 0x100_0000 || r >= 0xFF00_0000
        }),
{
    assert(({
        let t = (address + (0x1_0000_0000 - next)) as u32;
        let x = (t & 0x01FF_FFFF) | words::shifted(false, 0, t & 0x0100_0000);
        x % 0x200_0000 == (address + (0x1_0000_0000 - next)) % 0x200_0000 && (x < 0x100_0000 || x
            >= 0xFF00_0000)
    })) by (bit_vector);
}

/// Which RISC-V instructions are looked at: jumps that link through register 1
/// or 5, and those that add to where they stand. Of the latter, one with
/// another register than 0 and 2 makes a pair with an instruction that uses its
/// register; one with register 2 is taken for a converted pair if it looks like
/// one.
pub proof fn lemma_riscv(first: u32, second: u32)
    ensures
        first % 0x100 == 0xEF ==> (words::is_jal(first) <==> first / 0x80 % 32 == 1 || first / 0x80
            % 32 == 5),
        words::is_auipc(first) <==> first % 0x80 == 0x17,
        words::is_pair(first) <==> first / 0x80 % 32 != 0 && first / 0x80 % 32 != 2,
        words::is_auipc(first) && words::is_pair(first) ==> (words::pair_moves(first, second)
            <==> second % 4 == 3 && second / 0x8000 % 32 == first / 0x80 % 32),
        words::is_auipc(first) && !words::is_pair(first) ==> (words::pair_moves(first, second)
            <==> first % 0x4000 == 0x3117 && first / 0x800_0000 != 0 && first / 0x800_0000 != 2),
{
    assert((first % 0x100 == 0xEF ==> (words::is_jal(first) <==> (first / 0x80 % 32 == 1 || first
        / 0x80 % 32 == 5))) && (words::is_auipc(first) <==> first % 0x80 == 0x17) && (
    words::is_pair(first) <==> (first / 0x80 % 32 != 0 && first / 0x80 % 32 != 2)) && (
    words::is_auipc(first) && words::is_pair(first) ==> (words::pair_moves(first, second) <==> (
    second % 4 == 3 && second / 0x8000 % 32 == first / 0x80 % 32))) && (words::is_auipc(first)
        && !words::is_pair(first) ==> (words::pair_moves(first, second) <==> (first % 0x4000
        == 0x3117 && first / 0x800_0000 != 0 && first / 0x800_0000 != 2)))) by (bit_vector);
}

/// How far the RISC-V filter goes on: over an instruction or a pair that it
/// converts, over the first of a pair and half of the second if it does not, and
/// else over the shortest instruction or the one that it looked at.
pub proof fn lemma_riscv_on(up: bool, w: Seq<u8>, pc: u32)
    requires
        w.len() >= 8,
    ensures
        ({
            let first = scan::le_at(w, 0);
            let second = scan::le_at(w, 4);
            let reg = first / 0x80 % 32;
            let n = scan::riscv_step(up, w, pc).len();
            &&& w[0] == 0xEF ==> n == if words::is_jal(first) {
                4nat
            } else {
                2
            }
            &&& w[0] != 0xEF && first % 0x80 != 0x17 ==> n == 2
            &&& w[0] != 0xEF && first % 0x80 == 0x17 && reg != 0 && reg != 2 ==> n == if second % 4
                == 3 && second / 0x8000 % 32 == reg {
                8nat
            } else {
                6
            }
            &&& w[0] != 0xEF && first % 0x80 == 0x17 && (reg == 0 || reg == 2) ==> n == if first
                % 0x4000 == 0x3117 && first / 0x800_0000 != 0 && first / 0x800_0000 != 2 {
                8nat
            } else {
                4
            }
        }),
{
    lemma_riscv(scan::le_at(w, 0), scan::le_at(w, 4));
}

/// The instructions of a machine stand at multiples of this.
pub open spec fn every(id: u64) -> nat {
    if id == scan::X86 {
        1
    } else if id == scan::ARM_THUMB || id == scan::RISCV {
        2
    } else if id == scan::IA64 {
        16
    } else {
        4
    }
}

/// Where the code stands is given in four bytes, the lowest first, and must be
/// where an instruction can stand. Without them it stands at zero.
pub proof fn lemma_start(id: u64, start: u32)
    requires
        scan::is_branch(id),
    ensures
        bcj::start_of(id, bytes::le_bytes(start as nat, 4)) == if start % (every(id) as u32) == 0 {
            Ok::<u32, Error>(start)
        } else {
            Err(Error::Malformed)
        },
        bcj::start_of(id, Seq::empty()) == Ok::<u32, Error>(0),
        filters::start_of(bytes::le_bytes(start as nat, 4)) == Some(start),
        filters::start_of(Seq::empty()) == Some(0u32),
{
    let p = bytes::le_bytes(start as nat, 4);
    bytes::lemma_le_bytes_len(start as nat, 4);
    assert(p.subrange(0, 4) =~= p);
    assert(bytes::span(4) == 0x1_0000_0000) by {
        reveal_with_fuel(bytes::span, 5);
    }
    bytes::lemma_le_round_trip(p, 0, start as nat, 4);
    vstd::bits::lemma_low_bits_mask_values();
    lemma2_to64();
    vstd::bits::lemma_u32_low_bits_mask_is_mod(start, 0);
    vstd::bits::lemma_u32_low_bits_mask_is_mod(start, 1);
    vstd::bits::lemma_u32_low_bits_mask_is_mod(start, 2);
    vstd::bits::lemma_u32_low_bits_mask_is_mod(start, 4);
    vstd::bits::lemma_u32_low_bits_mask_is_mod(0, 0);
    vstd::bits::lemma_u32_low_bits_mask_is_mod(0, 1);
    vstd::bits::lemma_u32_low_bits_mask_is_mod(0, 2);
    vstd::bits::lemma_u32_low_bits_mask_is_mod(0, 4);
}

} // verus!
