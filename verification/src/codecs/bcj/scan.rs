//! Walking over code and converting the branches in it.
use crate::codecs::bcj::words;
use crate::codecs::bcj::words::shift;
use vstd::prelude::*;

verus! {

/// Differences between bytes.
pub const DELTA: u64 = 0x03;

/// The x86 converter.
pub const X86: u64 = 0x04;

/// The PowerPC converter.
pub const POWERPC: u64 = 0x05;

/// The IA-64 converter.
pub const IA64: u64 = 0x06;

/// The ARM converter.
pub const ARM: u64 = 0x07;

/// The ARM Thumb converter.
pub const ARM_THUMB: u64 = 0x08;

/// The SPARC converter.
pub const SPARC: u64 = 0x09;

/// The ARM64 converter.
pub const ARM64: u64 = 0x0A;

/// The RISC-V converter.
pub const RISCV: u64 = 0x0B;

/// The LZMA2 coder.
pub const LZMA2: u64 = 0x21;

/// Whether a number names a branch converter.
pub open spec fn is_branch(id: u64) -> bool {
    X86 <= id <= RISCV
}

/// How many bytes a converter looks at at once.
pub open spec fn span_of(id: u64) -> int {
    if id == X86 {
        5
    } else if id == IA64 {
        16
    } else if id == RISCV {
        8
    } else if id == DELTA {
        0
    } else {
        4
    }
}

/// One of the bits that say where instructions may stand.
pub open spec fn align_mask(id: u64) -> u32 {
    if id == X86 {
        0
    } else if id == ARM_THUMB || id == RISCV {
        1
    } else if id == IA64 {
        15
    } else {
        3
    }
}

/// The four bytes at `at` as a word.
pub open spec fn le_at(w: Seq<u8>, at: int) -> u32 {
    words::le_word(w[at], w[at + 1], w[at + 2], w[at + 3])
}

/// The four bytes at `at` as a word, the most significant byte first.
pub open spec fn be_at(w: Seq<u8>, at: int) -> u32 {
    words::be_word(w[at], w[at + 1], w[at + 2], w[at + 3])
}

/// Whether x86 code stays as it is where earlier opcodes stand as in `mask`.
pub open spec fn x86_held(w: Seq<u8>, mask: u32) -> bool {
    mask != 0 && (mask > 4 || mask == 3 || words::is_top(w[(mask >> 1u32) as int + 1]))
}

/// What the x86 converter does next.
pub open spec fn x86_step(up: bool, w: Seq<u8>, mask: u32, pc: u32) -> (Seq<u8>, u32) {
    if w[0] & 0xFE != 0xE8 {
        (w.take(1), mask >> 1u32)
    } else if x86_held(w, mask) || !words::is_top(w[4]) {
        (w.take(1), (mask >> 1u32) | 4)
    } else {
        (
            seq![w[0]] + words::le_split(
                words::x86_value(up, le_at(w, 1), words::shifted(true, pc, 5), mask),
            ),
            0,
        )
    }
}

/// A slot of an IA-64 bundle.
pub open spec fn ia64_slot(up: bool, b: Seq<u8>, slot: u32, pc: u32) -> Seq<u8> {
    let at = 5 * slot - 8;
    let word = le_at(b, at);
    if words::is_ia64(b[at - 1], word, slot) {
        b.take(at) + words::le_split(words::ia64_word(up, word, slot, pc)) + b.skip(at + 4)
    } else {
        b
    }
}

/// An IA-64 bundle.
pub open spec fn ia64_bundle(up: bool, b: Seq<u8>, pc: u32) -> Seq<u8> {
    let first = words::ia64_first(b[0]);
    if first == 0 {
        b
    } else {
        let b2 = if first == 1 {
            ia64_slot(up, b, 2, pc)
        } else {
            b
        };
        let b3 = if first <= 2 {
            ia64_slot(up, b2, 3, pc)
        } else {
            b2
        };
        ia64_slot(up, b3, 4, pc)
    }
}

/// What the RISC-V converter does next.
pub open spec fn riscv_step(up: bool, w: Seq<u8>, pc: u32) -> Seq<u8> {
    let first = le_at(w, 0);
    let second = le_at(w, 4);
    if w[0] == 0xEF {
        if words::is_jal(first) {
            words::le_split(words::jal_word(up, first, pc))
        } else {
            w.take(2)
        }
    } else if words::is_auipc(first) {
        if words::pair_moves(first, second) {
            words::le_split(words::pair_first(up, first, second, pc)) + words::le_split(
                words::pair_second(up, first, second, pc),
            )
        } else if words::is_pair(first) {
            w.take(6)
        } else {
            w.take(4)
        }
    } else {
        w.take(2)
    }
}

/// What a converter makes of the first bytes of `w`, which stand at `pc`. The
/// length says how many bytes it went over.
#[verifier::opaque]
pub open spec fn step(id: u64, up: bool, w: Seq<u8>, mask: u32, pc: u32) -> (Seq<u8>, u32) {
    if id == X86 {
        x86_step(up, w, mask, pc)
    } else if id == POWERPC {
        (words::be_split(words::powerpc_word(up, be_at(w, 0), pc)), mask)
    } else if id == ARM {
        (words::le_split(words::arm_word(up, le_at(w, 0), pc)), mask)
    } else if id == ARM_THUMB {
        if words::is_thumb(le_at(w, 0)) {
            (words::le_split(words::thumb_word(up, le_at(w, 0), pc)), mask)
        } else {
            (w.take(2), mask)
        }
    } else if id == SPARC {
        (words::be_split(words::sparc_word(up, be_at(w, 0), pc)), mask)
    } else if id == ARM64 {
        (words::le_split(words::arm64_word(up, le_at(w, 0), pc)), mask)
    } else if id == IA64 {
        (ia64_bundle(up, w.take(16), pc), mask)
    } else {
        (riscv_step(up, w, pc), mask)
    }
}

/// What converting a byte string gives.
#[verifier::ext_equal]
pub struct Scan {
    /// The bytes.
    pub out: Seq<u8>,
    /// How many of them are settled, whatever follows.
    pub done: int,
    /// Where the last opcodes stand.
    pub mask: u32,
}

/// Convert `w`, which stands at `pc`.
pub open spec fn scan(id: u64, up: bool, w: Seq<u8>, mask: u32, pc: u32) -> Scan
    decreases w.len(),
{
    if w.len() < span_of(id) || w.len() == 0 {
        Scan { out: w, done: 0, mask }
    } else {
        let (head, next) = step(id, up, w, mask, pc);
        let n = head.len() as int;
        if 0 < n <= w.len() {
            let rest = scan(id, up, w.skip(n), next, words::shifted(true, pc, n as u32));
            Scan { out: head + rest.out, done: n + rest.done, mask: rest.mask }
        } else {
            Scan { out: w, done: 0, mask }
        }
    }
}

/// A step goes over some bytes, no more than it looks at.
pub proof fn lemma_step_len(id: u64, up: bool, w: Seq<u8>, mask: u32, pc: u32)
    requires
        is_branch(id),
        w.len() >= span_of(id),
    ensures
        1 <= step(id, up, w, mask, pc).0.len() <= span_of(id),
        align_mask(id) == 1 ==> step(id, up, w, mask, pc).0.len() % 2 == 0,
        align_mask(id) == 3 ==> step(id, up, w, mask, pc).0.len() == 4,
        align_mask(id) == 15 ==> step(id, up, w, mask, pc).0.len() == 16,
{
    reveal(step);
}

/// Converting keeps the length.
pub proof fn lemma_scan_len(id: u64, up: bool, w: Seq<u8>, mask: u32, pc: u32)
    requires
        is_branch(id),
    ensures
        scan(id, up, w, mask, pc).out.len() == w.len(),
        0 <= scan(id, up, w, mask, pc).done <= w.len(),
    decreases w.len(),
{
    if w.len() >= span_of(id) {
        lemma_step_len(id, up, w, mask, pc);
        let (head, next) = step(id, up, w, mask, pc);
        let n = head.len() as int;
        lemma_scan_len(id, up, w.skip(n), next, words::shifted(true, pc, n as u32));
    }
}

/// A step depends on no more bytes than it looks at.
pub proof fn lemma_step_local(id: u64, up: bool, w: Seq<u8>, more: Seq<u8>, mask: u32, pc: u32)
    requires
        is_branch(id),
        w.len() >= span_of(id),
        mask < 8,
    ensures
        step(id, up, w + more, mask, pc) == step(id, up, w, mask, pc),
        step(id, up, w, mask, pc).1 < 8,
{
    reveal(step);
    let v = w + more;
    assert(v.take(16) =~= w.take(16) || w.len() < 16);
    assert(v.take(1) =~= w.take(1));
    assert(v.take(2) =~= w.take(2));
    assert(v.take(4) =~= w.take(4));
    assert(v.take(6) =~= w.take(6) || w.len() < 6);
    lemma_mask_bits(mask);
}

/// Code can be converted piece by piece: what is settled stays, and the rest
/// is converted with what follows.
pub proof fn lemma_pieces(id: u64, up: bool, w: Seq<u8>, more: Seq<u8>, mask: u32, pc: u32)
    requires
        is_branch(id),
        mask < 8,
    ensures
        ({
            let part = scan(id, up, w, mask, pc);
            let rest = scan(
                id,
                up,
                w.skip(part.done) + more,
                part.mask,
                words::shifted(true, pc, (part.done % 0x1_0000_0000) as u32),
            );
            let whole = scan(id, up, w + more, mask, pc);
            &&& whole.out == part.out.take(part.done) + rest.out
            &&& whole.mask == rest.mask
            &&& whole.done == part.done + rest.done
            &&& part.out.skip(part.done) == w.skip(part.done)
            &&& part.mask < 8
        }),
    decreases w.len(),
{
    let part = scan(id, up, w, mask, pc);
    let whole = scan(id, up, w + more, mask, pc);
    lemma_scan_len(id, up, w, mask, pc);
    if w.len() < span_of(id) {
        assert(w.skip(0) =~= w);
        assert(part.out.take(0) =~= Seq::<u8>::empty());
        assert(Seq::<u8>::empty() + whole.out =~= whole.out);
        assert(words::shifted(true, pc, 0) == pc) by {
            assert((pc + 0u32) as u32 == pc) by (bit_vector);
        }
    } else {
        lemma_step_len(id, up, w, mask, pc);
        lemma_step_local(id, up, w, more, mask, pc);
        let (head, next) = step(id, up, w, mask, pc);
        let n = head.len() as int;
        let pc2 = words::shifted(true, pc, n as u32);
        assert((w + more).skip(n) =~= w.skip(n) + more);
        lemma_pieces(id, up, w.skip(n), more, next, pc2);
        let sub = scan(id, up, w.skip(n), next, pc2);
        lemma_scan_len(id, up, w.skip(n), next, pc2);
        assert(w.skip(n).skip(sub.done) =~= w.skip(part.done));
        let a = n as u32;
        let b = (sub.done % 0x1_0000_0000) as u32;
        let c = (part.done % 0x1_0000_0000) as u32;
        vstd::arithmetic::div_mod::lemma_add_mod_noop_right(n, sub.done, 0x1_0000_0000);
        assert(c == (a + b) % 0x1_0000_0000);
        assert(((pc + a) as u32 + b) as u32 == (pc + c) as u32) by (bit_vector)
            requires
                c == (a + b) % 0x1_0000_0000,
        ;
        let rest = scan(
            id,
            up,
            w.skip(n).skip(sub.done) + more,
            sub.mask,
            words::shifted(true, pc2, (sub.done % 0x1_0000_0000) as u32),
        );
        assert(part.out.take(part.done) =~= head + sub.out.take(sub.done));
        assert(head + (sub.out.take(sub.done) + rest.out) =~= part.out.take(part.done)
            + rest.out);
        assert(part.out.skip(part.done) =~= sub.out.skip(sub.done));
    }
}

/// Which bytes of converted code the converters still recognise.
pub open spec fn kept(id: u64, mask: u32, a: Seq<u8>, b: Seq<u8>) -> bool {
    &&& a.len() == b.len()
    &&& id == X86 ==> {
        &&& a.len() > 0 ==> a[0] == b[0]
        &&& a.len() > 1 && mask & 1 != 0 ==> words::is_top(a[1]) == words::is_top(b[1])
        &&& a.len() > 2 && mask & 2 != 0 ==> words::is_top(a[2]) == words::is_top(b[2])
        &&& a.len() > 3 && mask & 4 != 0 ==> words::is_top(a[3]) == words::is_top(b[3])
    }
    &&& id == ARM_THUMB && a.len() > 1 ==> a[1] & 0xF8 == b[1] & 0xF8
    &&& id == RISCV && a.len() > 0 ==> a[0] & 0x0F == b[0] & 0x0F
}

proof fn lemma_mask_bits(mask: u32)
    requires
        mask < 8,
    ensures
        (mask >> 1u32) < 4,
        ((mask >> 1u32) | 4) < 8,
        (mask >> 1u32) & 1 != 0 <==> mask & 2 != 0,
        (mask >> 1u32) & 2 != 0 <==> mask & 4 != 0,
        (mask >> 1u32) & 4 == 0,
        ((mask >> 1u32) | 4) & 1 != 0 <==> mask & 2 != 0,
        ((mask >> 1u32) | 4) & 2 != 0 <==> mask & 4 != 0,
        ((mask >> 1u32) | 4) & 4 != 0,
        mask == 0 || mask == 1 || mask == 2 || mask == 4 <==> !(mask != 0 && (mask > 4 || mask
            == 3)),
        mask == 1 ==> mask >> 1u32 == 0 && (mask & 6) << 2u32 == 0 && mask & 1 != 0 && mask & 2 == 0
            && mask & 4 == 0,
        mask == 2 ==> mask >> 1u32 == 1 && (mask & 6) << 2u32 == 8 && mask & 2 != 0 && mask & 1 == 0
            && mask & 4 == 0,
        mask == 4 ==> mask >> 1u32 == 2 && (mask & 6) << 2u32 == 16 && mask & 4 != 0 && mask & 1
            == 0 && mask & 2 == 0,
        mask == 0 ==> mask & 1 == 0 && mask & 2 == 0 && mask & 4 == 0,
{
    assert(mask < 8 ==> (mask >> 1u32) < 4 && ((mask >> 1u32) | 4) < 8 && ((mask >> 1u32) & 1 != 0
        <==> mask & 2 != 0) && ((mask >> 1u32) & 2 != 0 <==> mask & 4 != 0) && (mask >> 1u32) & 4
        == 0 && (((mask >> 1u32) | 4) & 1 != 0 <==> mask & 2 != 0) && (((mask >> 1u32) | 4) & 2 != 0
        <==> mask & 4 != 0) && ((mask >> 1u32) | 4) & 4 != 0 && (mask == 1 ==> mask >> 1u32 == 0 && (
    mask & 6) << 2u32 == 0 && mask & 1 != 0 && mask & 2 == 0 && mask & 4 == 0) && (mask == 2 ==> mask
        >> 1u32 == 1 && (mask & 6) << 2u32 == 8 && mask & 2 != 0 && mask & 1 == 0 && mask & 4 == 0)
        && (mask == 4 ==> mask >> 1u32 == 2 && (mask & 6) << 2u32 == 16 && mask & 4 != 0 && mask & 1
        == 0 && mask & 2 == 0) && (mask == 0 ==> mask & 1 == 0 && mask & 2 == 0 && mask & 4 == 0))
        by (bit_vector);
}

/// The bytes of a split word.
proof fn lemma_split(x: u32)
    ensures
        le_at(words::le_split(x), 0) == x,
        be_at(words::be_split(x), 0) == x,
        forall|a: Seq<u8>, b: Seq<u8>|
            #![trigger a + words::le_split(x) + b]
            le_at(a + words::le_split(x) + b, a.len() as int) == x,
        forall|b: Seq<u8>| #[trigger] le_at(words::le_split(x) + b, 0) == x,
        forall|b: Seq<u8>| #[trigger] be_at(words::be_split(x) + b, 0) == x,
{
    words::lemma_split_word(x);
}

/// One step converted back, given that what follows is recognised.
proof fn lemma_x86_step_back(up: bool, w: Seq<u8>, mask: u32, pc: u32, tail: Seq<u8>)
    requires
        w.len() >= 5,
        mask < 8,
        ({
            let (head, next) = x86_step(up, w, mask, pc);
            kept(X86, next, w.skip(head.len() as int), tail)
        }),
    ensures
        ({
            let (head, next) = x86_step(up, w, mask, pc);
            &&& x86_step(!up, head + tail, mask, pc) == (w.take(head.len() as int), next)
            &&& kept(X86, mask, w, head + tail)
        }),
{
    let (head, next) = x86_step(up, w, mask, pc);
    let v = head + tail;
    lemma_mask_bits(mask);
    let rest = w.skip(head.len() as int);
    if w[0] & 0xFE != 0xE8 || x86_held(w, mask) || !words::is_top(w[4]) {
        assert(head.len() == 1);
        assert(v[0] == w[0]);
        assert(v[1] == tail[0] && w[1] == rest[0]);
        assert(v[2] == tail[1] && w[2] == rest[1]);
        assert(v[3] == tail[2] && w[3] == rest[2]);
        assert(v[4] == tail[3] && w[4] == rest[3]);
        assert(v.take(1) =~= w.take(1));
    } else {
        let value = le_at(w, 1);
        let current = words::shifted(true, pc, 5);
        let moved = words::x86_value(up, value, current, mask);
        words::lemma_word_split(w[1], w[2], w[3], w[4]);
        assert(words::le_split(value) =~= seq![w[1], w[2], w[3], w[4]]);
        assert((value >> 24u32) as u8 == words::le_split(value)[3]);
        assert((value >> 16u32) as u8 == words::le_split(value)[2]);
        assert((value >> 8u32) as u8 == words::le_split(value)[1]);
        assert(value as u8 == words::le_split(value)[0]);
        assert((value >> 0u32) as u8 == value as u8 && (moved >> 0u32) as u8 == moved as u8)
            by (bit_vector);
        words::lemma_x86_back(up, value, current, mask);
        lemma_split(moved);
        assert(v =~= seq![w[0]] + words::le_split(moved) + tail);
        assert(le_at(v, 1) == moved);
        assert(v[1] == moved as u8 && v[2] == (moved >> 8u32) as u8 && v[3] == (moved
            >> 16u32) as u8 && v[4] == (moved >> 24u32) as u8);
        assert(w.take(5) =~= seq![w[0]] + words::le_split(value));
    }
}

proof fn lemma_ia64_slot_back(up: bool, b: Seq<u8>, slot: u32, pc: u32)
    requires
        b.len() == 16,
        2 <= slot <= 4,
        pc & 15 == 0,
    ensures
        ia64_slot(up, b, slot, pc).len() == 16,
        ia64_slot(!up, ia64_slot(up, b, slot, pc), slot, pc) == b,
        forall|i: int|
            0 <= i < 16 && !(5 * slot - 8 <= i < 5 * slot - 4) ==> #[trigger] ia64_slot(
                up,
                b,
                slot,
                pc,
            )[i] == b[i],
{
    let at = 5 * slot - 8;
    let word = le_at(b, at);
    if words::is_ia64(b[at - 1], word, slot) {
        words::lemma_ia64_back(up, b[at - 1], word, slot, pc);
        let moved = words::ia64_word(up, word, slot, pc);
        lemma_split(moved);
        let c = b.take(at) + words::le_split(moved) + b.skip(at + 4);
        assert(le_at(c, at) == moved);
        words::lemma_word_split(b[at], b[at + 1], b[at + 2], b[at + 3]);
        assert(c.take(at) + words::le_split(word) + c.skip(at + 4) =~= b);
    }
}

/// A slot does not depend on the others.
proof fn lemma_ia64_slot_local(up: bool, a: Seq<u8>, b: Seq<u8>, slot: u32, pc: u32)
    requires
        a.len() == 16,
        b.len() == 16,
        2 <= slot <= 4,
        forall|i: int| 5 * slot - 9 <= i < 5 * slot - 4 ==> #[trigger] a[i] == b[i],
    ensures
        forall|i: int|
            5 * slot - 8 <= i < 5 * slot - 4 ==> #[trigger] ia64_slot(up, a, slot, pc)[i]
                == ia64_slot(up, b, slot, pc)[i],
        forall|i: int|
            0 <= i < 16 && !(5 * slot - 8 <= i < 5 * slot - 4) ==> #[trigger] ia64_slot(
                up,
                a,
                slot,
                pc,
            )[i] == a[i],
        ia64_slot(up, a, slot, pc).len() == 16,
{
    let at = 5 * slot - 8;
    assert(a[at - 1] == b[at - 1]);
    assert(a[at] == b[at] && a[at + 1] == b[at + 1] && a[at + 2] == b[at + 2] && a[at + 3] == b[at
        + 3]);
}

proof fn lemma_ia64_back(up: bool, b: Seq<u8>, pc: u32)
    requires
        b.len() == 16,
        pc & 15 == 0,
    ensures
        ia64_bundle(!up, ia64_bundle(up, b, pc), pc) == b,
        ia64_bundle(up, b, pc).len() == 16,
{
    let first = words::ia64_first(b[0]);
    let t = (b[0] & 0x1E) as u32;
    assert((0x334B_0000u32 >> t) & 3 <= 3) by (bit_vector);
    if first != 0 {
        let b2 = if first == 1 {
            ia64_slot(up, b, 2, pc)
        } else {
            b
        };
        let b3 = if first <= 2 {
            ia64_slot(up, b2, 3, pc)
        } else {
            b2
        };
        let b4 = ia64_slot(up, b3, 4, pc);
        lemma_ia64_slot_back(up, b, 2, pc);
        lemma_ia64_slot_back(up, b2, 3, pc);
        lemma_ia64_slot_back(up, b3, 4, pc);
        assert(b4[0] == b[0]);
        let c2 = if first == 1 {
            ia64_slot(!up, b4, 2, pc)
        } else {
            b4
        };
        let c3 = if first <= 2 {
            ia64_slot(!up, c2, 3, pc)
        } else {
            c2
        };
        let c4 = ia64_slot(!up, c3, 4, pc);
        lemma_ia64_slot_local(!up, b4, b2, 2, pc);
        lemma_ia64_slot_local(!up, c2, b3, 3, pc);
        lemma_ia64_slot_local(!up, c3, b4, 4, pc);
        assert(c4 =~= b);
    }
}

#[verifier::rlimit(60)]
#[verifier::spinoff_prover]
proof fn lemma_riscv_step_back(up: bool, w: Seq<u8>, pc: u32, tail: Seq<u8>)
    requires
        w.len() >= 8,
        pc & 1 == 0,
        kept(RISCV, 0, w.skip(riscv_step(up, w, pc).len() as int), tail),
    ensures
        riscv_step(!up, riscv_step(up, w, pc) + tail, pc) == w.take(
            riscv_step(up, w, pc).len() as int,
        ),
        kept(RISCV, 0, w, riscv_step(up, w, pc) + tail),
{
    let head = riscv_step(up, w, pc);
    let v = head + tail;
    let first = le_at(w, 0);
    let second = le_at(w, 4);
    words::lemma_word_split(w[0], w[1], w[2], w[3]);
    words::lemma_word_split(w[4], w[5], w[6], w[7]);
    assert(first as u8 == words::le_split(first)[0]);
    assert(first & 0xff == (first as u8) as u32) by (bit_vector);
    if w[0] == 0xEF {
        if words::is_jal(first) {
            let moved = words::jal_word(up, first, pc);
            words::lemma_jal_back(up, first, pc);
            lemma_split(moved);
            assert(le_at(v, 0) == moved);
            assert(moved & 0xff == (moved as u8) as u32) by (bit_vector);
            assert(v[0] == moved as u8);
            assert(w.take(4) =~= words::le_split(first));
        } else {
            assert(v[0] == w[0] && v[1] == w[1]);
            let other = le_at(v, 0);
            words::lemma_word_split(v[0], v[1], v[2], v[3]);
            lemma_jal_bytes(first);
            lemma_jal_bytes(other);
            assert(v.take(2) =~= w.take(2));
        }
    } else if words::is_auipc(first) {
        if words::pair_moves(first, second) {
            let f = words::pair_first(up, first, second, pc);
            let s = words::pair_second(up, first, second, pc);
            words::lemma_pair_back(up, first, second, pc);
            lemma_split(f);
            lemma_split(s);
            assert(v =~= words::le_split(f) + (words::le_split(s) + tail));
            assert(le_at(v, 0) == f);
            assert(v =~= words::le_split(f) + words::le_split(s) + tail);
            assert(le_at(v, 4) == s);
            assert(v[0] == f as u8);
            assert((f & 0x7F == 0x17 ==> f as u8 != 0xEF && (f as u8) & 0x0F == 7) && (first & 0x7F
                == 0x17 ==> (first as u8) & 0x0F == 7)) by (bit_vector);
            assert(w.take(8) =~= words::le_split(first) + words::le_split(second));
        } else if words::is_pair(first) {
            assert(v[0] == w[0] && v[1] == w[1] && v[2] == w[2] && v[3] == w[3]);
            assert(v[4] == w[4] && v[5] == w[5]);
            assert(v[6] == tail[0] && w[6] == w.skip(6)[0]);
            let other = le_at(v, 4);
            let (c4, c5, c6, c7, d6, d7) = (w[4], w[5], w[6], w[7], v[6], v[7]);
            assert(words::le_word(c4, c5, c6, c7) & 0x000F_FFFF == words::le_word(c4, c5, d6, d7)
                & 0x000F_FFFF) by (bit_vector)
                requires
                    c6 & 0x0F == d6 & 0x0F,
            ;
            words::lemma_pair_fits_local(first, second, other);
            assert(v.take(6) =~= w.take(6));
        } else {
            assert(v[0] == w[0] && v[1] == w[1] && v[2] == w[2] && v[3] == w[3]);
            assert(v.take(4) =~= w.take(4));
        }
    } else {
        assert(v[0] == w[0] && v[1] == w[1]);
        let other = le_at(v, 0);
        words::lemma_word_split(v[0], v[1], v[2], v[3]);
        assert(other as u8 == words::le_split(other)[0]);
        assert(other & 0x7F == ((other as u8) & 0x7F) as u32 && first & 0x7F == ((first as u8)
            & 0x7F) as u32) by (bit_vector);
        assert(v.take(2) =~= w.take(2));
    }
}

/// Whether a word is a jump shows in its first two bytes.
proof fn lemma_jal_bytes(word: u32)
    ensures
        words::is_jal(word) <==> words::le_split(word)[0] == 0xEF && words::le_split(word)[1] & 0x0D
            == 0,
{
    assert((word & 0xff == 0xEF && word & 0x0D00 == 0) <==> (word as u8 == 0xEF && ((word
        >> 8u32) as u8) & 0x0D == 0)) by (bit_vector);
}

proof fn lemma_thumb_step_back(up: bool, w: Seq<u8>, pc: u32, tail: Seq<u8>)
    requires
        w.len() >= 4,
        pc & 1 == 0,
        kept(
            ARM_THUMB,
            0,
            w.skip(step(ARM_THUMB, up, w, 0, pc).0.len() as int),
            tail,
        ),
    ensures
        ({
            let head = step(ARM_THUMB, up, w, 0, pc).0;
            &&& step(ARM_THUMB, !up, head + tail, 0, pc).0 == w.take(head.len() as int)
            &&& kept(ARM_THUMB, 0, w, head + tail)
        }),
{
    reveal(step);
    let head = step(ARM_THUMB, up, w, 0, pc).0;
    let v = head + tail;
    let word = le_at(w, 0);
    words::lemma_word_split(w[0], w[1], w[2], w[3]);
    if words::is_thumb(word) {
        let moved = words::thumb_word(up, word, pc);
        words::lemma_thumb_back(up, word, pc);
        lemma_split(moved);
        assert(le_at(v, 0) == moved);
        assert(v[1] == (moved >> 8u32) as u8);
        assert(w[1] == (word >> 8u32) as u8) by {
            assert(words::le_split(word)[1] == w[1]);
        }
        assert((moved >> 8u32) & 0xF8 == (word >> 8u32) & 0xF8 ==> ((moved >> 8u32) as u8) & 0xF8
            == ((word >> 8u32) as u8) & 0xF8) by (bit_vector);
        assert(w.take(4) =~= words::le_split(word));
    } else {
        assert(v[0] == w[0] && v[1] == w[1]);
        assert(v[3] == tail[1] && w[3] == w.skip(2)[1]);
        let (c0, c1, c2, c3, d2, d3) = (w[0], w[1], w[2], w[3], v[2], v[3]);
        assert(words::is_thumb(words::le_word(c0, c1, c2, c3)) == words::is_thumb(
            words::le_word(c0, c1, d2, d3),
        )) by (bit_vector)
            requires
                c3 & 0xF8 == d3 & 0xF8,
        ;
        assert(v.take(2) =~= w.take(2));
    }
}

proof fn lemma_aligned(pc: u32, n: u32, m: u32)
    requires
        pc & m == 0,
        m == 0 || m == 1 && n % 2 == 0 || m == 3 && n == 4 || m == 15 && n == 16,
    ensures
        words::shifted(true, pc, n) & m == 0,
{
    assert(pc & m == 0 && (m == 0 || m == 1 && n % 2 == 0 || m == 3 && n == 4 || m == 15 && n == 16)
        ==> ((pc + n) as u32) & m == 0) by (bit_vector);
}

/// A step of the converters that look at one instruction at a time.
proof fn lemma_word_step_back(id: u64, up: bool, w: Seq<u8>, pc: u32, tail: Seq<u8>)
    requires
        id == POWERPC || id == ARM || id == SPARC || id == ARM64 || id == IA64,
        w.len() >= span_of(id),
        pc & align_mask(id) == 0,
    ensures
        ({
            let head = step(id, up, w, 0, pc).0;
            step(id, !up, head + tail, 0, pc).0 == w.take(head.len() as int)
        }),
{
    reveal(step);
    let head = step(id, up, w, 0, pc).0;
    let v = head + tail;
    if id == IA64 {
        lemma_ia64_back(up, w.take(16), pc);
        assert(v.take(16) =~= head);
    } else {
        words::lemma_word_split(w[0], w[1], w[2], w[3]);
        words::lemma_word_split(w[3], w[2], w[1], w[0]);
        let le = le_at(w, 0);
        let be = be_at(w, 0);
        if id == POWERPC {
            words::lemma_powerpc_back(up, be, pc);
            lemma_split(words::powerpc_word(up, be, pc));
            assert(be_at(v, 0) == words::powerpc_word(up, be, pc));
            assert(w.take(4) =~= words::be_split(be));
        } else if id == ARM {
            words::lemma_arm_back(up, le, pc);
            lemma_split(words::arm_word(up, le, pc));
            assert(le_at(v, 0) == words::arm_word(up, le, pc));
            assert(w.take(4) =~= words::le_split(le));
        } else if id == SPARC {
            words::lemma_sparc_back(up, be, pc);
            lemma_split(words::sparc_word(up, be, pc));
            assert(be_at(v, 0) == words::sparc_word(up, be, pc));
            assert(w.take(4) =~= words::be_split(be));
        } else {
            words::lemma_arm64_back(up, le, pc);
            lemma_split(words::arm64_word(up, le, pc));
            assert(le_at(v, 0) == words::arm64_word(up, le, pc));
            assert(w.take(4) =~= words::le_split(le));
        }
    }
}

/// One step converted back, given that what follows is recognised.
proof fn lemma_step_back(id: u64, up: bool, w: Seq<u8>, mask: u32, pc: u32, tail: Seq<u8>)
    requires
        is_branch(id),
        w.len() >= span_of(id),
        mask < 8,
        pc & align_mask(id) == 0,
        ({
            let (head, next) = step(id, up, w, mask, pc);
            kept(id, next, w.skip(head.len() as int), tail)
        }),
    ensures
        ({
            let (head, next) = step(id, up, w, mask, pc);
            &&& step(id, !up, head + tail, mask, pc) == (w.take(head.len() as int), next)
            &&& kept(id, mask, w, head + tail)
        }),
{
    lemma_step_len(id, up, w, mask, pc);
    reveal(step);
    if id == X86 {
        lemma_x86_step_back(up, w, mask, pc, tail);
    } else if id == ARM_THUMB {
        lemma_thumb_step_back(up, w, pc, tail);
    } else if id == RISCV {
        lemma_riscv_step_back(up, w, pc, tail);
    } else {
        lemma_word_step_back(id, up, w, pc, tail);
    }
}

/// Converting one way and then the other gives the code back.
pub proof fn lemma_back(id: u64, up: bool, w: Seq<u8>, mask: u32, pc: u32)
    requires
        is_branch(id),
        mask < 8,
        pc & align_mask(id) == 0,
    ensures
        ({
            let there = scan(id, up, w, mask, pc);
            let back = scan(id, !up, there.out, mask, pc);
            &&& back.out == w
            &&& back.done == there.done
            &&& back.mask == there.mask
            &&& kept(id, mask, w, there.out)
        }),
    decreases w.len(),
{
    lemma_scan_len(id, up, w, mask, pc);
    if w.len() >= span_of(id) {
        lemma_step_len(id, up, w, mask, pc);
        lemma_step_local(id, up, w, Seq::empty(), mask, pc);
        let (head, next) = step(id, up, w, mask, pc);
        let n = head.len() as int;
        let pc2 = words::shifted(true, pc, n as u32);
        lemma_aligned(pc, n as u32, align_mask(id));
        lemma_back(id, up, w.skip(n), next, pc2);
        let tail = scan(id, up, w.skip(n), next, pc2).out;
        lemma_scan_len(id, up, w.skip(n), next, pc2);
        let v = head + tail;
        lemma_step_back(id, up, w, mask, pc, tail);
        assert(step(id, !up, v, mask, pc) == (w.take(n), next));
        assert(v.skip(n) =~= tail);
        assert(w.take(n) + w.skip(n) =~= w);
    }
}

} // verus!
