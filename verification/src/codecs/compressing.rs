//! The strings that the codes of `compress(1)` stand for.
use crate::codecs::compress;
use crate::codecs::compress::{Codes, Kind, Step};
use crate::utils::bits;
use vstd::arithmetic::power2::*;
use vstd::prelude::*;

verus! {

/// How many bits the next code has where `n` codes are known: as many as the
/// number of the next one, at least nine and no more than the stream allows.
pub open spec fn width_for(n: int, most: nat) -> nat {
    if n < 512 {
        9
    } else if bits::log2(n as nat) + 1 > most {
        most
    } else {
        bits::log2(n as nat) + 1
    }
}

/// Whether the codes that are known stand for these strings. Where a code
/// clears the table, it stands for none.
pub open spec fn knows(c: Codes, k: Kind, table: Seq<Seq<u8>>, last: Option<int>) -> bool {
    &&& 9 <= k.max_bits <= 16
    &&& c.next == table.len()
    &&& c.prefix.len() == pow2(k.max_bits)
    &&& c.suffix.len() == pow2(k.max_bits)
    &&& 256 <= table.len() <= pow2(k.max_bits)
    &&& k.block ==> 257 <= table.len()
    &&& c.width == width_for(table.len() as int, k.max_bits)
    &&& match last {
        None => c.previous is None,
        Some(n) => 0 <= n < table.len() && c.previous == Some(n as u16) && !(k.block && n == 256),
    }
    &&& forall|i: int|
        0 <= i < table.len() && !(k.block && i == 256) ==> #[trigger] table[i]
            == compress::expanded(c, k, i)
    &&& forall|i: int|
        0 <= i < table.len() && !compress::is_single(k, i) ==> #[trigger] c.prefix[i] < i && !(
        k.block && c.prefix[i] == 256)
}

/// The strings of the bytes.
pub open spec fn bytes_alone(k: Kind) -> Seq<Seq<u8>> {
    Seq::new(
        if k.block {
            257
        } else {
            256
        },
        |i: int| seq![i as u8],
    )
}

/// What a code stands for: a known string, or the last one with its first
/// byte again.
pub open spec fn string_of(table: Seq<Seq<u8>>, last: Option<int>, code: int) -> Seq<u8> {
    if code < table.len() {
        table[code]
    } else {
        table[last->0].push(table[last->0][0])
    }
}

/// The strings that are known after a code: the last one with the first byte
/// of this one is new, as long as there is room.
pub open spec fn grown(k: Kind, table: Seq<Seq<u8>>, last: Option<int>, code: int) -> Seq<
    Seq<u8>,
> {
    match last {
        None => table,
        Some(n) => if table.len() < pow2(k.max_bits) {
            table.push(table[n].push(string_of(table, last, code)[0]))
        } else {
            table
        },
    }
}

/// Where the next group of eight codes starts, once `j + 1` codes of `width`
/// bits have been read from `base` on.
pub open spec fn next_group(base: int, width: nat, j: int) -> int {
    base + 8 * width * ((j + 8) / 8)
}

proof fn lemma_widths(n: int, most: nat)
    requires
        256 <= n,
        9 <= most <= 16,
    ensures
        width_for(n + 1, most) == if n + 1 >= pow2(width_for(n, most)) && width_for(n, most)
            < most {
            width_for(n, most) + 1
        } else {
            width_for(n, most)
        },
        9 <= width_for(n, most) <= most,
{
    lemma2_to64();
    if n >= 511 {
        let l = bits::log2(n as nat);
        let m = bits::log2((n + 1) as nat);
        bits::lemma_log2(n as nat);
        bits::lemma_log2((n + 1) as nat);
        if n + 1 < pow2(l + 1) {
            bits::lemma_log2_unique((n + 1) as nat, l);
        } else {
            lemma_pow2_unfold(l + 2);
            lemma_pow2_pos(l + 1);
            bits::lemma_log2_unique((n + 1) as nat, l + 1);
        }
        if l < 8 {
            lemma_pow2_strictly_increases(l + 1, 9);
        }
        if l == 8 {
            assert(n < 512);
        } else {
            if n < 512 {
                lemma_pow2_strictly_increases(8, l);
                if l > 9 {
                    lemma_pow2_strictly_increases(9, l);
                }
            }
        }
        if l + 1 > most && most < l {
            lemma_pow2_strictly_increases(most, l);
        }
        if n == 511 {
            bits::lemma_log2_unique(511, 8);
            bits::lemma_log2_unique(512, 9);
        }
    }
}

proof fn lemma_agree(c: Codes, d: Codes, k: Kind, n: int, i: int)
    requires
        0 <= i < n <= c.prefix.len(),
        forall|j: int| 0 <= j < n ==> #[trigger] c.prefix[j] == d.prefix[j],
        forall|j: int| 0 <= j < n ==> #[trigger] c.suffix[j] == d.suffix[j],
    ensures
        compress::expanded(c, k, i) == compress::expanded(d, k, i),
    decreases i,
{
    assert(c.prefix[i] == d.prefix[i] && c.suffix[i] == d.suffix[i]);
    if !compress::is_single(k, i) && c.prefix[i] < i {
        lemma_agree(c, d, k, n, c.prefix[i] as int);
    }
}

proof fn lemma_group(base: int, width: nat, j: int)
    requires
        width > 0,
        j >= 0,
    ensures
        compress::group_end(base, base + (j + 1) * width, width) == next_group(base, width, j),
        next_group(base, width, j) >= base + (j + 1) * width,
{
    let w = width as int;
    let g = 8 * w;
    let n = j + 1;
    let q = n / 8;
    let r = n % 8;
    assert(n * w == q * g + r * w) by (nonlinear_arith)
        requires
            n == 8 * q + r,
            g == 8 * w,
    ;
    assert(0 <= r * w < g) by (nonlinear_arith)
        requires
            0 <= r < 8,
            w > 0,
            g == 8 * w,
    ;
    vstd::arithmetic::div_mod::lemma_fundamental_div_mod_converse(n * w, g, q, r * w);
    assert(r > 0 ==> r * w > 0) by (nonlinear_arith)
        requires
            w > 0,
    ;
    let t = (j + 8) / 8;
    assert(t == if r == 0 {
        q
    } else {
        q + 1
    });
    assert((q + 1) * g == q * g + g) by (nonlinear_arith);
    assert(8 * w * t == t * g) by (nonlinear_arith)
        requires
            g == 8 * w,
    ;
    if r == 0 {
        assert(r * w == 0) by (nonlinear_arith)
            requires
                r == 0,
        ;
    }
}

proof fn lemma_learned(
    c: Codes,
    k: Kind,
    table: Seq<Seq<u8>>,
    last: Option<int>,
    code: int,
    first: u8,
)
    requires
        knows(c, k, table, last),
        0 <= code,
        code < table.len() || code == table.len() && last is Some && table.len() < pow2(k.max_bits),
        !(k.block && code == 256),
        first == string_of(table, last, code)[0],
    ensures
        knows(
            compress::learned(c, k, code, first),
            k,
            grown(k, table, last, code),
            Some(code),
        ),
        compress::learned(c, k, code, first).base == c.base,
{
    let d = compress::learned(c, k, code, first);
    let t = grown(k, table, last, code);
    let n = table.len() as int;
    lemma2_to64();
    if k.max_bits < 16 {
        lemma_pow2_strictly_increases(k.max_bits, 16);
    }
    match last {
        None => {
            assert forall|i: int| 0 <= i < t.len() && !(k.block && i == 256) implies #[trigger] t[i]
                == compress::expanded(d, k, i) by {
                lemma_agree(c, d, k, n, i);
            }
        },
        Some(prev) => {
            if n < pow2(k.max_bits) {
                lemma_widths(n, k.max_bits);
                assert forall|i: int|
                    0 <= i < t.len() && !(k.block && i == 256) implies #[trigger] t[i]
                    == compress::expanded(d, k, i) by {
                    if i < n {
                        lemma_agree(c, d, k, n, i);
                        assert(table[i] == compress::expanded(c, k, i));
                    } else {
                        assert(d.prefix[n] == prev as u16);
                        lemma_agree(c, d, k, n, prev);
                        assert(table[prev] == compress::expanded(c, k, prev));
                    }
                }
                assert forall|i: int|
                    0 <= i < t.len() && !compress::is_single(k, i) implies #[trigger] d.prefix[i]
                    < i && !(k.block && d.prefix[i] == 256) by {
                    if i < n {
                        assert(c.prefix[i] < i);
                    }
                }
            } else {
                assert forall|i: int|
                    0 <= i < t.len() && !(k.block && i == 256) implies #[trigger] t[i]
                    == compress::expanded(d, k, i) by {
                    lemma_agree(c, d, k, n, i);
                }
            }
        },
    }
}

proof fn lemma_rebased(c: Codes, k: Kind, table: Seq<Seq<u8>>, last: Option<int>, base: int)
    requires
        knows(c, k, table, last),
    ensures
        knows(Codes { base, ..c }, k, table, last),
{
    let d = Codes { base, ..c };
    assert forall|i: int| 0 <= i < table.len() && !(k.block && i == 256) implies #[trigger] table[i]
        == compress::expanded(d, k, i) by {
        assert(table[i] == compress::expanded(c, k, i));
        lemma_agree(c, d, k, table.len() as int, i);
    }
}

/// A code. It is the `j`th of its width since the last group started; when the
/// codes get longer, they go on at the start of a group.
pub proof fn lemma_code(
    data: Seq<u8>,
    k: Kind,
    c: Codes,
    out: Seq<u8>,
    table: Seq<Seq<u8>>,
    last: Option<int>,
    j: int,
    code: int,
)
    requires
        knows(c, k, table, last),
        0 <= j,
        0 <= c.base,
        c.base + (j + 1) * c.width <= 8 * data.len(),
        bits::peek(data, c.base + j * c.width, c.width) == code,
        !(k.block && code == 256),
        code < table.len() || code == table.len() && last is Some,
    ensures
        ({
            let p = c.base + j * c.width;
            let s = string_of(table, last, code);
            let t = grown(k, table, last, code);
            compress::step(data, k, c, p) matches Step::Bytes(x, d, q) && x == s && knows(
                d,
                k,
                t,
                Some(code),
            ) && (if d.width == c.width {
                d.base == c.base && q == c.base + (j + 1) * c.width
            } else {
                d.base == q && q == next_group(c.base, c.width, j)
            }) && compress::run(data, k, c, p, out) == compress::run(data, k, d, q, out + s)
        }),
{
    reveal(compress::step);
    let p = c.base + j * c.width;
    let w = c.width as int;
    assert((j + 1) * w == j * w + w) by (nonlinear_arith);
    assert(j * w >= 0) by (nonlinear_arith)
        requires
            j >= 0,
            w >= 0,
    ;
    lemma_widths(table.len() as int, k.max_bits);
    bits::lemma_peek_bound(data, p, c.width);
    if c.width < k.max_bits {
        lemma_pow2_strictly_increases(c.width, k.max_bits);
    }
    assert(code < pow2(k.max_bits));
    lemma2_to64();
    let s = string_of(table, last, code);
    if code < table.len() {
        assert(table[code] == compress::expanded(c, k, code));
    } else {
        assert(table[last->0] == compress::expanded(c, k, last->0));
    }
    assert(compress::piece(c, k, code) == Some(s));
    lemma_learned(c, k, table, last, code, s[0]);
    lemma_group(c.base, c.width, j);
    lemma_rebased(
        compress::learned(c, k, code, s[0]),
        k,
        grown(k, table, last, code),
        Some(code),
        next_group(c.base, c.width, j),
    );
}

/// A code that clears the table: the bytes are known again, and the codes go
/// on at the start of a group.
pub proof fn lemma_clear(
    data: Seq<u8>,
    k: Kind,
    c: Codes,
    out: Seq<u8>,
    table: Seq<Seq<u8>>,
    last: Option<int>,
    j: int,
)
    requires
        knows(c, k, table, last),
        k.block,
        0 <= j,
        0 <= c.base,
        c.base + (j + 1) * c.width <= 8 * data.len(),
        bits::peek(data, c.base + j * c.width, c.width) == 256,
    ensures
        ({
            let p = c.base + j * c.width;
            compress::step(data, k, c, p) matches Step::Cleared(d, q) && knows(
                d,
                k,
                table.take(257),
                None,
            ) && d.base == q && q == next_group(c.base, c.width, j) && compress::run(
                data,
                k,
                c,
                p,
                out,
            ) == compress::run(data, k, d, q, out)
        }),
{
    reveal(compress::step);
    let p = c.base + j * c.width;
    let w = c.width as int;
    assert((j + 1) * w == j * w + w) by (nonlinear_arith);
    assert(j * w >= 0) by (nonlinear_arith)
        requires
            j >= 0,
            w >= 0,
    ;
    lemma_widths(table.len() as int, k.max_bits);
    lemma_group(c.base, c.width, j);
    let q = next_group(c.base, c.width, j);
    let d = Codes { base: q, ..compress::cleared(c) };
    let t = table.take(257);
    assert forall|i: int| 0 <= i < t.len() && !(k.block && i == 256) implies #[trigger] t[i]
        == compress::expanded(d, k, i) by {
        assert(table[i] == compress::expanded(c, k, i));
        lemma_agree(c, d, k, 257, i);
    }
}

/// The bytes stay known.
pub proof fn lemma_bytes_stay(
    k: Kind,
    table: Seq<Seq<u8>>,
    last: Option<int>,
    code: int,
)
    requires
        table.len() >= 257,
        table.take(257) == bytes_alone(k),
    ensures
        grown(k, table, last, code).len() >= 257,
        grown(k, table, last, code).take(257) == bytes_alone(k),
{
    assert(grown(k, table, last, code).take(257) =~= table.take(257));
}

/// At the start the bytes are known, and codes have nine bits.
pub proof fn lemma_start(k: Kind)
    requires
        9 <= k.max_bits <= 16,
    ensures
        knows(compress::start_codes(k), k, bytes_alone(k), None),
        compress::start_codes(k).base == 0,
{
    let c = compress::start_codes(k);
    let t = bytes_alone(k);
    lemma2_to64();
    lemma_pow2_unfold(9);
    if k.max_bits > 9 {
        lemma_pow2_strictly_increases(9, k.max_bits);
    }
    assert forall|i: int| 0 <= i < t.len() && !(k.block && i == 256) implies #[trigger] t[i]
        == compress::expanded(c, k, i) by {
        assert(t[i] =~= seq![c.suffix[i]]);
    }
}

/// Nothing follows where there is no room for a code.
pub proof fn lemma_end(data: Seq<u8>, k: Kind, c: Codes, p: int, out: Seq<u8>)
    requires
        p + c.width > 8 * data.len(),
    ensures
        compress::run(data, k, c, p, out) == Some(out),
{
    reveal(compress::step);
}

/// The header: how long codes get, and whether one of them clears the table.
/// The two bits between are free.
pub proof fn lemma_head(k: Kind, free: int, body: Seq<u8>)
    requires
        9 <= k.max_bits <= 16,
        0 <= free < 4,
    ensures
        compress::decoded(
            seq![
                0x1fu8,
                0x9du8,
                (k.max_bits + 32 * free + if k.block {
                    128int
                } else {
                    0
                }) as u8,
            ] + body,
        ) == compress::run(body, k, compress::start_codes(k), 0, Seq::empty()),
{
    let flags = (k.max_bits + 32 * free + if k.block {
        128int
    } else {
        0
    }) as u8;
    let data = seq![0x1fu8, 0x9du8, flags] + body;
    assert(data.skip(3) =~= body);
    assert(flags % 32 == k.max_bits);
    assert(compress::kind_of(flags) == Some(k));
}

} // verus!
