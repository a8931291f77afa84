//! The headers that members may start with, whoever wrote them.
use crate::codecs::gzip;
use crate::codecs::gzip::MemberView;
use crate::utils::bytes;
use crate::utils::crc32;
use crate::utils::error::Error;
use vstd::prelude::*;

verus! {

/// The flags: one each for text, a checksum of the header, an extra field, a
/// name and a comment, from the lowest bit up.
pub open spec fn flags_for(m: MemberView, checked: bool) -> int {
    (if m.text {
        1int
    } else {
        0
    }) + (if checked {
        2int
    } else {
        0
    }) + (if m.extra is Some {
        4int
    } else {
        0
    }) + (if m.name is Some {
        8int
    } else {
        0
    }) + (if m.comment is Some {
        16int
    } else {
        0
    })
}

/// An extra field with its length, or a string with the zero that ends it.
pub open spec fn field(x: Option<Seq<u8>>, counted: bool) -> Seq<u8> {
    match x {
        None => Seq::empty(),
        Some(s) => if counted {
            seq![(s.len() % 256) as u8, (s.len() / 256) as u8] + s
        } else {
            s.push(0)
        },
    }
}

/// A header up to its checksum. `hint` is how hard the data was packed, and
/// `system` on what.
pub open spec fn fields(m: MemberView, checked: bool, hint: u8, system: u8) -> Seq<u8> {
    seq![
        0x1fu8,
        0x8bu8,
        8u8,
        flags_for(m, checked) as u8,
        (m.mtime % 256) as u8,
        (m.mtime / 256 % 256) as u8,
        (m.mtime / 65536 % 256) as u8,
        (m.mtime / 0x100_0000) as u8,
        hint,
        system,
    ] + field(m.extra, true) + field(m.name, false) + field(m.comment, false)
}

/// A header whose checksum, if it has one, is `sum`.
pub open spec fn headed(m: MemberView, sum: Option<nat>, hint: u8, system: u8) -> Seq<u8> {
    match sum {
        None => fields(m, false, hint, system),
        Some(n) => fields(m, true, hint, system) + seq![(n % 256) as u8, (n / 256) as u8],
    }
}

proof fn lemma_two(n: nat)
    requires
        n < 65536,
    ensures
        bytes::le_bytes(n, 2) == seq![(n % 256) as u8, (n / 256) as u8],
{
    reveal_with_fuel(bytes::le_bytes, 3);
    assert(bytes::le_bytes(n, 2) =~= seq![(n % 256) as u8, (n / 256) as u8]);
}

proof fn lemma_four(n: nat)
    requires
        n < 0x1_0000_0000,
    ensures
        bytes::le_bytes(n, 4) == seq![
            (n % 256) as u8,
            (n / 256 % 256) as u8,
            (n / 65536 % 256) as u8,
            (n / 0x100_0000) as u8,
        ],
{
    reveal_with_fuel(bytes::le_bytes, 5);
    assert(n / 256 / 256 == n / 65536);
    assert(n / 256 / 256 / 256 == n / 0x100_0000);
    assert(bytes::le_bytes(n, 4) =~= seq![
        (n % 256) as u8,
        (n / 256 % 256) as u8,
        (n / 65536 % 256) as u8,
        (n / 0x100_0000) as u8,
    ]);
}

proof fn lemma_flags(m: MemberView, checked: bool)
    ensures
        0 <= flags_for(m, checked) < 32,
        gzip::flag(flags_for(m, checked) as u8, 1) == m.text,
        gzip::flag(flags_for(m, checked) as u8, 2) == checked,
        gzip::flag(flags_for(m, checked) as u8, 4) == (m.extra is Some),
        gzip::flag(flags_for(m, checked) as u8, 8) == (m.name is Some),
        gzip::flag(flags_for(m, checked) as u8, 16) == (m.comment is Some),
{
}

proof fn lemma_fields(m: MemberView)
    requires
        m.extra matches Some(s) ==> s.len() <= 65535,
    ensures
        field(m.extra, true) == gzip::extra_bytes(m.extra),
        field(m.name, false) == gzip::string_bytes(m.name),
        field(m.comment, false) == gzip::string_bytes(m.comment),
{
    if let Some(s) = m.extra {
        lemma_two(s.len());
    }
    assert(field(m.extra, true) =~= gzip::extra_bytes(m.extra));
}

#[verifier::spinoff_prover]
proof fn lemma_cut(h: Seq<u8>, e: Seq<u8>, n: Seq<u8>, c: Seq<u8>, s: Seq<u8>, rest: Seq<u8>)
    requires
        h.len() == 10,
    ensures
        ({
            let f = h + e + n + c;
            let data = (f + s) + rest;
            let a = 10 + e.len() as int;
            let b = a + n.len();
            let z = b + c.len();
            &&& f.len() == z
            &&& data.take(z) == f
            &&& data.len() >= z + s.len()
            &&& data.take(10) == h
            &&& data.subrange(10, a) == e
            &&& data.subrange(a, b) == n
            &&& data.subrange(b, z) == c
            &&& data.subrange(z, z + s.len()) == s
        }),
{
    let f = h + e + n + c;
    let data = (f + s) + rest;
    let a = 10 + e.len() as int;
    let b = a + n.len();
    let z = b + c.len();
    assert(data.take(z) =~= f);
    assert(data.take(10) =~= h);
    assert(data.subrange(10, a) =~= e);
    assert(data.subrange(a, b) =~= n);
    assert(data.subrange(b, z) =~= c);
    assert(data.subrange(z, z + s.len()) =~= s);
}

proof fn lemma_layout(m: MemberView, sum: Option<nat>, hint: u8, system: u8, rest: Seq<u8>)
    requires
        m.extra matches Some(s) ==> s.len() <= 65535,
        m.mtime < 0x1_0000_0000,
        sum matches Some(n) ==> n < 65536,
    ensures
        ({
            let data = headed(m, sum, hint, system) + rest;
            let f = fields(m, sum is Some, hint, system);
            let a = 10 + field(m.extra, true).len() as int;
            let b = a + field(m.name, false).len();
            let z = b + field(m.comment, false).len();
            &&& f.len() == z
            &&& data.take(z) == f
            &&& z <= data.len()
            &&& data[0] == 0x1f
            &&& data[1] == 0x8b
            &&& data[2] == 8
            &&& data[3] == flags_for(m, sum is Some) as u8
            &&& data.subrange(4, 8) == bytes::le_bytes(m.mtime, 4)
            &&& a == 10 + gzip::extra_bytes(m.extra).len()
            &&& b == a + gzip::string_bytes(m.name).len()
            &&& z == b + gzip::string_bytes(m.comment).len()
            &&& data.subrange(10, a) == gzip::extra_bytes(m.extra)
            &&& data.subrange(a, b) == gzip::string_bytes(m.name)
            &&& data.subrange(b, z) == gzip::string_bytes(m.comment)
            &&& (sum matches Some(v) ==> z + 2 <= data.len() && data.subrange(z, z + 2)
                == bytes::le_bytes(v, 2))
        }),
{
    let data = headed(m, sum, hint, system) + rest;
    let h = fields(m, sum is Some, hint, system).take(10);
    let s = match sum {
        None => Seq::<u8>::empty(),
        Some(n) => seq![(n % 256) as u8, (n / 256) as u8],
    };
    let f = fields(m, sum is Some, hint, system);
    let whole = seq![
        0x1fu8,
        0x8bu8,
        8u8,
        flags_for(m, sum is Some) as u8,
        (m.mtime % 256) as u8,
        (m.mtime / 256 % 256) as u8,
        (m.mtime / 65536 % 256) as u8,
        (m.mtime / 0x100_0000) as u8,
        hint,
        system,
    ];
    assert(h =~= whole);
    assert(f + s =~= headed(m, sum, hint, system));
    lemma_cut(
        whole,
        field(m.extra, true),
        field(m.name, false),
        field(m.comment, false),
        s,
        rest,
    );
    lemma_fields(m);
    lemma_four(m.mtime);
    assert(data.subrange(4, 8) =~= data.take(10).subrange(4, 8));
    assert(whole.subrange(4, 8) =~= bytes::le_bytes(m.mtime, 4));
    assert(data[0] == data.take(10)[0]);
    assert(data[1] == data.take(10)[1]);
    assert(data[2] == data.take(10)[2]);
    assert(data[3] == data.take(10)[3]);
    if let Some(v) = sum {
        lemma_two(v);
    }
}

/// A header says what it was written to say. One with a checksum is read where
/// that is the low half of the CRC-32 of what comes before, and refused
/// otherwise.
#[verifier::spinoff_prover]
pub proof fn lemma_headed(
    m: MemberView,
    sum: Option<nat>,
    hint: u8,
    system: u8,
    rest: Seq<u8>,
)
    requires
        m.extra matches Some(s) ==> s.len() <= 65535,
        m.name matches Some(s) ==> forall|k: int| 0 <= k < s.len() ==> s[k] != 0,
        m.comment matches Some(s) ==> forall|k: int| 0 <= k < s.len() ==> s[k] != 0,
        m.mtime < 0x1_0000_0000,
        sum matches Some(n) ==> n < 65536,
    ensures
        ({
            let data = headed(m, sum, hint, system) + rest;
            let right = crc32::crc32(fields(m, true, hint, system)) as nat % 65536;
            gzip::header(data) == match sum {
                None => Ok::<(MemberView, int), Error>(
                    (m, fields(m, false, hint, system).len() as int),
                ),
                Some(n) => if n == right {
                    Ok((m, fields(m, true, hint, system).len() as int + 2))
                } else {
                    Err(Error::Malformed)
                },
            }
        }),
{
    reveal(gzip::header);
    let checked = sum is Some;
    let data = headed(m, sum, hint, system) + rest;
    let a = 10 + field(m.extra, true).len() as int;
    let b = a + field(m.name, false).len();
    let z = b + field(m.comment, false).len();
    lemma_flags(m, checked);
    lemma_layout(m, sum, hint, system, rest);
    assert(bytes::span(4) == 0x1_0000_0000) by {
        reveal_with_fuel(bytes::span, 5);
    }
    assert(bytes::span(2) == 65536) by {
        reveal_with_fuel(bytes::span, 3);
    }
    bytes::lemma_le_round_trip(data, 4, m.mtime, 4);
    gzip::lemma_extra_read(data, 10, m.extra);
    gzip::lemma_string_read(data, a, m.name);
    gzip::lemma_string_read(data, b, m.comment);
    if let Some(v) = sum {
        bytes::lemma_le_round_trip(data, z, v, 2);
    }
}

/// Other methods than Deflate, and flags that have no meaning, are refused.
pub proof fn lemma_refused(data: Seq<u8>)
    requires
        data.len() >= 10,
        data[0] == 0x1f,
        data[1] == 0x8b,
        data[2] != 8 || data[3] >= 32,
    ensures
        gzip::header(data) is Err,
{
    reveal(gzip::header);
}

} // verus!
