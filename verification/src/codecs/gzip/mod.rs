//! gzip: Deflate with a header, a checksum and a size, one member after the
//! other.
pub mod headers;
pub mod reader;

pub use crate::codecs::gzip::reader::GzipReader;
use crate::codecs::deflate::bitwriter;
use crate::codecs::deflate::compress;
use crate::codecs::deflate::compress::DeflateEncoder;
use crate::codecs::deflate::inflate;
use crate::codecs::deflate::inflate::{InflateReader, Variant};
use crate::codecs::Level;
use crate::utils::bits;
use crate::utils::bytes;
use crate::utils::bytes::{get_le16, get_le32, put_le};
use crate::utils::crc32;
use crate::utils::crc32::{checksum, Crc32};
use crate::utils::error::{Error, Result, Unsupported};
use vstd::prelude::*;

verus! {

/// The bytes every member starts with.
pub const MAGIC: [u8; 2] = [0x1f, 0x8b];

const DEFLATE: u8 = 8;

const OS_UNKNOWN: u8 = 255;

/// Whether a byte string starts like a gzip stream.
pub fn is_gzip(prefix: &[u8]) -> (r: bool)
    ensures
        r == (prefix@.len() >= 2 && prefix@[0] == 0x1f && prefix@[1] == 0x8b),
{
    prefix.len() >= 2 && prefix[0] == MAGIC[0] && prefix[1] == MAGIC[1]
}

/// What the header of a member records.
#[derive(Debug, Clone)]
pub struct Member {
    /// The name of the file the data came from.
    pub name: Option<Vec<u8>>,
    /// A comment.
    pub comment: Option<Vec<u8>>,
    /// Fields that other programs put there.
    pub extra: Option<Vec<u8>>,
    /// When the file was last changed, in seconds since 1970.
    pub mtime: u32,
    /// Whether the data is thought to be text.
    pub text: bool,
}

/// The same, over mathematical strings.
pub struct MemberView {
    pub name: Option<Seq<u8>>,
    pub comment: Option<Seq<u8>>,
    pub extra: Option<Seq<u8>>,
    pub mtime: nat,
    pub text: bool,
}

/// The bytes of an optional string.
pub open spec fn text_of(v: Option<Vec<u8>>) -> Option<Seq<u8>> {
    match v {
        Some(x) => Some(x@),
        None => None,
    }
}

impl View for Member {
    type V = MemberView;

    open spec fn view(&self) -> MemberView {
        MemberView {
            name: text_of(self.name),
            comment: text_of(self.comment),
            extra: text_of(self.extra),
            mtime: self.mtime as nat,
            text: self.text,
        }
    }
}

impl Default for Member {
    fn default() -> (r: Self)
        ensures
            r@ == plain_member(),
    {
        Member { name: None, comment: None, extra: None, mtime: 0, text: false }
    }
}

/// A member about which nothing is recorded.
pub open spec fn plain_member() -> MemberView {
    MemberView { name: None, comment: None, extra: None, mtime: 0, text: false }
}

/// Whether bit `k` of the flags is set, given as the value of that bit.
pub open spec fn flag(flags: u8, bit: int) -> bool {
    (flags as int / bit) % 2 == 1
}

/// Where the first zero byte at or after `at` stands.
pub open spec fn zero_at(data: Seq<u8>, at: int) -> Option<int>
    decreases data.len() - at,
{
    if at < 0 || at >= data.len() {
        None
    } else if data[at] == 0 {
        Some(at)
    } else {
        zero_at(data, at + 1)
    }
}

/// An optional field of the header: present or not, its bytes, and where the
/// header goes on; `None` where it is cut off.
pub open spec fn extra_at(data: Seq<u8>, at: int, present: bool) -> Option<
    (Option<Seq<u8>>, int),
> {
    if !present {
        Some((None, at))
    } else if at + 2 > data.len() || at + 2 + bytes::le(data, at, 2) > data.len() {
        None
    } else {
        let n = bytes::le(data, at, 2);
        Some((Some(data.subrange(at + 2, at + 2 + n)), at + 2 + n))
    }
}

/// The same for a string that a zero byte ends.
pub open spec fn string_at(data: Seq<u8>, at: int, present: bool) -> Option<
    (Option<Seq<u8>>, int),
> {
    if !present {
        Some((None, at))
    } else {
        match zero_at(data, at) {
            None => None,
            Some(end) => Some((Some(data.subrange(at, end)), end + 1)),
        }
    }
}

/// The header a member starts with, and its length.
#[verifier::opaque]
pub open spec fn header(data: Seq<u8>) -> std::result::Result<(MemberView, int), Error> {
    if data.len() < 10 || data[0] != 0x1f || data[1] != 0x8b {
        Err(Error::Malformed)
    } else if data[2] != 8 {
        Err(Error::Unsupported(Unsupported::CompressionMethod(data[2] as u16)))
    } else if data[3] >= 32 {
        Err(Error::Malformed)
    } else {
        let flags = data[3];
        match extra_at(data, 10, flag(flags, 4)) {
            None => Err(Error::Malformed),
            Some((extra, a)) => match string_at(data, a, flag(flags, 8)) {
                None => Err(Error::Malformed),
                Some((name, b)) => match string_at(data, b, flag(flags, 16)) {
                    None => Err(Error::Malformed),
                    Some((comment, c)) => {
                        let member = MemberView {
                            name,
                            comment,
                            extra,
                            mtime: bytes::le(data, 4, 4),
                            text: flag(flags, 1),
                        };
                        if !flag(flags, 2) {
                            Ok((member, c))
                        } else if c + 2 > data.len() || bytes::le(data, c, 2) != crc32::crc32(
                            data.take(c),
                        ) as nat % 65536 {
                            Err(Error::Malformed)
                        } else {
                            Ok((member, c + 2))
                        }
                    },
                },
            },
        }
    }
}

pub proof fn lemma_zero_at(data: Seq<u8>, at: int)
    requires
        0 <= at,
    ensures
        match zero_at(data, at) {
            Some(end) => at <= end < data.len() && data[end] == 0 && forall|k: int|
                at <= k < end ==> data[k] != 0,
            None => forall|k: int| at <= k < data.len() ==> data[k] != 0,
        },
    decreases data.len() - at,
{
    if at < data.len() && data[at] != 0 {
        lemma_zero_at(data, at + 1);
    }
}

/// The first zero byte is where the first zero byte is.
proof fn lemma_zero_found(data: Seq<u8>, at: int, end: int)
    requires
        0 <= at <= end < data.len(),
        data[end] == 0,
        forall|k: int| at <= k < end ==> data[k] != 0,
    ensures
        zero_at(data, at) == Some(end),
    decreases end - at,
{
    if at < end {
        lemma_zero_found(data, at + 1, end);
    }
}

/// A header is at least ten bytes long and lies within the data.
pub proof fn lemma_header_len(data: Seq<u8>)
    ensures
        header(data) matches Ok((m, n)) ==> 10 <= n <= data.len(),
{
    reveal(header);
    if let Ok((m, n)) = header(data) {
        let flags = data[3];
        let (extra, a) = extra_at(data, 10, flag(flags, 4))->0;
        lemma_zero_at(data, a);
        let (name, b) = string_at(data, a, flag(flags, 8))->0;
        lemma_zero_at(data, b);
    }
}

struct Header {
    member: Member,
    len: usize,
}

fn take_cstring(data: &[u8], at: usize) -> (r: Result<(Vec<u8>, usize)>)
    requires
        at <= data@.len(),
    ensures
        match zero_at(data@, at as int) {
            Some(end) => r matches Ok((s, next)) && s@ == data@.subrange(at as int, end) && next
                == end + 1 && next <= data@.len(),
            None => r matches Err(e) && e == Error::Malformed,
        },
{
    let mut end: usize = at;
    while end < data.len() && data[end] != 0
        invariant
            at <= end <= data@.len(),
            zero_at(data@, at as int) == zero_at(data@, end as int),
        decreases data@.len() - end,
    {
        end = end + 1;
    }
    if end == data.len() {
        return Err(Error::Malformed);
    }
    let mut s: Vec<u8> = Vec::new();
    s.extend_from_slice(&data[at..end]);
    assert(s@ =~= data@.subrange(at as int, end as int));
    Ok((s, end + 1))
}

fn flag_set(flags: u8, bit: u8) -> (r: bool)
    requires
        bit > 0,
    ensures
        r == flag(flags, bit as int),
{
    (flags / bit) % 2 == 1
}

fn parse_header(data: &[u8]) -> (r: Result<Header>)
    ensures
        match header(data@) {
            Ok((m, n)) => r matches Ok(h) && h.member@ == m && h.len == n,
            Err(e) => r matches Err(f) && e == f,
        },
{
    proof {
        reveal(header);
    }
    if data.len() < 10 {
        return Err(Error::Malformed);
    }
    if !is_gzip(data) {
        return Err(Error::Malformed);
    }
    if data[2] != DEFLATE {
        return Err(Error::Unsupported(Unsupported::CompressionMethod(data[2] as u16)));
    }
    let flags: u8 = data[3];
    if flags >= 32 {
        return Err(Error::Malformed);
    }
    let mtime: u32 = get_le32(data, 4);
    let mut at: usize = 10;
    let mut member: Member = Member {
        name: None,
        comment: None,
        extra: None,
        mtime,
        text: flag_set(flags, 1),
    };
    if flag_set(flags, 4) {
        if at + 2 > data.len() {
            return Err(Error::Malformed);
        }
        let len: usize = get_le16(data, at) as usize;
        at = at + 2;
        if len > data.len() - at {
            return Err(Error::Malformed);
        }
        let mut extra: Vec<u8> = Vec::new();
        extra.extend_from_slice(&data[at..at + len]);
        assert(extra@ =~= data@.subrange(at as int, at + len));
        member.extra = Some(extra);
        at = at + len;
    }
    if flag_set(flags, 8) {
        match take_cstring(data, at) {
            Ok((value, next)) => {
                member.name = Some(value);
                at = next;
            },
            Err(e) => {
                return Err(e);
            },
        }
    }
    if flag_set(flags, 16) {
        match take_cstring(data, at) {
            Ok((value, next)) => {
                member.comment = Some(value);
                at = next;
            },
            Err(e) => {
                return Err(e);
            },
        }
    }
    if flag_set(flags, 2) {
        if data.len() - at < 2 {
            return Err(Error::Malformed);
        }
        let stored: u16 = get_le16(data, at);
        let computed: u32 = checksum(&data[0..at]) % 65536;
        assert(data@.subrange(0, at as int) =~= data@.take(at as int));
        if stored as u32 != computed {
            return Err(Error::Malformed);
        }
        at = at + 2;
    }
    Ok(Header { member, len: at })
}

/// The header of the first member, carrying the original name when one was
/// stored.
pub fn read_member(data: &[u8]) -> (r: Result<Member>)
    ensures
        match header(data@) {
            Ok((m, n)) => r matches Ok(x) && x@ == m,
            Err(e) => r matches Err(f) && e == f,
        },
{
    match parse_header(data) {
        Ok(h) => Ok(h.member),
        Err(e) => Err(e),
    }
}

/// How many bytes a stream that ends at bit `end` takes of `n`.
pub open spec fn whole_bytes(end: int, n: nat) -> int {
    if bits::align8(end) / 8 < n {
        bits::align8(end) / 8
    } else {
        n as int
    }
}

/// What follows the deflate stream of a member: the checksum and the size of
/// `produced`.
#[verifier::opaque]
pub open spec fn trailer(data: Seq<u8>, at: int, produced: Seq<u8>) -> std::result::Result<
    (),
    Error,
> {
    if at + 8 > data.len() {
        Err(Error::Malformed)
    } else if bytes::le(data, at, 4) != crc32::crc32(produced) {
        Err(
            Error::ChecksumMismatch {
                expected: bytes::le(data, at, 4) as u32,
                found: crc32::crc32(produced),
            },
        )
    } else if bytes::le(data, at + 4, 4) != produced.len() % 0x1_0000_0000 {
        Err(
            Error::SizeMismatch {
                expected: bytes::le(data, at + 4, 4) as u64,
                found: produced.len() as u64,
            },
        )
    } else {
        Ok(())
    }
}

/// Whether nothing but zeros stands from `at` on.
pub open spec fn blank(data: Seq<u8>, at: int) -> bool {
    forall|k: int| at <= k < data.len() ==> data[k] == 0
}

/// The data of the member at `at`, and where the next one starts.
pub open spec fn member_at(data: Seq<u8>, at: int) -> std::result::Result<(Seq<u8>, int), Error> {
    match header(data.skip(at)) {
        Err(e) => Err(e),
        Ok((m, n)) => match inflate::inflated(Variant::Deflate, data.skip(at + n)) {
            None => Err(Error::Malformed),
            Some((produced, end)) => {
                let next = at + n + whole_bytes(end, (data.len() - at - n) as nat);
                match trailer(data, next, produced) {
                    Err(e) => Err(e),
                    Ok(_) => Ok((produced, next + 8)),
                }
            },
        },
    }
}

/// A member takes up some of the data.
pub proof fn lemma_member_at(data: Seq<u8>, at: int)
    requires
        0 <= at <= data.len(),
    ensures
        member_at(data, at) matches Ok((produced, next)) ==> at < next <= data.len(),
{
    reveal(trailer);
    lemma_header_len(data.skip(at));
    if let Ok((m, n)) = header(data.skip(at)) {
        inflate::lemma_inflated_end(Variant::Deflate, data.skip(at + n));
    }
}

/// What the members from `at` on decode to, after `out`.
pub open spec fn members(data: Seq<u8>, at: int, out: Seq<u8>) -> std::result::Result<
    Seq<u8>,
    Error,
>
    decreases data.len() - at,
{
    if at < 0 || at >= data.len() || blank(data, at) {
        Ok(out)
    } else {
        match member_at(data, at) {
            Err(e) => Err(e),
            Ok((produced, next)) => {
                proof {
                    lemma_member_at(data, at);
                }
                members(data, next, out + produced)
            },
        }
    }
}

fn read_to_end(reader: &mut InflateReader) -> (r: Result<Vec<u8>>)
    requires
        old(reader).wf(),
        old(reader).delivered() == Seq::<u8>::empty(),
    ensures
        match old(reader).stream() {
            Some((all, end)) => r matches Ok(out) && out@ == all && final(reader).wf()
                && final(reader).input() == old(reader).input() && final(reader).position() == end,
            None => r matches Err(e) && e == Error::Malformed,
        },
{
    let mut out: Vec<u8> = Vec::new();
    let mut chunk: Vec<u8> = vec![0u8; 4096];
    loop
        invariant
            reader.wf(),
            reader.input() == old(reader).input(),
            reader.format() == old(reader).format(),
            out@ == reader.delivered(),
            chunk@.len() == 4096,
        decreases reader.budget(),
    {
        match reader.read(chunk.as_mut_slice()) {
            Err(e) => {
                return Err(e);
            },
            Ok(n) => {
                if n == 0 {
                    proof {
                        reader.lemma_delivered();
                        assert(out@ + chunk@.take(0) =~= out@);
                    }
                    return Ok(out);
                }
                out.extend_from_slice(&chunk.as_slice()[0..n]);
                assert(out@ =~= reader.delivered());
            },
        }
    }
}

fn is_blank(data: &[u8], at: usize) -> (r: bool)
    requires
        at <= data@.len(),
    ensures
        r == blank(data@, at as int),
{
    let mut i: usize = at;
    while i < data.len()
        invariant
            at <= i <= data@.len(),
            forall|k: int| at <= k < i ==> data@[k] == 0,
        decreases data@.len() - i,
    {
        if data[i] != 0 {
            return false;
        }
        i = i + 1;
    }
    true
}

/// Decode every member of a gzip stream, concatenating their contents.
pub fn decompress(data: &[u8], size_hint: usize) -> (r: Result<Vec<u8>>)
    ensures
        match members(data@, 0, Seq::empty()) {
            Ok(all) => r matches Ok(out) && out@ == all,
            Err(e) => r matches Err(f) && e == f,
        },
{
    let mut out: Vec<u8> = Vec::with_capacity(size_hint);
    let mut at: usize = 0;
    while at < data.len() && !is_blank(data, at)
        invariant
            at <= data@.len(),
            members(data@, 0, Seq::empty()) == members(data@, at as int, out@),
        decreases data@.len() - at,
    {
        proof {
            lemma_member_at(data@, at as int);
        }
        match read_one_member(data, at) {
            Ok((produced, next)) => {
                let ghost before = out@;
                out.extend_from_slice(produced.as_slice());
                assert(out@ =~= before + produced@);
                assert(members(data@, at as int, before) == members(data@, next as int, out@));
                at = next;
            },
            Err(e) => {
                return Err(e);
            },
        }
    }
    Ok(out)
}

fn read_one_member(data: &[u8], at: usize) -> (r: Result<(Vec<u8>, usize)>)
    requires
        at <= data@.len(),
    ensures
        match member_at(data@, at as int) {
            Ok((produced, next)) => r matches Ok((p, n)) && p@ == produced && n == next,
            Err(e) => r matches Err(f) && e == f,
        },
{
    assert(data@.subrange(at as int, data@.len() as int) =~= data@.skip(at as int));
    let head: Header = match parse_header(&data[at..data.len()]) {
        Ok(h) => h,
        Err(e) => {
            return Err(e);
        },
    };
    proof {
        lemma_header_len(data@.skip(at as int));
    }
    let start: usize = at + head.len;
    let mut body: Vec<u8> = Vec::with_capacity(data.len() - start);
    body.extend_from_slice(&data[start..data.len()]);
    assert(body@ =~= data@.skip(start as int));
    proof {
        inflate::lemma_inflated_end(Variant::Deflate, body@);
    }
    let mut reader: InflateReader = InflateReader::new(body);
    let produced: Vec<u8> = match read_to_end(&mut reader) {
        Ok(p) => p,
        Err(e) => {
            return Err(e);
        },
    };
    let next: usize = start + reader.consumed();
    match check_trailer(data, next, &produced) {
        Ok(_) => Ok((produced, next + 8)),
        Err(e) => Err(e),
    }
}

fn check_trailer(data: &[u8], at: usize, produced: &Vec<u8>) -> (r: Result<()>)
    requires
        at <= data@.len(),
    ensures
        r == trailer(data@, at as int, produced@),
        r is Ok ==> at + 8 <= data@.len(),
{
    proof {
        reveal(trailer);
    }
    if data.len() - at < 8 {
        return Err(Error::Malformed);
    }
    let stored_crc: u32 = get_le32(data, at);
    let stored_len: u32 = get_le32(data, at + 4);
    let computed: u32 = checksum(produced.as_slice());
    if computed != stored_crc {
        return Err(Error::ChecksumMismatch { expected: stored_crc, found: computed });
    }
    if produced.len() as u64 % 0x1_0000_0000 != stored_len as u64 {
        return Err(
            Error::SizeMismatch { expected: stored_len as u64, found: produced.len() as u64 },
        );
    }
    Ok(())
}

/// The flags of a header.
pub open spec fn flags_of(m: MemberView) -> int {
    (if m.text {
        1int
    } else {
        0
    }) + (if m.extra is Some {
        4int
    } else {
        0
    }) + (if m.name is Some {
        8int
    } else {
        0
    }) + (if m.comment is Some {
        16int
    } else {
        0
    })
}

/// The bytes of an extra field.
pub open spec fn extra_bytes(x: Option<Seq<u8>>) -> Seq<u8> {
    match x {
        None => Seq::empty(),
        Some(s) => bytes::le_bytes(s.len(), 2) + s,
    }
}

/// The bytes of a name or a comment.
pub open spec fn string_bytes(x: Option<Seq<u8>>) -> Seq<u8> {
    match x {
        None => Seq::empty(),
        Some(s) => s.push(0),
    }
}

/// The bytes of a header.
pub open spec fn header_bytes(m: MemberView) -> Seq<u8> {
    seq![0x1fu8, 0x8bu8, 8u8, flags_of(m) as u8] + bytes::le_bytes(m.mtime, 4) + seq![0u8, 255u8]
        + extra_bytes(m.extra) + string_bytes(m.name) + string_bytes(m.comment)
}

/// A member whose header reads back: strings without zeros, an extra field
/// whose size fits, a time that fits.
pub open spec fn member_ok(m: MemberView) -> bool {
    &&& m.extra matches Some(s) ==> s.len() <= 65535
    &&& m.name matches Some(s) ==> forall|k: int| 0 <= k < s.len() ==> s[k] != 0
    &&& m.comment matches Some(s) ==> forall|k: int| 0 <= k < s.len() ==> s[k] != 0
    &&& m.mtime < 0x1_0000_0000
}

proof fn lemma_string_read(data: Seq<u8>, at: int, x: Option<Seq<u8>>)
    requires
        0 <= at,
        at + string_bytes(x).len() <= data.len(),
        data.subrange(at, at + string_bytes(x).len()) == string_bytes(x),
        x matches Some(s) ==> forall|k: int| 0 <= k < s.len() ==> s[k] != 0,
    ensures
        string_at(data, at, x is Some) == Some((x, at + string_bytes(x).len())),
{
    if let Some(s) = x {
        let b = string_bytes(x);
        let end = at + s.len();
        assert(data[end] == data.subrange(at, at + b.len())[s.len() as int]);
        assert forall|k: int| at <= k < end implies data[k] != 0 by {
            assert(data[k] == data.subrange(at, at + b.len())[k - at]);
        }
        lemma_zero_found(data, at, end);
        assert(data.subrange(at, end) =~= data.subrange(at, at + b.len()).take(s.len() as int));
        assert(b.take(s.len() as int) =~= s);
    }
}

proof fn lemma_extra_read(data: Seq<u8>, at: int, x: Option<Seq<u8>>)
    requires
        0 <= at,
        at + extra_bytes(x).len() <= data.len(),
        data.subrange(at, at + extra_bytes(x).len()) == extra_bytes(x),
        x matches Some(s) ==> s.len() <= 65535,
    ensures
        extra_at(data, at, x is Some) == Some((x, at + extra_bytes(x).len())),
{
    if let Some(s) = x {
        let b = extra_bytes(x);
        bytes::lemma_le_bytes_len(s.len(), 2);
        assert(data.subrange(at, at + 2) =~= data.subrange(at, at + b.len()).take(2));
        assert(b.take(2) =~= bytes::le_bytes(s.len(), 2));
        assert(bytes::span(2) == 65536) by {
            reveal_with_fuel(bytes::span, 3);
        }
        bytes::lemma_le_round_trip(data, at, s.len(), 2);
        assert(data.subrange(at + 2, at + 2 + s.len()) =~= data.subrange(at, at + b.len()).skip(2));
        assert(b.skip(2) =~= s);
    }
}

proof fn lemma_flags(m: MemberView)
    ensures
        0 <= flags_of(m) < 32,
        flag(flags_of(m) as u8, 1) == m.text,
        flag(flags_of(m) as u8, 2) == false,
        flag(flags_of(m) as u8, 4) == (m.extra is Some),
        flag(flags_of(m) as u8, 8) == (m.name is Some),
        flag(flags_of(m) as u8, 16) == (m.comment is Some),
{
}

proof fn lemma_layout(m: MemberView, rest: Seq<u8>)
    ensures
        ({
            let data = header_bytes(m) + rest;
            let a = 10 + extra_bytes(m.extra).len() as int;
            let b = a + string_bytes(m.name).len();
            let c = b + string_bytes(m.comment).len();
            &&& c == header_bytes(m).len()
            &&& c <= data.len()
            &&& data[0] == 0x1f
            &&& data[1] == 0x8b
            &&& data[2] == 8
            &&& data[3] == flags_of(m) as u8
            &&& data.subrange(4, 8) == bytes::le_bytes(m.mtime, 4)
            &&& data.subrange(10, a) == extra_bytes(m.extra)
            &&& data.subrange(a, b) == string_bytes(m.name)
            &&& data.subrange(b, c) == string_bytes(m.comment)
        }),
{
    let data = header_bytes(m) + rest;
    bytes::lemma_le_bytes_len(m.mtime, 4);
    let e = extra_bytes(m.extra);
    let n = string_bytes(m.name);
    let x = string_bytes(m.comment);
    let a = 10 + e.len() as int;
    let b = a + n.len();
    assert(data.subrange(4, 8) =~= bytes::le_bytes(m.mtime, 4));
    assert(data.subrange(10, a) =~= e);
    assert(data.subrange(a, b) =~= n);
    assert(data.subrange(b, b + x.len()) =~= x);
}

/// A header written is the header read, whatever follows it.
pub proof fn lemma_header_read(m: MemberView, rest: Seq<u8>)
    requires
        member_ok(m),
    ensures
        header(header_bytes(m) + rest) == Ok::<(MemberView, int), Error>(
            (m, header_bytes(m).len() as int),
        ),
        header_bytes(m).len() >= 10,
        header_bytes(m)[0] == 0x1f,
{
    reveal(header);
    let data = header_bytes(m) + rest;
    let a: int = 10 + extra_bytes(m.extra).len() as int;
    let b: int = a + string_bytes(m.name).len();
    lemma_layout(m, rest);
    lemma_flags(m);
    assert(bytes::span(4) == 0x1_0000_0000) by {
        reveal_with_fuel(bytes::span, 5);
    }
    bytes::lemma_le_round_trip(data, 4, m.mtime, 4);
    lemma_extra_read(data, 10, m.extra);
    lemma_string_read(data, a, m.name);
    lemma_string_read(data, b, m.comment);
    assert(data[0] == header_bytes(m)[0]);
}

fn put_extra(out: &mut Vec<u8>, x: &Option<Vec<u8>>)
    ensures
        final(out)@ == old(out)@ + extra_bytes(text_of(*x)),
{
    if let Some(extra) = x {
        let n: u64 = extra.len() as u64;
        put_le(out, n, 2);
        out.extend_from_slice(extra.as_slice());
    }
    assert(out@ =~= old(out)@ + extra_bytes(text_of(*x)));
}

fn put_string(out: &mut Vec<u8>, x: &Option<Vec<u8>>)
    ensures
        final(out)@ == old(out)@ + string_bytes(text_of(*x)),
{
    if let Some(s) = x {
        out.extend_from_slice(s.as_slice());
        out.push(0);
    }
    assert(out@ =~= old(out)@ + string_bytes(text_of(*x)));
}

fn write_header(out: &mut Vec<u8>, member: &Member)
    ensures
        final(out)@ == old(out)@ + header_bytes(member@),
{
    let mut flags: u8 = 0;
    if member.text {
        flags = 1;
    }
    if member.extra.is_some() {
        flags = flags + 4;
    }
    if member.name.is_some() {
        flags = flags + 8;
    }
    if member.comment.is_some() {
        flags = flags + 16;
    }
    assert(flags == flags_of(member@));
    out.push(MAGIC[0]);
    out.push(MAGIC[1]);
    out.push(DEFLATE);
    out.push(flags);
    put_le(out, member.mtime as u64, 4);
    out.push(0);
    out.push(OS_UNKNOWN);
    let ghost fixed = seq![0x1fu8, 0x8bu8, 8u8, flags_of(member@) as u8] + bytes::le_bytes(
        member.mtime as nat,
        4,
    ) + seq![0u8, 255u8];
    assert(out@ =~= old(out)@ + fixed);
    put_extra(out, &member.extra);
    put_string(out, &member.name);
    put_string(out, &member.comment);
    assert(out@ =~= old(out)@ + (fixed + extra_bytes(member@.extra) + string_bytes(member@.name)
        + string_bytes(member@.comment)));
}

/// The bytes after the deflate stream.
pub open spec fn trailer_bytes(d: Seq<u8>) -> Seq<u8> {
    bytes::le_bytes(crc32::crc32(d) as nat, 4) + bytes::le_bytes(d.len() % 0x1_0000_0000, 4)
}

/// Whether `r` is one member of the data `d`: the header, a deflate stream,
/// the checksum and the size.
pub open spec fn is_member(r: Seq<u8>, m: MemberView, d: Seq<u8>) -> bool {
    exists|body: Seq<u8>|
        #[trigger] compress::is_stream(body, d) && r == header_bytes(m) + body + trailer_bytes(d)
}

/// The deflate stream that a level makes of `d`.
pub open spec fn body_for(level: Level, d: Seq<u8>) -> Seq<u8> {
    bitwriter::bytes_of(compress::stream_bits(level, d))
}

/// A gzip stream of one member that holds `data`.
pub fn compress(data: &[u8], level: Level, member: &Member) -> (r: Vec<u8>)
    ensures
        is_member(r@, member@, data@),
        r@ == header_bytes(member@) + body_for(level, data@) + trailer_bytes(data@),
{
    let mut head: Vec<u8> = Vec::new();
    write_header(&mut head, member);
    let ghost h = head@;
    let mut encoder: DeflateEncoder = DeflateEncoder::new(head, level);
    let _ = encoder.write(data);
    let mut out: Vec<u8> = encoder.finish_inner();
    let ghost body = out@.skip(h.len() as int);
    assert(Seq::<u8>::empty() + data@ =~= data@);
    assert(out@ =~= h + body);
    assert(body =~= body_for(level, data@));
    put_le(&mut out, checksum(data) as u64, 4);
    put_le(&mut out, data.len() as u64 % 0x1_0000_0000, 4);
    proof {
        assert(Seq::<u8>::empty() + header_bytes(member@) =~= header_bytes(member@));
        assert(out@ =~= header_bytes(member@) + body + trailer_bytes(data@));
        assert(compress::is_stream(body, data@));
    }
    out
}

pub proof fn lemma_trailer_read(data: Seq<u8>, at: int, d: Seq<u8>)
    requires
        0 <= at,
        at + 8 <= data.len(),
        data.subrange(at, at + 8) == trailer_bytes(d),
    ensures
        trailer(data, at, d) == Ok::<(), Error>(()),
{
    reveal(trailer);
    let c = crc32::crc32(d) as nat;
    let n = d.len() % 0x1_0000_0000;
    bytes::lemma_le_bytes_len(c, 4);
    bytes::lemma_le_bytes_len(n, 4);
    assert(bytes::span(4) == 0x1_0000_0000) by {
        reveal_with_fuel(bytes::span, 5);
    }
    assert(data.subrange(at, at + 4) =~= data.subrange(at, at + 8).take(4));
    assert(trailer_bytes(d).take(4) =~= bytes::le_bytes(c, 4));
    assert(data.subrange(at + 4, at + 8) =~= data.subrange(at, at + 8).skip(4));
    assert(trailer_bytes(d).skip(4) =~= bytes::le_bytes(n, 4));
    bytes::lemma_le_round_trip(data, at, c, 4);
    bytes::lemma_le_round_trip(data, at + 4, n, 4);
}

/// A member written is read back: its header, and its data followed by that
/// of the members after it.
#[verifier::spinoff_prover]
#[verifier::rlimit(60)]
pub proof fn lemma_member_read(
    before: Seq<u8>,
    r: Seq<u8>,
    after: Seq<u8>,
    m: MemberView,
    d: Seq<u8>,
    out: Seq<u8>,
)
    requires
        member_ok(m),
        is_member(r, m, d),
    ensures
        header(r) matches Ok((x, n)) && x == m,
        members(before + r + after, before.len() as int, out) == members(
            before + r + after,
            (before + r).len() as int,
            out + d,
        ),
{
    let data = before + r + after;
    let at = before.len() as int;
    let body = choose|body: Seq<u8>|
        #[trigger] compress::is_stream(body, d) && r == header_bytes(m) + body + trailer_bytes(d);
    let h = header_bytes(m);
    let t = trailer_bytes(d);
    bytes::lemma_le_bytes_len(crc32::crc32(d) as nat, 4);
    bytes::lemma_le_bytes_len(d.len() % 0x1_0000_0000, 4);
    assert(r =~= h + (body + t));
    lemma_header_read(m, body + t);
    assert(data.skip(at) =~= h + (body + t + after));
    lemma_header_read(m, body + t + after);
    assert(data.skip(at + h.len()) =~= body + (t + after));
    compress::lemma_stream_then(body, t + after, d);
    let next = at + h.len() + body.len();
    assert(data.subrange(next, next + 8) =~= t);
    lemma_trailer_read(data, next, d);
    assert(data[at] == h[0]);
    assert(!blank(data, at));
    assert(member_at(data, at) == Ok::<(Seq<u8>, int), Error>((d, next + 8)));
}

/// Members that follow one another are all decoded, and zeros behind them are
/// passed over.
pub proof fn lemma_members_join(
    r: Seq<u8>,
    m: MemberView,
    d: Seq<u8>,
    s: Seq<u8>,
    n: MemberView,
    e: Seq<u8>,
    zeros: nat,
)
    requires
        member_ok(m),
        is_member(r, m, d),
        member_ok(n),
        is_member(s, n, e),
    ensures
        members(r + s + Seq::new(zeros, |i: int| 0u8), 0, Seq::empty()) == Ok::<Seq<u8>, Error>(
            d + e,
        ),
{
    let none = Seq::<u8>::empty();
    let pad = Seq::new(zeros, |i: int| 0u8);
    let data = r + s + pad;
    assert(none + r + (s + pad) =~= data);
    lemma_member_read(none, r, s + pad, m, d, none);
    assert((none + r).len() == r.len());
    assert(none + d =~= d);
    lemma_member_read(r, s, pad, n, e, d);
    assert(blank(data, (r + s).len() as int));
}

/// Decompressing what was compressed gives back the data.
pub proof fn lemma_round_trip(r: Seq<u8>, m: MemberView, d: Seq<u8>)
    requires
        member_ok(m),
        is_member(r, m, d),
    ensures
        members(r, 0, Seq::empty()) == Ok::<Seq<u8>, Error>(d),
{
    let none = Seq::<u8>::empty();
    lemma_member_read(none, r, none, m, d, none);
    assert(none + r + none =~= r);
    assert(none + d =~= d);
}

/// What is told of a checksum and a size that stand behind `d`.
pub open spec fn told(t: Seq<u8>, d: Seq<u8>) -> std::result::Result<(), Error> {
    if bytes::le(t, 0, 4) != crc32::crc32(d) {
        Err(
            Error::ChecksumMismatch {
                expected: bytes::le(t, 0, 4) as u32,
                found: crc32::crc32(d),
            },
        )
    } else if bytes::le(t, 4, 4) != d.len() % 0x1_0000_0000 {
        Err(
            Error::SizeMismatch { expected: bytes::le(t, 4, 4) as u64, found: d.len() as u64 },
        )
    } else {
        Ok(())
    }
}

/// A member whose trailer was changed is refused with what the trailer says
/// and what it should say, whatever follows it.
#[verifier::spinoff_prover]
#[verifier::rlimit(60)]
pub proof fn lemma_trailer_changed(
    r: Seq<u8>,
    m: MemberView,
    d: Seq<u8>,
    t: Seq<u8>,
    after: Seq<u8>,
)
    requires
        member_ok(m),
        is_member(r, m, d),
        t.len() == 8,
        t != trailer_bytes(d),
    ensures
        told(t, d) matches Err(e) && members(
            r.take(r.len() - 8) + t + after,
            0,
            Seq::empty(),
        ) == Err::<Seq<u8>, Error>(e),
        t.take(4) != trailer_bytes(d).take(4) ==> told(t, d) matches Err(
            Error::ChecksumMismatch { .. },
        ),
        t.take(4) == trailer_bytes(d).take(4) ==> told(t, d) matches Err(
            Error::SizeMismatch { .. },
        ),
{
    let body = choose|body: Seq<u8>|
        #[trigger] compress::is_stream(body, d) && r == header_bytes(m) + body + trailer_bytes(d);
    let h = header_bytes(m);
    bytes::lemma_le_bytes_len(crc32::crc32(d) as nat, 4);
    bytes::lemma_le_bytes_len(d.len() % 0x1_0000_0000, 4);
    let data = r.take(r.len() - 8) + t + after;
    assert(data =~= h + (body + (t + after)));
    lemma_header_read(m, body + (t + after));
    assert(data.skip(0) =~= data);
    assert(data.skip(h.len() as int) =~= body + (t + after));
    compress::lemma_stream_then(body, t + after, d);
    let next = (h.len() + body.len()) as int;
    assert(data.skip(next) =~= t + after);
    bytes::lemma_le_skip(data, next, 0, 4);
    bytes::lemma_le_skip(data, next, 4, 4);
    assert(bytes::le(t + after, 0, 4) == bytes::le(t, 0, 4)) by {
        reveal_with_fuel(bytes::le, 5);
    }
    assert(bytes::le(t + after, 4, 4) == bytes::le(t, 4, 4)) by {
        reveal_with_fuel(bytes::le, 5);
    }
    assert(data[0] == h[0]);
    assert(!blank(data, 0));
    reveal(trailer);
    let a = t.take(4);
    let b = t.skip(4);
    let c = bytes::le_bytes(crc32::crc32(d) as nat, 4);
    assert(trailer_bytes(d).take(4) =~= c);
    bytes::lemma_le_bytes_back(a, 4);
    assert(bytes::le(t, 0, 4) == bytes::le(a, 0, 4)) by {
        reveal_with_fuel(bytes::le, 5);
    }
    assert(bytes::le(c, 0, 4) == crc32::crc32(d)) by {
        assert(bytes::span(4) == 0x1_0000_0000) by {
            reveal_with_fuel(bytes::span, 5);
        }
        assert(c.subrange(0, 4) =~= c);
        bytes::lemma_le_round_trip(c, 0, crc32::crc32(d) as nat, 4);
    }
    assert(told(t, d) is Err) by {
        if told(t, d) is Ok {
            bytes::lemma_le_bytes_back(b, 4);
            bytes::lemma_le_skip(t, 4, 0, 4);
            assert(t =~= a + b);
        }
    }
}

/// Streaming gzip writer: deflate plus the header and CRC-32/ISIZE trailer.
pub struct GzipEncoder {
    inner: DeflateEncoder,
    crc: Crc32,
    length: u64,
}

impl GzipEncoder {
    /// The checksum and the size are those of what was taken.
    pub closed spec fn wf(&self) -> bool {
        &&& self.inner.wf()
        &&& self.crc.wf()
        &&& self.crc.covers(self.inner.taken())
        &&& self.length == self.inner.taken().len() % 0x1_0000_0000
    }

    /// All data taken so far.
    pub closed spec fn taken(&self) -> Seq<u8> {
        self.inner.taken()
    }

    /// What was there before the deflate stream.
    pub closed spec fn before(&self) -> Seq<u8> {
        self.inner.before()
    }

    /// The level.
    pub closed spec fn level(&self) -> Level {
        self.inner.level()
    }

    /// An encoder that adds to the end of `out`.
    pub fn new(out: Vec<u8>, level: Level) -> (r: Self)
        ensures
            r.wf(),
            r.before() == out@ + header_bytes(plain_member()),
            r.taken() == Seq::<u8>::empty(),
            r.level() == level,
    {
        let mut head: Vec<u8> = out;
        let member: Member = Member::default();
        write_header(&mut head, &member);
        GzipEncoder { inner: DeflateEncoder::new(head, level), crc: Crc32::new(), length: 0 }
    }

    /// Take more data. All of it is taken.
    pub fn write(&mut self, buf: &[u8]) -> (r: usize)
        requires
            old(self).wf(),
        ensures
            final(self).wf(),
            final(self).before() == old(self).before(),
            final(self).taken() == old(self).taken() + buf@,
            final(self).level() == old(self).level(),
            r == buf@.len(),
    {
        let _ = self.inner.write(buf);
        self.crc.update(buf);
        self.length = (self.length + buf.len() as u64 % 0x1_0000_0000) % 0x1_0000_0000;
        buf.len()
    }

    /// Finish the member and hand back everything written.
    pub fn finish(self) -> (r: Vec<u8>)
        requires
            self.wf(),
        ensures
            exists|body: Seq<u8>|
                #[trigger] compress::is_stream(body, self.taken()) && r@ == self.before() + body
                    + trailer_bytes(self.taken()),
            r@ == self.before() + body_for(self.level(), self.taken()) + trailer_bytes(
                self.taken(),
            ),
    {
        let crc: u32 = self.crc.finish();
        let length: u64 = self.length;
        let ghost d = self.taken();
        let ghost h = self.before();
        let mut out: Vec<u8> = self.inner.finish_inner();
        let ghost body = out@.skip(h.len() as int);
        assert(out@ =~= h + body);
        assert(body =~= body_for(self.level(), d));
        put_le(&mut out, crc as u64, 4);
        put_le(&mut out, length, 4);
        assert(compress::is_stream(body, d));
        assert(out@ =~= h + body + trailer_bytes(d));
        out
    }
}

} // verus!
