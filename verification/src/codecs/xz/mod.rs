//! The xz container.
pub mod encode;
pub mod files;
pub mod filters;
pub mod syntax;

use crate::codecs::lzma::lzma2;
use crate::codecs::lzma::lzma2::{dictionary_size, Lzma2Decoder};
pub use crate::codecs::xz::syntax::Check;
use crate::codecs::xz::syntax::{Block, Part};
use crate::crypto::sha256::Sha256;
use crate::utils::bytes;
use crate::utils::bytes::{get_le32, put_le};
use crate::utils::crc32::{checksum, Crc32};
use crate::utils::crc64::Crc64;
use crate::utils::error;
use crate::utils::error::{Error, Result, Unsupported};
use vstd::prelude::*;

verus! {

impl Check {
    fn from_id(id: u8) -> (r: Result<Self>)
        ensures
            r == syntax::check_from(id as int),
    {
        if id == 0x00 {
            Ok(Check::Nothing)
        } else if id == 0x01 {
            Ok(Check::Crc32)
        } else if id == 0x04 {
            Ok(Check::Crc64)
        } else if id == 0x0A {
            Ok(Check::Sha256)
        } else {
            Err(Error::Unsupported(Unsupported::Other))
        }
    }

    fn len(self) -> (r: usize)
        ensures
            r == syntax::check_len(self),
    {
        match self {
            Check::Nothing => 0,
            Check::Crc32 => 4,
            Check::Crc64 => 8,
            Check::Sha256 => 32,
        }
    }
}

enum Checker {
    Nothing,
    Crc32(Crc32),
    Crc64(Crc64),
    Sha256(Sha256),
}

impl Checker {
    spec fn check(&self) -> Check {
        match self {
            Checker::Nothing => Check::Nothing,
            Checker::Crc32(_) => Check::Crc32,
            Checker::Crc64(_) => Check::Crc64,
            Checker::Sha256(_) => Check::Sha256,
        }
    }

    spec fn wf(&self) -> bool {
        match self {
            Checker::Nothing => true,
            Checker::Crc32(c) => c.wf(),
            Checker::Crc64(c) => c.wf(),
            Checker::Sha256(h) => h.wf(),
        }
    }

    spec fn covers(&self, s: Seq<u8>) -> bool {
        match self {
            Checker::Nothing => true,
            Checker::Crc32(c) => c.covers(s),
            Checker::Crc64(c) => c.covers(s),
            Checker::Sha256(h) => h.taken() == s,
        }
    }

    fn new(check: Check) -> (r: Self)
        ensures
            r.wf(),
            r.check() == check,
            r.covers(Seq::empty()),
    {
        match check {
            Check::Nothing => Checker::Nothing,
            Check::Crc32 => Checker::Crc32(Crc32::new()),
            Check::Crc64 => Checker::Crc64(Crc64::new()),
            Check::Sha256 => Checker::Sha256(Sha256::new()),
        }
    }

    fn update(self, data: &[u8]) -> (r: Self)
        requires
            self.wf(),
        ensures
            r.wf(),
            r.check() == self.check(),
            forall|s: Seq<u8>| self.covers(s) ==> #[trigger] r.covers(s + data@),
    {
        match self {
            Checker::Nothing => Checker::Nothing,
            Checker::Crc32(c) => {
                let mut c: Crc32 = c;
                c.update(data);
                Checker::Crc32(c)
            },
            Checker::Crc64(c) => {
                let mut c: Crc64 = c;
                c.update(data);
                Checker::Crc64(c)
            },
            Checker::Sha256(h) => {
                let mut h: Sha256 = h;
                h.update(data);
                Checker::Sha256(h)
            },
        }
    }

    fn computed(self) -> (r: Vec<u8>)
        requires
            self.wf(),
        ensures
            forall|s: Seq<u8>| self.covers(s) ==> r@ == #[trigger] syntax::check_bytes(self.check(), s),
    {
        let mut out: Vec<u8> = Vec::with_capacity(32);
        match self {
            Checker::Nothing => {},
            Checker::Crc32(c) => {
                let v: u32 = c.finish();
                put_le(&mut out, v as u64, 4);
                assert(out@ =~= bytes::le_bytes(v as nat, 4));
            },
            Checker::Crc64(c) => {
                let v: u64 = c.finish();
                put_le(&mut out, v, 8);
                assert(out@ =~= bytes::le_bytes(v as nat, 8));
            },
            Checker::Sha256(h) => {
                let d: [u8; 32] = h.finish();
                out.extend_from_slice(d.as_slice());
                assert(out@ =~= d@);
            },
        }
        assert forall|s: Seq<u8>| self.covers(s) implies out@ == #[trigger] syntax::check_bytes(
            self.check(),
            s,
        ) by {
            assert(self.check() is Nothing ==> out@ =~= Seq::<u8>::empty());
        }
        out
    }

    /// Whether the stored check at `at` is that of what was taken.
    fn verify(self, data: &[u8], at: usize, Ghost(s): Ghost<Seq<u8>>) -> (r: bool)
        requires
            self.wf(),
            self.covers(s),
            at + syntax::check_len(self.check()) <= data.len(),
        ensures
            r == (data@.subrange(at as int, at + syntax::check_len(self.check()))
                == syntax::check_bytes(self.check(), s)),
    {
        let ghost want = syntax::check_bytes(self.check(), s);
        let ghost part = data@.subrange(at as int, at + syntax::check_len(self.check()));
        proof {
            syntax::lemma_check_len(self.check(), s);
        }
        let computed: Vec<u8> = self.computed();
        let mut i: usize = 0;
        while i < computed.len()
            invariant
                i <= computed@.len(),
                computed@ == want,
                want.len() == part.len(),
                at + computed@.len() <= data.len(),
                part == data@.subrange(at as int, at + syntax::check_len(self.check())),
                want == syntax::check_bytes(self.check(), s),
                computed@.len() == syntax::check_len(self.check()),
                forall|k: int| 0 <= k < i ==> #[trigger] part[k] == want[k],
            decreases computed@.len() - i,
        {
            assert(part[i as int] == data@[at + i]);
            if data[at + i] != computed[i] {
                return false;
            }
            i = i + 1;
        }
        assert(part =~= want);
        true
    }
}

/// The number at `at`, and where it ends.
fn varint(data: &[u8], at: usize, strict: bool) -> (r: Option<(u64, usize)>)
    ensures
        match syntax::vint(data@, at as int, 0, strict) {
            Some((v, end)) => r matches Some((value, next)) && value == v && next == end && next
                <= data@.len() && at < next,
            None => r is None,
        },
{
    varint_from(data, at, 0, strict)
}

fn varint_from(data: &[u8], at: usize, k: u32, strict: bool) -> (r: Option<(u64, usize)>)
    requires
        k <= 9,
    ensures
        match syntax::vint(data@, at as int, k as nat, strict) {
            Some((v, end)) => r matches Some((value, next)) && value == v && next == end && next
                <= data@.len() && at < next,
            None => r is None,
        },
    decreases 9 - k,
{
    proof {
        syntax::lemma_vint_bound(data@, at as int, k as nat, strict);
        reveal_with_fuel(syntax::span128, 10);
    }
    if at >= data.len() || k >= 9 {
        return None;
    }
    let b: u8 = data[at];
    if b < 128 {
        if strict && b == 0 && k > 0 {
            return None;
        }
        return Some((b as u64, at + 1));
    }
    match varint_from(data, at + 1, k + 1, strict) {
        None => None,
        Some((v, end)) => {
            assert(b - 128 + 128 * v < 0x8000_0000_0000_0000);
            Some(((b - 128) as u64 + 128 * v, end))
        },
    }
}

fn pad(n: usize) -> (r: usize)
    ensures
        r == syntax::padding(n as int),
{
    (4 - n % 4) % 4
}

fn all_zero(data: &[u8], from: usize, to: usize) -> (r: bool)
    requires
        from <= to <= data@.len(),
    ensures
        r == syntax::zeros(data@, from as int, to as int),
{
    let mut i: usize = from;
    while i < to
        invariant
            from <= i <= to <= data@.len(),
            syntax::zeros(data@, from as int, i as int),
        decreases to - i,
    {
        if data[i] != 0 {
            return false;
        }
        i = i + 1;
    }
    true
}

fn read_stream_header(data: &[u8], at: usize) -> (r: Result<Check>)
    requires
        at <= data.len(),
    ensures
        r == syntax::stream_header(data@, at as int),
{
    if data.len() - at < 12 {
        return Err(Error::Malformed);
    }
    if !(data[at] == 0xFD && data[at + 1] == 0x37 && data[at + 2] == 0x7A && data[at + 3] == 0x58
        && data[at + 4] == 0x5A && data[at + 5] == 0) {
        return Err(Error::Malformed);
    }
    if data[at + 6] != 0 || data[at + 7] >= 16 {
        return Err(Error::Malformed);
    }
    if checksum(&data[at + 6..at + 8]) != get_le32(data, at + 8) {
        return Err(Error::Malformed);
    }
    Check::from_id(data[at + 7])
}

/// What a block header says.
struct BlockHeader {
    compressed_size: Option<u64>,
    uncompressed_size: Option<u64>,
    filters: Vec<(u64, Vec<u8>)>,
}

spec fn option_nat(v: Option<u64>) -> Option<nat> {
    match v {
        Some(n) => Some(n as nat),
        None => None,
    }
}

spec fn filters_view(v: Seq<(u64, Vec<u8>)>) -> Seq<syntax::Filter> {
    Seq::new(v.len(), |i: int| syntax::Filter { id: v[i].0, props: v[i].1@ })
}

impl BlockHeader {
    spec fn block(&self) -> Block {
        Block {
            compressed: option_nat(self.compressed_size),
            uncompressed: option_nat(self.uncompressed_size),
            filters: filters_view(self.filters@),
        }
    }

    fn optional(body: &[u8], at: usize, there: bool) -> (r: Option<(Option<u64>, usize)>)
        requires
            at <= body@.len(),
        ensures
            match syntax::optional(body@, at as int, there) {
                Some((v, end)) => r matches Some((value, next)) && option_nat(value) == v && next
                    == end && next <= body@.len(),
                None => r is None,
            },
    {
        if there {
            match varint(body, at, true) {
                None => None,
                Some((v, end)) => Some((Some(v), end)),
            }
        } else {
            Some((None, at))
        }
    }

    fn parse_filters(body: &[u8], at: usize, count: usize) -> (r: Option<
        (Vec<(u64, Vec<u8>)>, usize),
    >)
        requires
            at <= body@.len(),
        ensures
            match syntax::filters_at(body@, at as int, count as nat) {
                Some((fs, end)) => r matches Some((v, next)) && filters_view(v@) == fs && next == end
                    && next <= body@.len(),
                None => r is None,
            },
    {
        let mut filters: Vec<(u64, Vec<u8>)> = Vec::with_capacity(count);
        let mut pos: usize = at;
        let mut done: usize = 0;
        let ghost target = syntax::filters_at(body@, at as int, count as nat);
        proof {
            if let Some((fs, end)) = target {
                assert(filters_view(filters@) + fs =~= fs);
            }
        }
        while done < count
            invariant
                done <= count,
                pos <= body@.len(),
                target == syntax::filters_at(body@, at as int, count as nat),
                target == match syntax::filters_at(body@, pos as int, (count - done) as nat) {
                    Some((fs, end)) => Some((filters_view(filters@) + fs, end)),
                    None => None,
                },
            decreases count - done,
        {
            let (id, p) = match varint(body, pos, true) {
                Some(v) => v,
                None => {
                    return None;
                },
            };
            let (len, q) = match varint(body, p, true) {
                Some(v) => v,
                None => {
                    return None;
                },
            };
            if len > (body.len() - q) as u64 {
                return None;
            }
            let len: usize = len as usize;
            let mut props: Vec<u8> = Vec::with_capacity(len);
            props.extend_from_slice(&body[q..q + len]);
            let ghost before = filters_view(filters@);
            let ghost f = syntax::Filter { id, props: props@ };
            filters.push((id, props));
            proof {
                assert(f.props =~= body@.subrange(q as int, q + len));
                assert(filters_view(filters@) =~= before.push(f));
                if let Some((fs, end)) = syntax::filters_at(
                    body@,
                    q + len,
                    (count - done - 1) as nat,
                ) {
                    assert(before + (seq![f] + fs) =~= filters_view(filters@) + fs);
                }
            }
            pos = q + len;
            done = done + 1;
        }
        assert(filters_view(filters@) + Seq::<syntax::Filter>::empty() =~= filters_view(filters@));
        Some((filters, pos))
    }

    fn parse(body: &[u8]) -> (r: Option<Self>)
        ensures
            match syntax::block_of(body@) {
                Some(b) => r matches Some(h) && h.block() == b,
                None => r is None,
            },
    {
        if body.len() == 0 {
            return None;
        }
        let flags: u8 = body[0];
        if (flags / 4) % 16 != 0 {
            return None;
        }
        let filter_count: usize = (flags % 4) as usize + 1;
        let (compressed_size, p) = match Self::optional(body, 1, (flags / 64) % 2 == 1) {
            Some(v) => v,
            None => {
                return None;
            },
        };
        let (uncompressed_size, q) = match Self::optional(body, p, flags / 128 == 1) {
            Some(v) => v,
            None => {
                return None;
            },
        };
        let (filters, end) = match Self::parse_filters(body, q, filter_count) {
            Some(v) => v,
            None => {
                return None;
            },
        };
        if !all_zero(body, end, body.len()) {
            return None;
        }
        Some(BlockHeader { compressed_size, uncompressed_size, filters })
    }

    /// The header of the block at `at`, and its length.
    fn read(data: &[u8], at: usize) -> (r: Option<(Self, usize)>)
        requires
            at < data.len(),
            data@[at as int] != 0,
        ensures
            match syntax::block_header(data@, at as int) {
                Some(b) => r matches Some((h, len)) && h.block() == b && len
                    == syntax::block_header_len(data@, at as int) && at + len <= data.len(),
                None => r is None,
            },
    {
        let len: usize = 4 * (data[at] as usize + 1);
        if data.len() - at < len {
            return None;
        }
        let stored: u32 = get_le32(data, at + len - 4);
        if checksum(&data[at..at + len - 4]) != stored {
            return None;
        }
        match Self::parse(&data[at + 1..at + len - 4]) {
            Some(h) => Some((h, len)),
            None => None,
        }
    }

    /// The dictionary size of the LZMA2 filter at the end of the chain.
    fn dictionary(&self) -> (r: Result<u32>)
        ensures
            match syntax::dictionary(self.block()) {
                Ok(d) => r matches Ok(n) && n == d && self.filters@.len() > 0,
                Err(e) => r == Err::<u32, Error>(e),
            },
    {
        let n: usize = self.filters.len();
        if n == 0 {
            return Err(Error::Malformed);
        }
        let last: &(u64, Vec<u8>) = &self.filters[n - 1];
        assert(self.block().filters.last() == (syntax::Filter { id: last.0, props: last.1@ }));
        if last.0 != filters::LZMA2 {
            return Err(Error::Unsupported(Unsupported::Other));
        }
        if last.1.len() == 0 {
            return Err(Error::Malformed);
        }
        dictionary_size(last.1[0])
    }

    fn decode(&self, data: &[u8]) -> (r: Result<Vec<u8>>)
        ensures
            match syntax::block_content(self.block(), data@) {
                Ok(out) => r matches Ok(v) && v@ == out,
                Err(e) => r == Err::<Vec<u8>, Error>(e),
            },
    {
        let dict: u32 = match self.dictionary() {
            Ok(n) => n,
            Err(e) => {
                return Err(e);
            },
        };
        let mut body: Vec<u8> = Vec::with_capacity(data.len());
        body.extend_from_slice(data);
        assert(body@ =~= data@);
        let mut decoder: Lzma2Decoder = Lzma2Decoder::new(body, dict);
        let mut out: Vec<u8> = match decoder.read_to_end() {
            Ok(v) => v,
            Err(e) => {
                return Err(e);
            },
        };
        let mut k: usize = self.filters.len() - 1;
        let ghost fs = self.block().filters;
        while k > 0
            invariant
                k < self.filters@.len(),
                fs == filters_view(self.filters@),
                syntax::block_content(self.block(), data@) == syntax::undone(fs, k as nat, out@),
            decreases k,
        {
            k = k - 1;
            let f: &(u64, Vec<u8>) = &self.filters[k];
            assert(fs[k as int] == (syntax::Filter { id: f.0, props: f.1@ }));
            if let Err(e) = filters::decode(f.0, f.1.as_slice(), out.as_mut_slice()) {
                return Err(e);
            }
        }
        Ok(out)
    }
}

fn verify_tail(data: &[u8], at: usize, flag: u8, strict: bool) -> (r: Option<usize>)
    requires
        1 <= at <= data.len(),
    ensures
        match syntax::tail(data@, at as int, flag, strict) {
            Some(end) => r matches Some(n) && n == end && at < n <= data@.len(),
            None => r is None,
        },
{
    let (records, p) = match varint(data, at, strict) {
        Some(v) => v,
        None => {
            return None;
        },
    };
    let mut pos: usize = p;
    let mut left: u64 = records;
    let ghost end = syntax::records(data@, p as int, records as nat, strict);
    while left > 0
        invariant
            1 <= at < p <= pos <= data.len(),
            syntax::vint(data@, at as int, 0, strict) == Some((records as nat, p as int)),
            end == syntax::records(data@, p as int, records as nat, strict),
            end == syntax::records(data@, pos as int, left as nat, strict),
        decreases left,
    {
        match varint(data, pos, strict) {
            None => {
                return None;
            },
            Some((_, q)) => {
                match varint(data, q, strict) {
                    None => {
                        return None;
                    },
                    Some((_, z)) => {
                        pos = z;
                    },
                }
            },
        }
        left = left - 1;
    }
    let padding: usize = pad(pos - at + 1);
    if data.len() - pos < padding + 4 {
        return None;
    }
    let foot: usize = pos + padding + 4;
    if data.len() - foot < 12 {
        return None;
    }
    if data[foot + 10] != 0x59 || data[foot + 11] != 0x5A {
        return None;
    }
    let stored: u32 = get_le32(data, foot);
    if checksum(&data[foot + 4..foot + 10]) != stored {
        return None;
    }
    if data[foot + 8] != 0 || data[foot + 9] != flag {
        return None;
    }
    Some(foot + 12)
}

/// Where the zeros from `at` on end.
fn skip_stream_padding(data: &[u8], at: usize) -> (r: usize)
    requires
        at <= data@.len(),
    ensures
        r == syntax::zeros_end(data@, at as int),
        at <= r <= data@.len(),
{
    let mut i: usize = at;
    while i < data.len() && data[i] == 0
        invariant
            at <= i <= data@.len(),
            syntax::zeros_end(data@, at as int) == syntax::zeros_end(data@, i as int),
        decreases data@.len() - i,
    {
        i = i + 1;
    }
    i
}

/// What comes next in a stream.
enum Found {
    /// A block with this content, up to this place.
    Block(Vec<u8>, usize),
    /// A block with this content that takes everything.
    Whole(Vec<u8>),
    /// The end of the stream, at this place.
    End(usize),
}

spec fn found(data: Seq<u8>, at: int, check: Check, flag: u8, f: Found) -> Part {
    match f {
        Found::Block(out, next) => syntax::after(
            out@,
            syntax::blocks(data, next as int, check, flag),
        ),
        Found::Whole(out) => Part::All(out@),
        Found::End(next) => Part::More(Seq::empty(), next as int),
    }
}

/// The next block, or the end of the stream.
#[verifier::rlimit(40)]
#[verifier::spinoff_prover]
fn decode_block(data: &[u8], at: usize, check: Check, flag: u8) -> (r: Result<Found>)
    requires
        at <= data.len(),
    ensures
        match r {
            Err(e) => syntax::blocks(data@, at as int, check, flag) == Part::Bad(e),
            Ok(f) => {
                &&& syntax::blocks(data@, at as int, check, flag) == found(
                    data@,
                    at as int,
                    check,
                    flag,
                    f,
                )
                &&& f matches Found::Block(_, next) ==> at < next <= data.len()
                &&& f matches Found::End(next) ==> at < next <= data.len()
            },
        },
{
    reveal(syntax::blocks);
    if at >= data.len() {
        return Err(Error::Malformed);
    }
    if data[at] == 0 {
        return match verify_tail(data, at + 1, flag, true) {
            None => Err(Error::Malformed),
            Some(end) => Ok(Found::End(end)),
        };
    }
    let (block, header_len) = match BlockHeader::read(data, at) {
        Some(v) => v,
        None => {
            return Err(Error::Malformed);
        },
    };
    let from: usize = at + header_len;
    let available: usize = data.len() - from;
    let packed: usize = match block.compressed_size {
        Some(n) => {
            if n > available as u64 {
                return Err(Error::Malformed);
            }
            n as usize
        },
        None => available,
    };
    let produced: Vec<u8> = match block.decode(&data[from..from + packed]) {
        Ok(v) => v,
        Err(e) => {
            return Err(e);
        },
    };
    if let Some(want) = block.uncompressed_size {
        if produced.len() as u64 != want {
            return Err(Error::Malformed);
        }
    }
    if block.compressed_size.is_none() {
        return Ok(Found::Whole(produced));
    }
    let end: usize = from + packed;
    let padding: usize = pad(packed);
    if data.len() - end < padding + check.len() {
        return Err(Error::Malformed);
    }
    if !all_zero(data, end, end + padding) {
        return Err(Error::Malformed);
    }
    let checker: Checker = Checker::new(check).update(produced.as_slice());
    assert(Seq::<u8>::empty() + produced@ =~= produced@);
    assert(checker.covers(Seq::<u8>::empty() + produced@));
    if !checker.verify(data, end + padding, Ghost(produced@)) {
        return Err(Error::Malformed);
    }
    Ok(Found::Block(produced, end + padding + check.len()))
}

proof fn lemma_after_more(a: Seq<u8>, b: Seq<u8>, rest: Part)
    ensures
        syntax::after(a, syntax::after(b, rest)) == syntax::after(a + b, rest),
        syntax::after(Seq::empty(), rest) == rest,
{
    match rest {
        Part::Bad(_) => {},
        Part::All(more) => {
            assert(a + (b + more) =~= a + b + more);
            assert(Seq::<u8>::empty() + more =~= more);
        },
        Part::More(more, _) => {
            assert(a + (b + more) =~= a + b + more);
            assert(Seq::<u8>::empty() + more =~= more);
        },
    }
}

/// Decode the stream at `at`. What comes back is its content and where it
/// ends, unless its last block takes everything.
fn decode_stream(data: &[u8], at: usize) -> (r: Result<(Vec<u8>, Option<usize>)>)
    requires
        at <= data.len(),
    ensures
        match r {
            Err(e) => syntax::stream(data@, at as int) == Part::Bad(e),
            Ok((out, None)) => syntax::stream(data@, at as int) == Part::All(out@),
            Ok((out, Some(end))) => at < end <= data.len() && syntax::stream(data@, at as int)
                == Part::More(out@, end as int),
        },
{
    let check: Check = match read_stream_header(data, at) {
        Ok(c) => c,
        Err(e) => {
            return Err(e);
        },
    };
    let flag: u8 = data[at + 7];
    let mut out: Vec<u8> = Vec::new();
    let mut pos: usize = at + 12;
    proof {
        lemma_after_more(
            out@,
            Seq::empty(),
            syntax::blocks(data@, pos as int, check, flag),
        );
    }
    loop
        invariant
            at < pos <= data.len(),
            syntax::stream(data@, at as int) == syntax::after(
                out@,
                syntax::blocks(data@, pos as int, check, flag),
            ),
        decreases data@.len() - pos,
    {
        match decode_block(data, pos, check, flag) {
            Err(e) => {
                return Err(e);
            },
            Ok(Found::Whole(more)) => {
                let ghost before = out@;
                out.extend_from_slice(more.as_slice());
                assert(out@ =~= before + more@);
                return Ok((out, None));
            },
            Ok(Found::End(next)) => {
                assert(out@ + Seq::<u8>::empty() =~= out@);
                return Ok((out, Some(next)));
            },
            Ok(Found::Block(more, next)) => {
                proof {
                    lemma_after_more(
                        out@,
                        more@,
                        syntax::blocks(data@, next as int, check, flag),
                    );
                }
                let ghost before = out@;
                out.extend_from_slice(more.as_slice());
                assert(out@ =~= before + more@);
                pos = next;
            },
        }
    }
}

/// Decode every stream of an xz file, concatenating their contents.
pub fn decompress(data: &[u8], size_hint: usize) -> (r: Result<Vec<u8>>)
    ensures
        match syntax::decoded(data@, 0) {
            Ok(all) => r matches Ok(out) && out@ == all,
            Err(e) => r == Err::<Vec<u8>, Error>(e),
        },
{
    let mut out: Vec<u8> = Vec::new();
    let mut at: usize = 0;
    proof {
        if let Ok(all) = syntax::decoded(data@, 0) {
            assert(Seq::<u8>::empty() + all =~= all);
        }
    }
    loop
        invariant
            at <= data.len(),
            syntax::decoded(data@, 0) == error::joined(out@, syntax::decoded(data@, at as int)),
        decreases data@.len() - at,
    {
        let (more, end) = match decode_stream(data, at) {
            Ok(v) => v,
            Err(e) => {
                return Err(e);
            },
        };
        let ghost before = out@;
        out.extend_from_slice(more.as_slice());
        match end {
            None => {
                return Ok(out);
            },
            Some(rest) => {
                let next: usize = skip_stream_padding(data, rest);
                if (next - rest) % 4 != 0 {
                    return Err(Error::Malformed);
                }
                if next >= data.len() {
                    return Ok(out);
                }
                proof {
                    if let Ok(others) = syntax::decoded(data@, next as int) {
                        assert(before + (more@ + others) =~= out@ + others);
                    }
                }
                at = next;
            },
        }
    }
}

enum Stage {
    Header,
    Between,
    Block(Lzma2Decoder, Checker, u64),
    Done,
}

/// Streaming xz reader, one block at a time.
///
/// Only blocks whose sole filter is LZMA2 can be read this way; a block that
/// stacks a delta or branch filter on top has to be held whole for the filter
/// to run over it, and is reported as unsupported here so the caller can fall
/// back to [`decompress`].
pub struct Reader {
    data: Vec<u8>,
    at: usize,
    stage: Stage,
    check: Check,
    flag: u8,
    declared: Option<u64>,
    header_len: usize,
    past: Ghost<Seq<u8>>,
}

impl Reader {
    /// The whole input.
    pub closed spec fn input(&self) -> Seq<u8> {
        self.data@
    }

    /// What the whole input holds, or why it cannot be read.
    pub open spec fn outcome(&self) -> std::result::Result<Seq<u8>, Error> {
        syntax::streamed(self.input(), 0)
    }

    /// What the whole input holds, or where it cannot be read to its end, what
    /// it holds before the fault.
    pub open spec fn held(&self) -> Seq<u8> {
        syntax::held(self.input(), 0)
    }

    /// What was read so far.
    pub closed spec fn delivered(&self) -> Seq<u8> {
        match self.stage {
            Stage::Block(d, _, _) => self.past@ + d.delivered(),
            _ => self.past@,
        }
    }

    /// Whether the end was reached.
    pub closed spec fn done(&self) -> bool {
        self.stage is Done
    }

    spec fn rest(&self) -> std::result::Result<Seq<u8>, Error> {
        match self.stage {
            Stage::Header => syntax::streamed(self.data@, self.at as int),
            Stage::Done => Ok(Seq::empty()),
            _ => syntax::streamed_blocks(self.data@, self.at as int, self.check, self.flag),
        }
    }

    spec fn held_rest(&self) -> Seq<u8> {
        match self.stage {
            Stage::Header => syntax::held(self.data@, self.at as int),
            Stage::Done => Seq::empty(),
            _ => syntax::held_blocks(self.data@, self.at as int, self.check, self.flag),
        }
    }

    spec fn block_ok(&self, d: Lzma2Decoder, checker: Checker, produced: u64) -> bool {
        &&& self.at < self.data.len()
        &&& self.data@[self.at as int] != 0
        &&& self.header_len == syntax::block_header_len(self.data@, self.at as int)
        &&& self.at + self.header_len <= self.data.len()
        &&& syntax::block_header(self.data@, self.at as int) matches Some(b) && b.filters.len() == 1
            && syntax::dictionary(b) == Ok::<int, Error>(d.dictionary()) && b.uncompressed
            == option_nat(self.declared)
        &&& d.wf()
        &&& d.input() == self.data@.skip(self.at + self.header_len)
        &&& checker.wf()
        &&& checker.check() == self.check
        &&& checker.covers(d.delivered())
        &&& produced == d.delivered().len()
    }

    /// The reader stands somewhere in its input.
    pub closed spec fn wf(&self) -> bool {
        &&& self.at <= self.data.len()
        &&& self.outcome() == error::joined(self.past@, self.rest())
        &&& self.held() == self.past@ + self.held_rest()
        &&& self.stage matches Stage::Block(d, c, n) ==> self.block_ok(d, c, n)
    }

    /// How much reading is left at most.
    pub closed spec fn budget(&self) -> (nat, nat) {
        let left = 2 * (self.data@.len() - self.at);
        match self.stage {
            Stage::Header => ((left + 2) as nat, 0),
            Stage::Between => ((left + 2) as nat, 0),
            Stage::Block(d, _, _) => ((left + 1) as nat, d.budget()),
            Stage::Done => (0, 0),
        }
    }

    /// What was read is a start of what the input holds; at the end it is all
    /// of it.
    pub proof fn lemma_delivered(&self)
        requires
            self.wf(),
        ensures
            self.outcome() matches Ok(all) ==> self.delivered().is_prefix_of(all),
            self.delivered().is_prefix_of(self.held()),
            self.done() ==> self.outcome() == Ok::<Seq<u8>, Error>(self.delivered()),
    {
        if let Stage::Block(d, _, _) = self.stage {
            d.lemma_delivered();
            assert(d.held().is_prefix_of(self.held_rest()));
            assert(self.delivered() =~= self.held().take(self.delivered().len() as int)) by {
                let n = d.delivered().len() as int;
                assert(d.delivered() == d.held().take(n));
                assert(self.held_rest().take(n) =~= self.held_rest().take(
                    d.held().len() as int,
                ).take(n));
            }
        } else {
            assert(self.delivered() =~= self.held().take(self.delivered().len() as int));
        }
        if let Ok(all) = self.outcome() {
            if let Stage::Block(d, _, _) = self.stage {
                d.lemma_delivered();
                let t = d.ending()->Some_0;
                assert(d.delivered() == t.all.take(d.delivered().len() as int));
                assert(self.delivered() =~= all.take(self.delivered().len() as int));
            } else {
                assert(self.delivered() =~= all.take(self.delivered().len() as int));
            }
        }
        if self.done() {
            assert(self.past@ + Seq::<u8>::empty() =~= self.past@);
        }
    }

    /// Wrap `inner` at the start of an xz stream.
    pub fn new(inner: Vec<u8>, size_hint: u64) -> (r: Self)
        ensures
            r.wf(),
            r.input() == inner@,
            r.delivered() == Seq::<u8>::empty(),
    {
        proof {
            if let Ok(out) = syntax::streamed(inner@, 0) {
                assert(Seq::<u8>::empty() + out =~= out);
            }
            let h = syntax::held(inner@, 0);
            assert(Seq::<u8>::empty() + h =~= h);
        }
        Reader {
            data: inner,
            at: 0,
            stage: Stage::Header,
            check: Check::Nothing,
            flag: 0,
            declared: None,
            header_len: 0,
            past: Ghost(Seq::empty()),
        }
    }

    fn read_stream_header(&mut self) -> (r: Result<()>)
        requires
            old(self).wf(),
            old(self).stage is Header,
        ensures
            match r {
                Ok(_) => {
                    &&& final(self).wf()
                    &&& final(self).data@ == old(self).data@
                    &&& final(self).past == old(self).past
                    &&& final(self).stage is Done || final(self).stage is Between && final(self).at
                        > old(self).at
                },
                Err(e) => old(self).outcome() == Err::<Seq<u8>, Error>(e) && old(self).held()
                    == old(self).past@,
            },
    {
        let data: &[u8] = self.data.as_slice();
        assert(self.past@ + Seq::<u8>::empty() =~= self.past@);
        let mut at: usize = self.at;
        while at < data.len()
            invariant
                self.at <= at <= data.len(),
                data@ == self.data@,
                *self == *old(self),
                self.wf(),
                self.stage is Header,
                syntax::streamed(data@, self.at as int) == syntax::streamed(data@, at as int),
                syntax::held(data@, self.at as int) == syntax::held(data@, at as int),
                self.past@ + Seq::<u8>::empty() == self.past@,
            ensures
                self.at <= at <= data.len(),
                syntax::streamed(data@, self.at as int) == syntax::streamed(data@, at as int),
                syntax::held(data@, self.at as int) == syntax::held(data@, at as int),
                at < data@.len() ==> at + 4 <= data@.len() && !(data@[at as int] == 0 && data@[at
                    + 1] == 0 && data@[at + 2] == 0 && data@[at + 3] == 0),
            decreases data@.len() - at,
        {
            if data.len() - at < 4 {
                return Err(Error::Malformed);
            }
            if !(data[at] == 0 && data[at + 1] == 0 && data[at + 2] == 0 && data[at + 3] == 0) {
                break;
            }
            at = at + 4;
        }
        if at >= data.len() {
            self.at = at;
            self.stage = Stage::Done;
            return Ok(());
        }
        let check: Check = match read_stream_header(data, at) {
            Ok(c) => c,
            Err(e) => {
                return Err(e);
            },
        };
        let flag: u8 = data[at + 7];
        self.check = check;
        self.flag = flag;
        self.at = at + 12;
        self.stage = Stage::Between;
        Ok(())
    }

    fn start_block(&mut self) -> (r: Result<()>)
        requires
            old(self).wf(),
            old(self).stage is Between,
        ensures
            match r {
                Ok(_) => {
                    &&& final(self).wf()
                    &&& final(self).data@ == old(self).data@
                    &&& final(self).past == old(self).past
                    &&& final(self).delivered() == final(self).past@
                    &&& final(self).stage is Header && final(self).at > old(self).at || final(
                        self).stage is Block && final(self).at == old(self).at
                },
                Err(e) => old(self).outcome() == Err::<Seq<u8>, Error>(e) && old(self).held()
                    == old(self).past@,
            },
    {
        let data: &[u8] = self.data.as_slice();
        assert(self.past@ + Seq::<u8>::empty() =~= self.past@);
        let at: usize = self.at;
        if at >= data.len() {
            return Err(Error::Malformed);
        }
        if data[at] == 0 {
            return self.finish_stream();
        }
        let (block, header_len) = match BlockHeader::read(data, at) {
            Some(v) => v,
            None => {
                return Err(Error::Malformed);
            },
        };
        let dict: u32 = match block.dictionary() {
            Ok(n) => n,
            Err(e) => {
                if e == Error::Malformed && block.filters.len() > 1 {
                    return Err(Error::Unsupported(Unsupported::Other));
                }
                return Err(e);
            },
        };
        if block.filters.len() > 1 {
            return Err(Error::Unsupported(Unsupported::Other));
        }
        let from: usize = at + header_len;
        let mut body: Vec<u8> = Vec::with_capacity(data.len() - from);
        body.extend_from_slice(&data[from..data.len()]);
        assert(body@ =~= data@.skip(from as int));
        self.declared = block.uncompressed_size;
        self.header_len = header_len;
        self.stage = Stage::Block(Lzma2Decoder::new(body, dict), Checker::new(self.check), 0);
        assert(self.past@ + Seq::<u8>::empty() =~= self.past@);
        Ok(())
    }

    #[verifier::rlimit(40)]
    #[verifier::spinoff_prover]
    fn finish_block(&mut self, decoder: Lzma2Decoder, checker: Checker, produced: u64) -> (r: Result<
        (),
    >)
        requires
            (Reader { stage: Stage::Block(decoder, checker, produced), ..*old(self) }).wf(),
            decoder.done(),
        ensures
            match r {
                Ok(_) => {
                    &&& final(self).wf()
                    &&& final(self).data@ == old(self).data@
                    &&& final(self).past@ == old(self).past@ + decoder.delivered()
                    &&& final(self).stage is Between
                    &&& final(self).at > old(self).at
                },
                Err(e) => old(self).outcome() == Err::<Seq<u8>, Error>(e) && old(self).held()
                    == old(self).past@ + decoder.delivered(),
            },
    {
        let ghost at = self.at as int;
        let ghost out = decoder.delivered();
        let ghost was = Reader { stage: Stage::Block(decoder, checker, produced), ..*self };
        proof {
            decoder.lemma_delivered();
            assert(was.rest() == syntax::streamed_blocks(self.data@, at, self.check, self.flag));
        }
        let ghost block = syntax::block_header(self.data@, at)->Some_0;
        let ghost t = decoder.ending()->Some_0;
        assert(syntax::plain_block(self.data@, at) == Ok::<(Block, lzma2::Chunked), Error>(
            (block, t),
        ));
        if let Some(want) = self.declared {
            if produced != want {
                return Err(Error::Malformed);
            }
        }
        let count: usize = decoder.consumed();
        let end: usize = self.at + self.header_len + count;
        let padding: usize = pad(count);
        if self.data.len() - end < padding + self.check.len() {
            return Err(Error::Malformed);
        }
        if !all_zero(self.data.as_slice(), end, end + padding) {
            return Err(Error::Malformed);
        }
        if !checker.verify(self.data.as_slice(), end + padding, Ghost(out)) {
            return Err(Error::Malformed);
        }
        let next: usize = end + padding + self.check.len();
        let ghost past = self.past@ + out;
        proof {
            assert(syntax::block_end(self.data@, at, self.check, block, t) == Some(next as int));
            if let Ok(more) = syntax::streamed_blocks(
                self.data@,
                next as int,
                self.check,
                self.flag,
            ) {
                assert(self.past@ + (out + more) =~= past + more);
            }
            let more = syntax::held_blocks(self.data@, next as int, self.check, self.flag);
            assert(self.past@ + (out + more) =~= past + more);
        }
        self.past = Ghost(past);
        self.at = next;
        self.stage = Stage::Between;
        Ok(())
    }

    fn finish_stream(&mut self) -> (r: Result<()>)
        requires
            old(self).wf(),
            old(self).stage is Between,
            old(self).at < old(self).data.len(),
            old(self).data@[old(self).at as int] == 0,
        ensures
            match r {
                Ok(_) => {
                    &&& final(self).wf()
                    &&& final(self).data@ == old(self).data@
                    &&& final(self).past == old(self).past
                    &&& final(self).stage is Header
                    &&& final(self).at > old(self).at
                },
                Err(e) => old(self).outcome() == Err::<Seq<u8>, Error>(e) && old(self).held()
                    == old(self).past@,
            },
    {
        assert(self.past@ + Seq::<u8>::empty() =~= self.past@);
        match verify_tail(self.data.as_slice(), self.at + 1, self.flag, false) {
            None => Err(Error::Malformed),
            Some(end) => {
                self.at = end;
                self.stage = Stage::Header;
                Ok(())
            },
        }
    }

    /// Read the next bytes of the content into `buf`. Nothing is read only at
    /// the end.
    #[verifier::rlimit(60)]
    #[verifier::spinoff_prover]
    pub fn read(&mut self, buf: &mut [u8]) -> (r: Result<usize>)
        requires
            old(self).wf(),
        ensures
            final(buf)@.len() == old(buf)@.len(),
            match r {
                Ok(n) => {
                    &&& final(self).wf()
                    &&& final(self).input() == old(self).input()
                    &&& n <= old(buf)@.len()
                    &&& final(self).delivered() == old(self).delivered() + final(buf)@.take(
                        n as int,
                    )
                    &&& final(buf)@.skip(n as int) == old(buf)@.skip(n as int)
                    &&& n == 0 && old(buf)@.len() > 0 ==> final(self).done()
                    &&& n > 0 ==> less(final(self).budget(), old(self).budget())
                },
                Err(e) => old(self).outcome() == Err::<Seq<u8>, Error>(e) && old(self).delivered()
                    == old(self).held(),
            },
    {
        if buf.len() == 0 {
            assert(buf@.take(0) =~= Seq::<u8>::empty());
            return Ok(0);
        }
        loop
            invariant
                self.wf(),
                self.input() == old(self).input(),
                self.delivered() == old(self).delivered(),
                buf@ == old(buf)@,
                buf@.len() > 0,
                self.budget().0 < old(self).budget().0 || self.budget() == old(self).budget(),
            decreases self.budget().0,
        {
            let mut stage: Stage = Stage::Done;
            std::mem::swap(&mut stage, &mut self.stage);
            match stage {
                Stage::Done => {
                    assert(buf@.take(0) =~= Seq::<u8>::empty());
                    return Ok(0);
                },
                Stage::Header => {
                    self.stage = Stage::Header;
                    if let Err(e) = self.read_stream_header() {
                        return Err(e);
                    }
                },
                Stage::Between => {
                    self.stage = Stage::Between;
                    if let Err(e) = self.start_block() {
                        return Err(e);
                    }
                },
                Stage::Block(d, checker, produced) => {
                    let mut decoder: Lzma2Decoder = d;
                    let ghost before = decoder;
                    proof {
                        before.lemma_delivered();
                    }
                    let n: usize = match decoder.read(buf) {
                        Ok(n) => n,
                        Err(e) => {
                            return Err(e);
                        },
                    };
                    proof {
                        decoder.lemma_delivered();
                    }
                    if n > 0 {
                        assert(buf@.subrange(0, n as int) =~= buf@.take(n as int));
                        let checker: Checker = checker.update(&buf[0..n]);
                        assert(checker.covers(before.delivered() + buf@.take(n as int)));
                        self.stage = Stage::Block(decoder, checker, produced + n as u64);
                        assert(self.delivered() =~= old(self).delivered() + buf@.take(n as int));
                        return Ok(n);
                    }
                    assert(before.delivered() + buf@.take(0) =~= before.delivered());
                    assert(buf@ =~= old(buf)@) by {
                        assert(buf@.skip(0) =~= buf@);
                        assert(old(buf)@.skip(0) =~= old(buf)@);
                    }
                    if let Err(e) = self.finish_block(decoder, checker, produced) {
                        return Err(e);
                    }
                },
            }
        }
    }
}

/// Whether one budget is smaller than another.
pub open spec fn less(a: (nat, nat), b: (nat, nat)) -> bool {
    a.0 < b.0 || a.0 == b.0 && a.1 < b.1
}

/// Reads an xz file of any kind by decoding it whole first.
pub struct SliceReader {
    inner: Option<Vec<u8>>,
    out: Vec<u8>,
    read: usize,
    size_hint: usize,
    input: Ghost<Seq<u8>>,
}

impl SliceReader {
    /// The whole input.
    pub closed spec fn input(&self) -> Seq<u8> {
        self.input@
    }

    /// What the whole input holds, or why it cannot be read.
    pub open spec fn outcome(&self) -> std::result::Result<Seq<u8>, Error> {
        syntax::decoded(self.input(), 0)
    }

    /// What was read so far.
    pub closed spec fn delivered(&self) -> Seq<u8> {
        self.out@.take(self.read as int)
    }

    /// The input is still there, or the output is what it decodes to.
    pub closed spec fn wf(&self) -> bool {
        &&& self.read <= self.out@.len()
        &&& match self.inner {
            Some(v) => v@ == self.input@ && self.out@.len() == 0,
            None => self.outcome() == Ok::<Seq<u8>, Error>(self.out@),
        }
    }

    /// What was read is a start of what the input holds.
    pub proof fn lemma_delivered(&self)
        requires
            self.wf(),
        ensures
            self.outcome() matches Ok(all) ==> self.delivered().is_prefix_of(all),
    {
        if let Ok(all) = self.outcome() {
            assert(self.delivered() =~= all.take(self.delivered().len() as int));
        }
    }

    /// A reader of `inner`.
    pub fn new(inner: Vec<u8>, size_hint: u64) -> (r: Self)
        ensures
            r.wf(),
            r.input() == inner@,
            r.delivered() == Seq::<u8>::empty(),
    {
        let ghost all = inner@;
        let r: SliceReader = SliceReader {
            inner: Some(inner),
            out: Vec::new(),
            read: 0,
            size_hint: if size_hint < 0x4000_0000 {
                size_hint as usize
            } else {
                0x4000_0000
            },
            input: Ghost(all),
        };
        assert(r.delivered() =~= Seq::<u8>::empty());
        r
    }

    /// Read the next bytes of the content into `buf`, as many as there are and
    /// as fit.
    pub fn read(&mut self, buf: &mut [u8]) -> (r: Result<usize>)
        requires
            old(self).wf(),
        ensures
            final(buf)@.len() == old(buf)@.len(),
            match r {
                Ok(n) => {
                    &&& final(self).wf()
                    &&& final(self).input() == old(self).input()
                    &&& n <= old(buf)@.len()
                    &&& final(self).delivered() == old(self).delivered() + final(buf)@.take(
                        n as int,
                    )
                    &&& final(buf)@.skip(n as int) == old(buf)@.skip(n as int)
                    &&& n < old(buf)@.len() ==> final(self).outcome() == Ok::<Seq<u8>, Error>(
                        final(self).delivered(),
                    )
                },
                Err(e) => old(self).outcome() == Err::<Seq<u8>, Error>(e) && old(self).delivered()
                    == Seq::<u8>::empty(),
            },
    {
        if let Some(raw) = self.inner.take() {
            let hint: usize = self.size_hint;
            match decompress(raw.as_slice(), hint) {
                Ok(out) => {
                    self.out = out;
                },
                Err(e) => {
                    return Err(e);
                },
            }
        }
        let left: usize = self.out.len() - self.read;
        let n: usize = if left < buf.len() {
            left
        } else {
            buf.len()
        };
        let ghost before = buf@;
        let mut i: usize = 0;
        while i < n
            invariant
                i <= n <= buf@.len(),
                buf@.len() == before.len(),
                n <= self.out.len() - self.read,
                self.read <= self.out.len(),
                forall|k: int| 0 <= k < i ==> #[trigger] buf@[k] == self.out@[self.read + k],
                forall|k: int| n <= k < buf@.len() ==> #[trigger] buf@[k] == before[k],
            decreases n - i,
        {
            buf[i] = self.out[self.read + i];
            i = i + 1;
        }
        self.read = self.read + n;
        proof {
            assert(old(self).delivered() =~= self.out@.take(old(self).read as int));
            assert(self.delivered() =~= old(self).delivered() + buf@.take(n as int));
            assert(buf@.skip(n as int) =~= before.skip(n as int));
            assert(self.out@.take(self.out@.len() as int) =~= self.out@);
        }
        Ok(n)
    }
}

} // verus!
