//! Reading a gzip stream piece by piece.
use crate::codecs::deflate::compress;
use crate::codecs::deflate::inflate;
use crate::codecs::deflate::inflate::{InflateReader, Variant};
use crate::codecs::gzip;
use crate::codecs::gzip::MemberView;
use crate::utils::bytes;
use crate::utils::bytes::{get_le16, get_le32};
use crate::utils::crc32;
use crate::utils::crc32::Crc32;
use crate::utils::error;
use crate::utils::error::{Error, Result, Unsupported};
use vstd::prelude::*;

verus! {

/// Where the header that `data` starts with ends. Its checksum is passed over.
#[verifier::opaque]
pub open spec fn header_end(data: Seq<u8>) -> std::result::Result<int, Error> {
    if data.len() < 10 || data[0] != 0x1f || data[1] != 0x8b {
        Err(Error::Malformed)
    } else if data[2] != 8 {
        Err(Error::Unsupported(Unsupported::CompressionMethod(data[2] as u16)))
    } else if data[3] >= 32 {
        Err(Error::Malformed)
    } else {
        let flags = data[3];
        match gzip::extra_at(data, 10, gzip::flag(flags, 4)) {
            None => Err(Error::Malformed),
            Some((_, a)) => match gzip::string_at(data, a, gzip::flag(flags, 8)) {
                None => Err(Error::Malformed),
                Some((_, b)) => match gzip::string_at(data, b, gzip::flag(flags, 16)) {
                    None => Err(Error::Malformed),
                    Some((_, c)) => if !gzip::flag(flags, 2) {
                        Ok(c)
                    } else if c + 2 > data.len() {
                        Err(Error::Malformed)
                    } else {
                        Ok(c + 2)
                    },
                },
            },
        }
    }
}

/// What follows the deflate stream of a member. A size is told as it is
/// counted, in 32 bits.
pub open spec fn trailer(data: Seq<u8>, at: int, produced: Seq<u8>) -> std::result::Result<
    (),
    Error,
> {
    match gzip::trailer(data, at, produced) {
        Err(Error::SizeMismatch { expected, .. }) => Err(
            Error::SizeMismatch { expected, found: (produced.len() % 0x1_0000_0000) as u64 },
        ),
        other => other,
    }
}

/// The content of the member that `data` starts with, and its length.
pub open spec fn member(data: Seq<u8>) -> std::result::Result<(Seq<u8>, int), Error> {
    match header_end(data) {
        Err(e) => Err(e),
        Ok(n) => match inflate::inflated(Variant::Deflate, data.skip(n)) {
            None => Err(Error::Malformed),
            Some((produced, end)) => {
                let next = n + gzip::whole_bytes(end, (data.len() - n) as nat);
                match trailer(data, next, produced) {
                    Err(e) => Err(e),
                    Ok(_) => Ok((produced, next + 8)),
                }
            },
        },
    }
}

/// Whether a stream ends before `data`: there is nothing, or a header of zeros.
pub open spec fn at_end(data: Seq<u8>) -> bool {
    data.len() == 0 || data.len() >= 10 && forall|i: int| 0 <= i < 10 ==> #[trigger] data[i] == 0
}

/// The content of all members.
pub open spec fn streamed(data: Seq<u8>) -> std::result::Result<Seq<u8>, Error>
    decreases data.len(),
{
    if at_end(data) {
        Ok(Seq::empty())
    } else {
        match member(data) {
            Err(e) => Err(e),
            Ok((out, used)) => if 0 < used <= data.len() {
                error::joined(out, streamed(data.skip(used)))
            } else {
                Err(Error::Malformed)
            },
        }
    }
}

/// What is held up to the end or up to the first fault: the content of whole
/// members, and of the one that the fault is in what its deflate stream holds
/// before that.
pub open spec fn held(data: Seq<u8>) -> Seq<u8>
    decreases data.len(),
{
    if at_end(data) {
        Seq::empty()
    } else {
        match header_end(data) {
            Err(_) => Seq::empty(),
            Ok(n) => {
                let content = inflate::held(Variant::Deflate, data.skip(n));
                match member(data) {
                    Err(_) => content,
                    Ok((_, used)) => if 0 < used <= data.len() {
                        content + held(data.skip(used))
                    } else {
                        content
                    },
                }
            },
        }
    }
}

/// Where both can read a header, they agree on where it ends.
proof fn lemma_header_agrees(data: Seq<u8>)
    requires
        gzip::header(data) is Ok,
    ensures
        header_end(data) == Ok::<int, Error>((gzip::header(data)->Ok_0).1),
{
    reveal(header_end);
    reveal(gzip::header);
}

/// A member written is read back, whatever follows it.
pub proof fn lemma_member_read(r: Seq<u8>, after: Seq<u8>, m: MemberView, d: Seq<u8>)
    requires
        gzip::member_ok(m),
        gzip::is_member(r, m, d),
    ensures
        streamed(r + after) == error::joined(d, streamed(after)),
{
    let data = r + after;
    let body = choose|body: Seq<u8>|
        #[trigger] compress::is_stream(body, d) && r == gzip::header_bytes(m) + body
            + gzip::trailer_bytes(d);
    let h = gzip::header_bytes(m);
    let t = gzip::trailer_bytes(d);
    bytes::lemma_le_bytes_len(crc32::crc32(d) as nat, 4);
    bytes::lemma_le_bytes_len(d.len() % 0x1_0000_0000, 4);
    assert(data =~= h + (body + t + after));
    gzip::lemma_header_read(m, body + t + after);
    lemma_header_agrees(data);
    assert(data.skip(h.len() as int) =~= body + (t + after));
    compress::lemma_stream_then(body, t + after, d);
    let next = (h.len() + body.len()) as int;
    assert(data.subrange(next, next + 8) =~= t);
    gzip::lemma_trailer_read(data, next, d);
    assert(data[0] == h[0]);
    assert(member(data) == Ok::<(Seq<u8>, int), Error>((d, next + 8)));
    assert(data.skip(next + 8) =~= after);
}

/// What was compressed is read back, and the same as all at once.
pub proof fn lemma_round_trip(r: Seq<u8>, m: MemberView, d: Seq<u8>)
    requires
        gzip::member_ok(m),
        gzip::is_member(r, m, d),
    ensures
        streamed(r) == Ok::<Seq<u8>, Error>(d),
        gzip::members(r, 0, Seq::empty()) == streamed(r),
{
    gzip::lemma_round_trip(r, m, d);
    lemma_member_read(r, Seq::empty(), m, d);
    assert(r + Seq::<u8>::empty() =~= r);
    assert(streamed(Seq::<u8>::empty()) == Ok::<Seq<u8>, Error>(Seq::empty()));
    assert(d + Seq::<u8>::empty() =~= d);
}

/// Members that follow one another are all read, up to the end or to a header
/// of zeros.
pub proof fn lemma_members_join(
    r: Seq<u8>,
    m: MemberView,
    d: Seq<u8>,
    s: Seq<u8>,
    n: MemberView,
    e: Seq<u8>,
    after: Seq<u8>,
)
    requires
        gzip::member_ok(m),
        gzip::is_member(r, m, d),
        gzip::member_ok(n),
        gzip::is_member(s, n, e),
        at_end(after),
    ensures
        streamed(r + s + after) == Ok::<Seq<u8>, Error>(d + e),
{
    assert(r + s + after =~= r + (s + after));
    lemma_member_read(r, s + after, m, d);
    lemma_member_read(s, after, n, e);
    assert(e + Seq::<u8>::empty() =~= e);
}

/// A member whose trailer was changed is refused as it is all at once, but
/// that a size is told as it is counted.
#[verifier::spinoff_prover]
#[verifier::rlimit(60)]
pub proof fn lemma_trailer_changed(
    r: Seq<u8>,
    m: MemberView,
    d: Seq<u8>,
    t: Seq<u8>,
    after: Seq<u8>,
)
    requires
        gzip::member_ok(m),
        gzip::is_member(r, m, d),
        t.len() == 8,
        t != gzip::trailer_bytes(d),
    ensures
        gzip::told(t, d) matches Err(e) && streamed(r.take(r.len() - 8) + t + after) == Err::<
            Seq<u8>,
            Error,
        >(
            match e {
                Error::SizeMismatch { expected, .. } => Error::SizeMismatch {
                    expected,
                    found: (d.len() % 0x1_0000_0000) as u64,
                },
                other => other,
            },
        ),
{
    gzip::lemma_trailer_changed(r, m, d, t, after);
    let body = choose|body: Seq<u8>|
        #[trigger] compress::is_stream(body, d) && r == gzip::header_bytes(m) + body
            + gzip::trailer_bytes(d);
    let h = gzip::header_bytes(m);
    bytes::lemma_le_bytes_len(crc32::crc32(d) as nat, 4);
    bytes::lemma_le_bytes_len(d.len() % 0x1_0000_0000, 4);
    let data = r.take(r.len() - 8) + t + after;
    assert(data =~= h + (body + (t + after)));
    gzip::lemma_header_read(m, body + (t + after));
    lemma_header_agrees(data);
    assert(data.skip(h.len() as int) =~= body + (t + after));
    compress::lemma_stream_then(body, t + after, d);
    let next = (h.len() + body.len()) as int;
    assert(data.skip(next) =~= t + after);
    assert(bytes::le(t + after, 0, 4) == bytes::le(t, 0, 4)) by {
        reveal_with_fuel(bytes::le, 5);
    }
    assert(bytes::le(t + after, 4, 4) == bytes::le(t, 4, 4)) by {
        reveal_with_fuel(bytes::le, 5);
    }
    bytes::lemma_le_skip(data, next, 0, 4);
    bytes::lemma_le_skip(data, next, 4, 4);
    assert(data[0] == h[0]);
    reveal(gzip::trailer);
}

fn skip_string(data: &[u8], at: usize) -> (r: Result<usize>)
    requires
        at <= data.len(),
    ensures
        match gzip::zero_at(data@, at as int) {
            Some(end) => r matches Ok(n) && n == end + 1 && at < n <= data.len(),
            None => r == Err::<usize, Error>(Error::Malformed),
        },
{
    let mut end: usize = at;
    while end < data.len() && data[end] != 0
        invariant
            at <= end <= data.len(),
            gzip::zero_at(data@, at as int) == gzip::zero_at(data@, end as int),
        decreases data@.len() - end,
    {
        end = end + 1;
    }
    if end == data.len() {
        return Err(Error::Malformed);
    }
    Ok(end + 1)
}

fn skip_header(data: &[u8]) -> (r: Result<usize>)
    ensures
        match header_end(data@) {
            Ok(n) => r matches Ok(m) && m == n && 10 <= m <= data.len(),
            Err(e) => r == Err::<usize, Error>(e),
        },
{
    reveal(header_end);
    if data.len() < 10 || data[0] != 0x1f || data[1] != 0x8b {
        return Err(Error::Malformed);
    }
    if data[2] != 8 {
        return Err(Error::Unsupported(Unsupported::CompressionMethod(data[2] as u16)));
    }
    let flags: u8 = data[3];
    if flags >= 32 {
        return Err(Error::Malformed);
    }
    let mut at: usize = 10;
    if (flags / 4) % 2 == 1 {
        if data.len() - at < 2 {
            return Err(Error::Malformed);
        }
        let len: usize = get_le16(data, at) as usize;
        at = at + 2;
        if len > data.len() - at {
            return Err(Error::Malformed);
        }
        at = at + len;
    }
    if (flags / 8) % 2 == 1 {
        at = match skip_string(data, at) {
            Ok(n) => n,
            Err(e) => {
                return Err(e);
            },
        };
    }
    if (flags / 16) % 2 == 1 {
        at = match skip_string(data, at) {
            Ok(n) => n,
            Err(e) => {
                return Err(e);
            },
        };
    }
    if (flags / 2) % 2 == 1 {
        if data.len() - at < 2 {
            return Err(Error::Malformed);
        }
        at = at + 2;
    }
    Ok(at)
}

fn is_at_end(data: &[u8]) -> (r: bool)
    ensures
        r == at_end(data@),
{
    if data.len() == 0 {
        return true;
    }
    if data.len() < 10 {
        return false;
    }
    let mut i: usize = 0;
    while i < 10
        invariant
            i <= 10 <= data@.len(),
            forall|k: int| 0 <= k < i ==> #[trigger] data@[k] == 0,
        decreases 10 - i,
    {
        if data[i] != 0 {
            return false;
        }
        i = i + 1;
    }
    true
}

fn tail_of(data: &[u8], from: usize) -> (r: Vec<u8>)
    requires
        from <= data@.len(),
    ensures
        r@ == data@.skip(from as int),
{
    let mut rest: Vec<u8> = Vec::with_capacity(data.len() - from);
    rest.extend_from_slice(&data[from..data.len()]);
    assert(rest@ =~= data@.skip(from as int));
    rest
}

/// A count in 32 bits, `n` further on.
fn counted(produced: u32, n: usize, Ghost(len): Ghost<nat>) -> (r: u32)
    requires
        produced == len % 0x1_0000_0000,
    ensures
        r == (len + n) % 0x1_0000_0000,
{
    let more: u32 = (n as u64 % 0x1_0000_0000) as u32;
    produced.wrapping_add(more)
}

enum Stage {
    Between(Vec<u8>),
    Member(InflateReader),
    Done,
}

/// Streaming gzip reader across every member of the stream.
///
/// The input is held whole; of what it decodes to, no more than one inflate
/// window and what was not read yet.
pub struct GzipReader {
    stage: Stage,
    crc: Crc32,
    produced: u32,
    input: Ghost<Seq<u8>>,
    past: Ghost<Seq<u8>>,
    here: Ghost<Seq<u8>>,
}

/// Whether one budget is smaller than another.
pub open spec fn less(a: (nat, nat), b: (nat, nat)) -> bool {
    a.0 < b.0 || a.0 == b.0 && a.1 < b.1
}

impl GzipReader {
    /// The whole input.
    pub closed spec fn input(&self) -> Seq<u8> {
        self.input@
    }

    /// What the whole input holds, or why it cannot be read.
    pub open spec fn outcome(&self) -> std::result::Result<Seq<u8>, Error> {
        streamed(self.input())
    }

    /// What the whole input holds, or where it cannot be read to its end, what
    /// it holds before the fault.
    pub open spec fn held(&self) -> Seq<u8> {
        held(self.input())
    }

    /// What was read so far.
    pub closed spec fn delivered(&self) -> Seq<u8> {
        match self.stage {
            Stage::Member(d) => self.past@ + d.delivered(),
            _ => self.past@,
        }
    }

    /// Whether the end was reached.
    pub closed spec fn done(&self) -> bool {
        self.stage is Done
    }

    spec fn member_ok(&self, d: InflateReader) -> bool {
        &&& !at_end(self.here@)
        &&& d.wf()
        &&& d.format() == Variant::Deflate
        &&& header_end(self.here@) matches Ok(n) && 10 <= n <= self.here@.len() && d.input()
            == self.here@.skip(n)
        &&& self.crc.wf()
        &&& self.crc.covers(d.delivered())
        &&& self.produced == d.delivered().len() % 0x1_0000_0000
    }

    /// The reader stands somewhere in its input.
    pub closed spec fn wf(&self) -> bool {
        match self.stage {
            Stage::Between(source) => {
                &&& source@ == self.here@
                &&& self.outcome() == error::joined(self.past@, streamed(self.here@))
                &&& self.held() == self.past@ + held(self.here@)
            },
            Stage::Member(d) => {
                &&& self.outcome() == error::joined(self.past@, streamed(self.here@))
                &&& self.held() == self.past@ + held(self.here@)
                &&& self.member_ok(d)
            },
            Stage::Done => self.outcome() == Ok::<Seq<u8>, Error>(self.past@) && self.held()
                == self.past@,
        }
    }

    /// How much reading is left at most.
    pub closed spec fn budget(&self) -> (nat, nat) {
        match self.stage {
            Stage::Between(_) => (2 * self.here@.len() + 1, 0),
            Stage::Member(d) => (2 * self.here@.len(), d.budget()),
            Stage::Done => (0, 0),
        }
    }

    /// What was read is a start of what the input holds; at the end it is all
    /// of it.
    pub proof fn lemma_delivered(&self)
        requires
            self.wf(),
        ensures
            self.outcome() matches Ok(all) ==> self.delivered().is_prefix_of(all),
            self.delivered().is_prefix_of(self.held()),
            self.done() ==> self.outcome() == Ok::<Seq<u8>, Error>(self.delivered()),
    {
        let h = self.held();
        if let Stage::Member(d) = self.stage {
            d.lemma_delivered();
            let rest = held(self.here@);
            let k = d.held().len() as int;
            let n = d.delivered().len() as int;
            assert(rest.take(k) =~= d.held());
            assert(rest.take(n) =~= rest.take(k).take(n));
            assert(self.delivered() =~= h.take(self.delivered().len() as int));
        } else {
            assert(self.delivered() =~= h.take(self.delivered().len() as int));
        }
        if let Ok(all) = self.outcome() {
            if let Stage::Member(d) = self.stage {
                d.lemma_delivered();
                let whole = (d.stream()->Some_0).0;
                assert(d.delivered() == whole.take(d.delivered().len() as int));
                assert(self.delivered() =~= all.take(self.delivered().len() as int));
            } else {
                assert(self.delivered() =~= all.take(self.delivered().len() as int));
            }
        }
    }

    /// Wrap `inner` at the start of a gzip stream.
    pub fn new(inner: Vec<u8>) -> (r: Self)
        ensures
            r.wf(),
            r.input() == inner@,
            r.delivered() == Seq::<u8>::empty(),
    {
        let ghost all = inner@;
        proof {
            if let Ok(out) = streamed(all) {
                assert(Seq::<u8>::empty() + out =~= out);
            }
            assert(Seq::<u8>::empty() + held(all) =~= held(all));
        }
        GzipReader {
            stage: Stage::Between(inner),
            crc: Crc32::new(),
            produced: 0,
            input: Ghost(all),
            past: Ghost(Seq::empty()),
            here: Ghost(all),
        }
    }

    fn start_member(&mut self, source: Vec<u8>) -> (r: Result<()>)
        requires
            old(self).outcome() == error::joined(old(self).past@, streamed(source@)),
            old(self).held() == old(self).past@ + held(source@),
        ensures
            match r {
                Ok(_) => final(self).wf() && final(self).input == old(self).input && final(
                self).delivered() == old(self).past@ && !(final(self).stage is Between)
                    && final(self).past == old(self).past && (final(self).stage is Member
                    ==> final(self).here@ == source@),
                Err(e) => old(self).outcome() == Err::<Seq<u8>, Error>(e),
            },
    {
        self.here = Ghost(source@);
        if is_at_end(source.as_slice()) {
            self.stage = Stage::Done;
            assert(self.past@ + Seq::<u8>::empty() =~= self.past@);
            return Ok(());
        }
        let n: usize = match skip_header(source.as_slice()) {
            Ok(n) => n,
            Err(e) => {
                return Err(e);
            },
        };
        let body: Vec<u8> = tail_of(source.as_slice(), n);
        self.crc = Crc32::new();
        self.produced = 0;
        self.stage = Stage::Member(InflateReader::new(body));
        assert(self.past@ + Seq::<u8>::empty() =~= self.past@);
        Ok(())
    }

    #[verifier::spinoff_prover]
    #[verifier::rlimit(60)]
    fn finish_member(&mut self, reader: InflateReader) -> (r: Result<()>)
        requires
            (GzipReader { stage: Stage::Member(reader), ..*old(self) }).wf(),
            reader.finished(),
        ensures
            match r {
                Ok(_) => final(self).wf() && final(self).input == old(self).input && final(
                self).past@ == old(self).past@ + reader.delivered() && final(self).stage is Between
                    && final(self).here@.len() < old(self).here@.len(),
                Err(e) => old(self).outcome() == Err::<Seq<u8>, Error>(e),
            },
    {
        let ghost here = self.here@;
        let ghost out = reader.delivered();
        let ghost n = header_end(here)->Ok_0;
        proof {
            reader.lemma_delivered();
            inflate::lemma_inflated_end(Variant::Deflate, here.skip(n));
        }
        let ghost past = self.past@ + out;
        let (source, leftover) = reader.into_parts();
        let ghost at = here.len() - leftover@.len();
        proof {
            assert(leftover@ =~= here.skip(at));
            assert(member(here) == match trailer(here, at, out) {
                Err(e) => Err(e),
                Ok(_) => Ok::<(Seq<u8>, int), Error>((out, at + 8)),
            });
            reveal(gzip::trailer);
            if leftover@.len() >= 8 {
                bytes::lemma_le_skip(here, at, 0, 4);
                bytes::lemma_le_skip(here, at, 4, 4);
            }
        }
        if leftover.len() < 8 {
            return Err(Error::Malformed);
        }
        let stored_crc: u32 = get_le32(leftover.as_slice(), 0);
        let stored_len: u32 = get_le32(leftover.as_slice(), 4);
        let computed: u32 = self.crc.finish();
        if computed != stored_crc {
            return Err(Error::ChecksumMismatch { expected: stored_crc, found: computed });
        }
        if self.produced != stored_len {
            return Err(
                Error::SizeMismatch { expected: stored_len as u64, found: self.produced as u64 },
            );
        }
        let rest: Vec<u8> = tail_of(leftover.as_slice(), 8);
        proof {
            assert(rest@ =~= here.skip(at + 8));
            if let Ok(more) = streamed(rest@) {
                assert(self.past@ + (out + more) =~= past + more);
            }
            inflate::lemma_held(Variant::Deflate, here.skip(n));
            assert(self.past@ + (out + held(rest@)) =~= past + held(rest@));
        }
        self.past = Ghost(past);
        self.here = Ghost(rest@);
        self.stage = Stage::Between(rest);
        Ok(())
    }

    /// Read the next bytes of the content into `buf`. Nothing is read only at
    /// the end.
    #[verifier::rlimit(40)]
    #[verifier::spinoff_prover]
    pub fn read(&mut self, buf: &mut [u8]) -> (r: Result<usize>)
        requires
            old(self).wf(),
        ensures
            final(buf)@.len() == old(buf)@.len(),
            match r {
                Ok(n) => {
                    &&& final(self).wf()
                    &&& final(self).input() == old(self).input()
                    &&& n <= old(buf)@.len()
                    &&& final(self).delivered() == old(self).delivered() + final(buf)@.take(
                        n as int,
                    )
                    &&& final(buf)@.skip(n as int) == old(buf)@.skip(n as int)
                    &&& n == 0 && old(buf)@.len() > 0 ==> final(self).done()
                    &&& n > 0 ==> less(final(self).budget(), old(self).budget())
                },
                Err(e) => old(self).outcome() == Err::<Seq<u8>, Error>(e) && old(
                    self,
                ).delivered().is_prefix_of(old(self).held()),
            },
    {
        if buf.len() == 0 {
            assert(buf@.take(0) =~= Seq::<u8>::empty());
            return Ok(0);
        }
        proof {
            self.lemma_delivered();
        }
        loop
            invariant
                self.wf(),
                self.input() == old(self).input(),
                self.delivered() == old(self).delivered(),
                old(self).delivered().is_prefix_of(old(self).held()),
                buf@ == old(buf)@,
                buf@.len() > 0,
                self.budget().0 < old(self).budget().0 || self.budget() == old(self).budget(),
            decreases self.budget().0,
        {
            let mut stage: Stage = Stage::Done;
            std::mem::swap(&mut stage, &mut self.stage);
            match stage {
                Stage::Done => {
                    assert(buf@.take(0) =~= Seq::<u8>::empty());
                    return Ok(0);
                },
                Stage::Between(source) => {
                    if let Err(e) = self.start_member(source) {
                        return Err(e);
                    }
                },
                Stage::Member(d) => {
                    let mut reader: InflateReader = d;
                    let ghost before = reader;
                    let n: usize = match reader.read(buf) {
                        Ok(n) => n,
                        Err(e) => {
                            return Err(e);
                        },
                    };
                    if n > 0 {
                        assert(buf@.subrange(0, n as int) =~= buf@.take(n as int));
                        self.crc.update(&buf[0..n]);
                        assert(self.crc.covers(before.delivered() + buf@.take(n as int)));
                        let produced: u32 = self.produced;
                        self.produced = counted(produced, n, Ghost(before.delivered().len()));
                        self.stage = Stage::Member(reader);
                        assert(self.delivered() =~= old(self).delivered() + buf@.take(n as int));
                        return Ok(n);
                    }
                    assert(before.delivered() + buf@.take(0) =~= before.delivered());
                    assert(buf@ =~= old(buf)@) by {
                        assert(buf@.skip(0) =~= buf@);
                        assert(old(buf)@.skip(0) =~= old(buf)@);
                    }
                    if let Err(e) = self.finish_member(reader) {
                        return Err(e);
                    }
                },
            }
        }
    }
}

} // verus!
