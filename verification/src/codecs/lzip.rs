//! The lzip container.
use crate::codecs::lzma::decode::{LzmaDecoder, Properties};
use crate::codecs::lzma::encode;
use crate::codecs::lzma::encode::dictionary_at;
use crate::codecs::lzma::marked;
use crate::codecs::lzma::marked::Marked;
use crate::codecs::lzma::syntax;
use crate::codecs::lzma::syntax::{Ending, MAX_TOTAL};
use crate::codecs::Level;
use crate::utils::bits;
use crate::utils::bytes;
use crate::utils::bytes::{get_le32, get_le64, put_le};
use crate::utils::crc32;
use crate::utils::crc32::{checksum, Crc32};
use crate::utils::error;
use crate::utils::error::{Error, Result, Unsupported};
use vstd::arithmetic::power2::*;
use vstd::prelude::*;

verus! {

/// The bytes a member starts with.
pub const MAGIC: [u8; 4] = [0x4c, 0x5a, 0x49, 0x50];

const HEADER_LEN: usize = 6;

const TRAILER_LEN: usize = 20;

/// Whether `data` starts with the magic.
pub open spec fn has_magic(data: Seq<u8>) -> bool {
    data.len() >= 4 && data[0] == 0x4c && data[1] == 0x5a && data[2] == 0x49 && data[3] == 0x50
}

/// Whether a byte string can be the start of an lzip stream.
pub fn is_lzip(prefix: &[u8]) -> (r: bool)
    ensures
        r == has_magic(prefix@),
{
    prefix.len() >= 4 && prefix[0] == MAGIC[0] && prefix[1] == MAGIC[1] && prefix[2] == MAGIC[2]
        && prefix[3] == MAGIC[3]
}

/// The dictionary size that a byte stands for: a power of two, less some
/// sixteenths of it.
pub open spec fn dictionary_of(coded: int) -> Option<int> {
    let exponent = (coded % 32) as nat;
    if 12 <= exponent <= 29 {
        Some(pow2(exponent) - (pow2(exponent) / 16) * ((coded / 32) % 8))
    } else {
        None
    }
}

/// The size of a dictionary: a power of two, less up to seven sixteenths.
pub proof fn lemma_dictionary(exponent: nat, less: int)
    requires
        12 <= exponent <= 29,
        0 <= less < 8,
    ensures
        dictionary_of(32 * less + exponent) matches Some(n) && 16 * n == (16 - less) * pow2(
            exponent,
        ),
{
    let p = pow2((exponent - 4) as nat) as int;
    lemma_pow2_adds((exponent - 4) as nat, 4);
    lemma2_to64();
    assert(pow2(exponent) == p * 16);
    assert((32 * less + exponent) % 32 == exponent);
    assert((32 * less + exponent) / 32 == less);
    assert(16 * (p * 16 - p * less) == (16 - less) * (p * 16)) by (nonlinear_arith);
}

proof fn lemma_exponent(exponent: nat)
    requires
        12 <= exponent <= 29,
    ensures
        4096 <= pow2(exponent) <= 0x2000_0000,
{
    lemma2_to64();
    if exponent > 12 {
        lemma_pow2_strictly_increases(12, exponent);
    }
    if exponent < 29 {
        lemma_pow2_strictly_increases(exponent, 29);
    }
}

/// The first exponent whose power of two is at least as large as wanted.
fn dictionary_code(wanted: u32) -> (r: u8)
    ensures
        12 <= r <= 29,
        wanted <= 0x2000_0000 ==> pow2(r as nat) >= wanted,
        forall|e: nat| 12 <= e < r ==> #[trigger] pow2(e) < wanted,
{
    let mut exponent: u32 = 12;
    while exponent < 29
        invariant
            12 <= exponent <= 29,
            forall|e: nat| 12 <= e < exponent ==> #[trigger] pow2(e) < wanted,
        decreases 29 - exponent,
    {
        if bits::power_of_two(exponent) >= wanted as u64 {
            return exponent as u8;
        }
        exponent = exponent + 1;
    }
    proof {
        lemma2_to64();
    }
    29
}

fn dictionary_size(coded: u8) -> (r: Result<u32>)
    ensures
        match dictionary_of(coded as int) {
            Some(size) => r matches Ok(s) && s == size && 1 <= s <= 0x2000_0000,
            None => r == Err::<u32, Error>(Error::Malformed),
        },
{
    let exponent: u32 = (coded % 32) as u32;
    if exponent < 12 || exponent > 29 {
        return Err(Error::Malformed);
    }
    proof {
        lemma_exponent(exponent as nat);
    }
    let base: u32 = bits::power_of_two(exponent) as u32;
    let part: u32 = ((coded / 32) % 8) as u32;
    assert((base / 16) * part <= (base / 16) * 7) by (nonlinear_arith)
        requires
            part <= 7,
    ;
    let subtract: u32 = (base / 16) * part;
    Ok(base - subtract)
}

/// The parameters of every member.
pub open spec fn member_props(dict: int) -> Properties {
    Properties { lc: 3, lp: 0, pb: 2, dict_size: dict as u32 }
}

/// What the header of a member says.
pub open spec fn header(data: Seq<u8>) -> std::result::Result<Properties, Error> {
    if data.len() < 6 || !has_magic(data) {
        Err(Error::Malformed)
    } else if data[4] != 1 {
        Err(Error::Unsupported(Unsupported::Other))
    } else {
        match dictionary_of(data[5] as int) {
            Some(dict) => Ok(member_props(dict)),
            None => Err(Error::Malformed),
        }
    }
}

/// How much of its input a raw stream uses.
pub open spec fn used_by(data: Seq<u8>, p: Properties) -> int {
    let pos = match syntax::stream_ending(data, p, None) {
        Ending::Limit(t) => t.dec.coder.pos,
        Ending::Marker(t) => t.dec.coder.pos,
        Ending::Bad => 0,
    };
    if pos <= data.len() {
        pos
    } else {
        data.len() as int
    }
}

/// What the trailer says of the content.
pub open spec fn trailer(data: Seq<u8>, at: int, out: Seq<u8>) -> std::result::Result<(), Error> {
    let crc = bytes::le(data, at, 4) as u32;
    let size = bytes::le(data, at + 4, 8) as u64;
    if at + 20 > data.len() {
        Err(Error::Malformed)
    } else if crc32::crc32(out) != crc {
        Err(Error::ChecksumMismatch { expected: crc, found: crc32::crc32(out) })
    } else if out.len() != size {
        Err(Error::SizeMismatch { expected: size, found: out.len() as u64 })
    } else {
        Ok(())
    }
}

/// The content of the member that `data` starts with, and its length.
pub open spec fn member(data: Seq<u8>) -> std::result::Result<(Seq<u8>, int), Error> {
    match header(data) {
        Err(e) => Err(e),
        Ok(p) => {
            let body = data.skip(6);
            match syntax::stream(body, p, None) {
                None => Err(Error::Malformed),
                Some(out) => {
                    let at = 6 + used_by(body, p);
                    match trailer(data, at, out) {
                        Err(e) => Err(e),
                        Ok(_) => Ok((out, at + 20)),
                    }
                },
            }
        },
    }
}

/// Whether all bytes are zero.
pub open spec fn all_zero(data: Seq<u8>) -> bool {
    forall|i: int| 0 <= i < data.len() ==> #[trigger] data[i] == 0
}

/// The content of all members; zeros may follow the last.
pub open spec fn decoded(data: Seq<u8>) -> std::result::Result<Seq<u8>, Error>
    decreases data.len(),
{
    if all_zero(data) {
        Ok(Seq::empty())
    } else {
        match member(data) {
            Err(e) => Err(e),
            Ok((out, used)) => if 0 < used <= data.len() {
                error::joined(out, decoded(data.skip(used)))
            } else {
                Err(Error::Malformed)
            },
        }
    }
}

/// The content of all members, up to a header of zeros.
pub open spec fn streamed(data: Seq<u8>) -> std::result::Result<Seq<u8>, Error>
    decreases data.len(),
{
    if data.len() == 0 || data.len() >= 6 && all_zero(data.take(6)) {
        Ok(Seq::empty())
    } else {
        match member(data) {
            Err(e) => Err(e),
            Ok((out, used)) => if 0 < used <= data.len() {
                error::joined(out, streamed(data.skip(used)))
            } else {
                Err(Error::Malformed)
            },
        }
    }
}

/// What is held up to the end or up to the first fault: the content of whole
/// members, and of the one that the fault is in what its stream holds before
/// that.
pub open spec fn held(data: Seq<u8>) -> Seq<u8>
    decreases data.len(),
{
    if data.len() == 0 || data.len() >= 6 && all_zero(data.take(6)) {
        Seq::empty()
    } else {
        match header(data) {
            Err(_) => Seq::empty(),
            Ok(p) => {
                let content = syntax::held(data.skip(6), p, None);
                match member(data) {
                    Err(_) => content,
                    Ok((_, used)) => if 0 < used <= data.len() {
                        content + held(data.skip(used))
                    } else {
                        content
                    },
                }
            },
        }
    }
}

fn is_zero(data: &[u8], from: usize, to: usize) -> (r: bool)
    requires
        from <= to <= data@.len(),
    ensures
        r == all_zero(data@.subrange(from as int, to as int)),
{
    let mut i: usize = from;
    let ghost part = data@.subrange(from as int, to as int);
    while i < to
        invariant
            from <= i <= to <= data@.len(),
            part == data@.subrange(from as int, to as int),
            forall|k: int| 0 <= k < i - from ==> #[trigger] part[k] == 0,
        decreases to - i,
    {
        assert(part[i - from] == data@[i as int]);
        if data[i] != 0 {
            return false;
        }
        i = i + 1;
    }
    true
}

fn read_header(data: &[u8]) -> (r: Result<Properties>)
    ensures
        r == header(data@),
        r matches Ok(p) ==> syntax::props_ok(p),
{
    if data.len() < HEADER_LEN || !is_lzip(data) {
        return Err(Error::Malformed);
    }
    if data[4] != 1 {
        return Err(Error::Unsupported(Unsupported::Other));
    }
    match dictionary_size(data[5]) {
        Ok(dict) => Ok(Properties { lc: 3, lp: 0, pb: 2, dict_size: dict }),
        Err(e) => Err(e),
    }
}

fn check_trailer(data: &[u8], at: usize, computed: u32, produced: u64, Ghost(out): Ghost<Seq<u8>>)
    -> (r: Result<()>)
    requires
        at <= data.len(),
        computed == crc32::crc32(out),
        produced == out.len(),
    ensures
        r == trailer(data@, at as int, out),
{
    if data.len() - at < TRAILER_LEN {
        return Err(Error::Malformed);
    }
    let stored_crc: u32 = get_le32(data, at);
    let stored_size: u64 = get_le64(data, at + 4);
    if computed != stored_crc {
        return Err(Error::ChecksumMismatch { expected: stored_crc, found: computed });
    }
    if produced != stored_size {
        return Err(Error::SizeMismatch { expected: stored_size, found: produced });
    }
    Ok(())
}

fn tail_of(data: &[u8], from: usize) -> (r: Vec<u8>)
    requires
        from <= data@.len(),
    ensures
        r@ == data@.skip(from as int),
{
    let mut rest: Vec<u8> = Vec::with_capacity(data.len() - from);
    rest.extend_from_slice(&data[from..data.len()]);
    assert(rest@ =~= data@.skip(from as int));
    rest
}

/// Decode every member of an lzip stream, concatenating their contents.
pub fn decompress(data: &[u8], size_hint: usize) -> (r: Result<Vec<u8>>)
    ensures
        match decoded(data@) {
            Ok(all) => r matches Ok(out) && out@ == all,
            Err(e) => r == Err::<Vec<u8>, Error>(e),
        },
{
    let mut out: Vec<u8> = Vec::new();
    let mut at: usize = 0;
    assert(data@.skip(0) =~= data@);
    proof {
        if let Ok(all) = decoded(data@) {
            assert(Seq::<u8>::empty() + all =~= all);
        }
    }
    while at < data.len()
        invariant
            at <= data@.len(),
            decoded(data@) == error::joined(out@, decoded(data@.skip(at as int))),
        ensures
            at <= data@.len(),
            decoded(data@) == error::joined(out@, decoded(data@.skip(at as int))),
            all_zero(data@.skip(at as int)),
        decreases data@.len() - at,
    {
        let ghost here = data@.skip(at as int);
        assert(data@.subrange(at as int, data@.len() as int) =~= here);
        if is_zero(data, at, data.len()) {
            break;
        }
        let rest: &[u8] = &data[at..data.len()];
        let props: Properties = match read_header(rest) {
            Ok(p) => p,
            Err(e) => {
                return Err(e);
            },
        };
        let body: Vec<u8> = tail_of(rest, HEADER_LEN);
        let mut decoder: LzmaDecoder = match LzmaDecoder::new(body, props, None) {
            Ok(d) => d,
            Err(e) => {
                return Err(e);
            },
        };
        let produced: Vec<u8> = match decoder.read_to_end() {
            Ok(v) => v,
            Err(e) => {
                return Err(e);
            },
        };
        proof {
            decoder.lemma_delivered();
        }
        let used: usize = HEADER_LEN + decoder.consumed();
        let computed: u32 = checksum(produced.as_slice());
        if let Err(e) = check_trailer(
            rest,
            used,
            computed,
            produced.len() as u64,
            Ghost(produced@),
        ) {
            return Err(e);
        }
        let ghost before = out@;
        out.extend_from_slice(produced.as_slice());
        at = at + used + TRAILER_LEN;
        proof {
            assert(here.skip(used + 20) =~= data@.skip(at as int));
            assert(member(here) == Ok::<(Seq<u8>, int), Error>((produced@, used + 20)));
            if let Ok(more) = decoded(data@.skip(at as int)) {
                assert(before + (produced@ + more) =~= out@ + more);
            }
        }
    }
    assert(out@ + Seq::<u8>::empty() =~= out@);
    Ok(out)
}

enum Stage {
    Between(Vec<u8>),
    Member(LzmaDecoder, Crc32, u64),
    Done,
}

/// Whether one budget is smaller than another.
pub open spec fn less(a: (nat, nat), b: (nat, nat)) -> bool {
    a.0 < b.0 || a.0 == b.0 && a.1 < b.1
}

/// An lzip stream decoded as it is read.
///
/// Members follow one another, each with its own dictionary size and a trailer
/// holding the CRC and length this reader checks as it goes. The input is
/// held whole.
pub struct Reader {
    stage: Stage,
    input: Ghost<Seq<u8>>,
    past: Ghost<Seq<u8>>,
    here: Ghost<Seq<u8>>,
}

impl Reader {
    /// The whole input.
    pub closed spec fn input(&self) -> Seq<u8> {
        self.input@
    }

    /// What the whole input holds, or why it cannot be read.
    pub open spec fn outcome(&self) -> std::result::Result<Seq<u8>, Error> {
        streamed(self.input())
    }

    /// What the whole input holds, or where it cannot be read to its end, what
    /// it holds before the fault.
    pub open spec fn held(&self) -> Seq<u8> {
        held(self.input())
    }

    /// What was read so far.
    pub closed spec fn delivered(&self) -> Seq<u8> {
        match self.stage {
            Stage::Member(d, _, _) => self.past@ + d.delivered(),
            _ => self.past@,
        }
    }

    /// Whether the end was reached.
    pub closed spec fn done(&self) -> bool {
        self.stage is Done
    }

    /// The reader stands somewhere in its input.
    pub closed spec fn wf(&self) -> bool {
        let here = self.here@;
        match self.stage {
            Stage::Between(source) => {
                &&& source@ == here
                &&& self.outcome() == error::joined(self.past@, streamed(here))
                &&& self.held() == self.past@ + held(here)
            },
            Stage::Member(d, crc, produced) => {
                &&& self.outcome() == error::joined(self.past@, streamed(here))
                &&& self.held() == self.past@ + held(here)
                &&& here.len() >= 6 && !all_zero(here.take(6))
                &&& d.wf()
                &&& header(here) == Ok::<Properties, Error>(d.properties())
                &&& d.input() == here.skip(6)
                &&& d.wanted() is None
                &&& crc.wf()
                &&& crc.covers(d.delivered())
                &&& produced == d.delivered().len()
            },
            Stage::Done => self.outcome() == Ok::<Seq<u8>, Error>(self.past@) && self.held()
                == self.past@,
        }
    }

    /// How much reading is left at most.
    pub closed spec fn budget(&self) -> (nat, nat) {
        match self.stage {
            Stage::Between(source) => (2 * self.here@.len(), 0),
            Stage::Member(d, _, _) => (
                (2 * self.here@.len() - 1) as nat,
                d.budget(),
            ),
            Stage::Done => (0, 0),
        }
    }

    /// What was read is a start of what the input holds; at the end it is all
    /// of it.
    pub proof fn lemma_delivered(&self)
        requires
            self.wf(),
        ensures
            self.outcome() matches Ok(all) ==> self.delivered().is_prefix_of(all),
            self.delivered().is_prefix_of(self.held()),
            self.done() ==> self.outcome() == Ok::<Seq<u8>, Error>(self.delivered()),
    {
        let h = self.held();
        if let Stage::Member(d, _, _) = self.stage {
            d.lemma_delivered();
            let rest = held(self.here@);
            let k = d.held().len() as int;
            let n = d.delivered().len() as int;
            assert(rest.take(k) =~= d.held());
            assert(rest.take(n) =~= rest.take(k).take(n));
            assert(self.delivered() =~= h.take(self.delivered().len() as int));
        } else {
            assert(self.delivered() =~= h.take(self.delivered().len() as int));
        }
        if let Ok(all) = self.outcome() {
            if let Stage::Member(d, _, _) = self.stage {
                d.lemma_delivered();
                let whole = d.stream()->Some_0;
                assert(d.delivered() == whole.take(d.delivered().len() as int));
                assert(self.delivered() =~= all.take(self.delivered().len() as int));
            } else {
                assert(self.delivered() =~= all.take(self.delivered().len() as int));
            }
        }
    }

    /// Wrap `inner` at the start of an lzip stream.
    pub fn new(inner: Vec<u8>) -> (r: Self)
        ensures
            r.wf(),
            r.input() == inner@,
            r.delivered() == Seq::<u8>::empty(),
    {
        let ghost all = inner@;
        proof {
            if let Ok(out) = streamed(all) {
                assert(Seq::<u8>::empty() + out =~= out);
            }
            assert(Seq::<u8>::empty() + held(all) =~= held(all));
        }
        Reader {
            stage: Stage::Between(inner),
            input: Ghost(all),
            past: Ghost(Seq::empty()),
            here: Ghost(all),
        }
    }

    fn start_member(&mut self, source: Vec<u8>) -> (r: Result<()>)
        requires
            old(self).outcome() == error::joined(old(self).past@, streamed(source@)),
            old(self).held() == old(self).past@ + held(source@),
        ensures
            match r {
                Ok(_) => final(self).wf() && final(self).input == old(self).input && final(
                self).delivered() == old(self).past@ && !(final(self).stage is Between)
                    && final(self).past == old(self).past && (final(self).stage is Member
                    ==> final(self).here@ == source@ && source@.len() > 0),
                Err(e) => old(self).outcome() == Err::<Seq<u8>, Error>(e),
            },
    {
        self.here = Ghost(source@);
        if source.len() == 0 {
            self.stage = Stage::Done;
            assert(self.past@ + Seq::<u8>::empty() =~= self.past@);
            return Ok(());
        }
        if source.len() >= HEADER_LEN {
            assert(source@.subrange(0, 6) =~= source@.take(6));
            if is_zero(source.as_slice(), 0, HEADER_LEN) {
                self.stage = Stage::Done;
                assert(self.past@ + Seq::<u8>::empty() =~= self.past@);
                return Ok(());
            }
        }
        let props: Properties = match read_header(source.as_slice()) {
            Ok(p) => p,
            Err(e) => {
                return Err(e);
            },
        };
        let body: Vec<u8> = tail_of(source.as_slice(), HEADER_LEN);
        let decoder: LzmaDecoder = match LzmaDecoder::new(body, props, None) {
            Ok(d) => d,
            Err(e) => {
                return Err(e);
            },
        };
        self.stage = Stage::Member(decoder, Crc32::new(), 0);
        assert(self.past@ + Seq::<u8>::empty() =~= self.past@);
        Ok(())
    }

    fn finish_member(&mut self, decoder: LzmaDecoder, crc: Crc32, produced: u64) -> (r: Result<()>)
        requires
            (Reader { stage: Stage::Member(decoder, crc, produced), ..*old(self) }).wf(),
            decoder.done(),
        ensures
            match r {
                Ok(_) => final(self).wf() && final(self).input == old(self).input && final(
                self).delivered() == old(self).past@ + decoder.delivered() && (final(
                self).stage is Done || final(self).stage is Member && final(self).here@.len()
                    < old(self).here@.len()),
                Err(e) => old(self).outcome() == Err::<Seq<u8>, Error>(e),
            },
    {
        let ghost here = self.here@;
        let ghost out = decoder.delivered();
        proof {
            decoder.lemma_delivered();
        }
        let ghost past = self.past@ + out;
        let ghost coder = decoder.coder();
        let ghost p = decoder.properties();
        let (source, leftover) = decoder.into_parts();
        let used: usize = source.len() - leftover.len();
        let ghost at = 6 + used;
        proof {
            assert(used == used_by(here.skip(6), p));
            assert(leftover@ =~= here.skip(at));
            if leftover@.len() >= 20 {
                bytes::lemma_le_skip(here, at, 0, 4);
                bytes::lemma_le_skip(here, at, 4, 8);
            }
            assert(trailer(leftover@, 0, out) == trailer(here, at, out));
        }
        if let Err(e) = check_trailer(leftover.as_slice(), 0, crc.finish(), produced, Ghost(out)) {
            return Err(e);
        }
        let rest: Vec<u8> = tail_of(leftover.as_slice(), TRAILER_LEN);
        proof {
            assert(rest@ =~= here.skip(at + 20));
            assert(member(here) == Ok::<(Seq<u8>, int), Error>((out, at + 20)));
            assert(streamed(here) == error::joined(out, streamed(rest@)));
            if let Ok(more) = streamed(rest@) {
                assert(self.past@ + (out + more) =~= past + more);
            }
            assert(held(here) == out + held(rest@));
            assert(self.past@ + (out + held(rest@)) =~= past + held(rest@));
        }
        self.past = Ghost(past);
        self.start_member(rest)
    }

    /// Read the next bytes of the content into `buf`. Nothing is read only at
    /// the end.
    #[verifier::rlimit(40)]
    #[verifier::spinoff_prover]
    pub fn read(&mut self, buf: &mut [u8]) -> (r: Result<usize>)
        requires
            old(self).wf(),
        ensures
            final(buf)@.len() == old(buf)@.len(),
            match r {
                Ok(n) => {
                    &&& final(self).wf()
                    &&& final(self).input() == old(self).input()
                    &&& n <= old(buf)@.len()
                    &&& final(self).delivered() == old(self).delivered() + final(buf)@.take(
                        n as int,
                    )
                    &&& final(buf)@.skip(n as int) == old(buf)@.skip(n as int)
                    &&& n == 0 && old(buf)@.len() > 0 ==> final(self).done()
                    &&& n > 0 ==> less(final(self).budget(), old(self).budget())
                },
                Err(e) => old(self).outcome() == Err::<Seq<u8>, Error>(e) && old(
                    self,
                ).delivered().is_prefix_of(old(self).held()),
            },
    {
        if buf.len() == 0 {
            assert(buf@.take(0) =~= Seq::<u8>::empty());
            return Ok(0);
        }
        proof {
            self.lemma_delivered();
        }
        loop
            invariant
                self.wf(),
                self.input() == old(self).input(),
                self.delivered() == old(self).delivered(),
                old(self).delivered().is_prefix_of(old(self).held()),
                buf@ == old(buf)@,
                buf@.len() > 0,
                self.budget().0 < old(self).budget().0 || self.budget() == old(self).budget(),
            decreases self.budget().0, (if self.stage is Between { 1int } else { 0int }),
        {
            let mut stage: Stage = Stage::Done;
            std::mem::swap(&mut stage, &mut self.stage);
            match stage {
                Stage::Done => {
                    assert(buf@.take(0) =~= Seq::<u8>::empty());
                    return Ok(0);
                },
                Stage::Between(source) => {
                    if let Err(e) = self.start_member(source) {
                        return Err(e);
                    }
                },
                Stage::Member(d, crc, produced) => {
                    let mut decoder: LzmaDecoder = d;
                    let mut crc: Crc32 = crc;
                    let ghost before = decoder;
                    let n: usize = match decoder.read(buf) {
                        Ok(n) => n,
                        Err(e) => {
                            return Err(e);
                        },
                    };
                    proof {
                        decoder.lemma_delivered();
                    }
                    if n > 0 {
                        assert(buf@.subrange(0, n as int) =~= buf@.take(n as int));
                        crc.update(&buf[0..n]);
                        assert(crc.covers(before.delivered() + buf@.take(n as int)));
                        self.stage = Stage::Member(decoder, crc, produced + n as u64);
                        assert(self.delivered() =~= old(self).delivered() + buf@.take(n as int));
                        return Ok(n);
                    }
                    assert(before.delivered() + buf@.take(0) =~= before.delivered());
                    assert(buf@ =~= old(buf)@) by {
                        assert(buf@.skip(0) =~= buf@);
                        assert(old(buf)@.skip(0) =~= old(buf)@);
                    }
                    if let Err(e) = self.finish_member(decoder, crc, produced) {
                        return Err(e);
                    }
                },
            }
        }
    }
}

/// An lzip stream written as its input arrives.
///
/// One member, whose trailer records the CRC and length once the input ends.
/// What was written is held until then.
pub struct Writer {
    head: Vec<u8>,
    inner: Marked,
    crc: Crc32,
    code: u8,
    before: Ghost<Seq<u8>>,
}

/// The bytes of a header.
pub open spec fn header_bytes(code: u8) -> Seq<u8> {
    seq![0x4cu8, 0x5a, 0x49, 0x50, 1, code]
}

/// The bytes of a trailer.
pub open spec fn trailer_bytes(d: Seq<u8>, member: nat) -> Seq<u8> {
    bytes::le_bytes(crc32::crc32(d) as nat, 4) + bytes::le_bytes(d.len(), 8) + bytes::le_bytes(
        member,
        8,
    )
}

/// The dictionary code of members written at a level.
pub open spec fn level_code(level: Level) -> u8 {
    match level {
        Level::Stored | Level::Fast => 20,
        Level::Default => 23,
        Level::Best => 26,
    }
}

/// The member that holds `d`, a match being looked for at up to `depth`
/// earlier places.
pub open spec fn member_of(code: u8, depth: usize, d: Seq<u8>) -> Seq<u8> {
    let body = marked::stream_of(member_props(pow2(code as nat) as int), depth, d);
    header_bytes(code) + body + trailer_bytes(d, body.len() + 26)
}

proof fn lemma_level_code(level: Level, code: u8)
    requires
        12 <= code <= 29,
        pow2(code as nat) >= encode::dictionary_of(0x7fff_ffff, level),
        forall|e: nat| 12 <= e < code ==> #[trigger] pow2(e) < encode::dictionary_of(
            0x7fff_ffff,
            level,
        ),
    ensures
        code == level_code(level),
{
    lemma2_to64();
    reveal_with_fuel(encode::power_above, 20);
    let want = level_code(level);
    assert(encode::dictionary_of(0x7fff_ffff, level) == pow2(want as nat));
    if code < want {
        lemma_pow2_strictly_increases(code as nat, want as nat);
    }
    if code > want {
        assert(pow2(want as nat) < encode::dictionary_of(0x7fff_ffff, level));
    }
}

/// Whether `r` is a member that holds `d`.
pub open spec fn is_member(r: Seq<u8>, d: Seq<u8>) -> bool {
    exists|code: u8, body: Seq<u8>|
        {
            &&& 12 <= code <= 29
            &&& #[trigger] marked::is_marked(body, member_props(pow2(code as nat) as int), d)
            &&& r == #[trigger] header_bytes(code) + body + trailer_bytes(d, body.len() + 26)
        }
}

/// A member reads back as its content, whatever follows it.
pub proof fn lemma_member_read(r: Seq<u8>, d: Seq<u8>, tail: Seq<u8>)
    requires
        is_member(r, d),
        d.len() <= MAX_TOTAL,
    ensures
        member(r + tail) == Ok::<(Seq<u8>, int), Error>((d, r.len() as int)),
        r.len() >= 6,
        !all_zero((r + tail).take(6)),
        !all_zero(r + tail),
{
    let (code, body) = choose|code: u8, body: Seq<u8>|
        {
            &&& 12 <= code <= 29
            &&& #[trigger] marked::is_marked(body, member_props(pow2(code as nat) as int), d)
            &&& r == #[trigger] header_bytes(code) + body + trailer_bytes(d, body.len() + 26)
        };
    let data = r + tail;
    lemma_exponent(code as nat);
    bytes::lemma_le_bytes_len(crc32::crc32(d) as nat, 4);
    bytes::lemma_le_bytes_len(d.len(), 8);
    bytes::lemma_le_bytes_len(body.len() + 26, 8);
    assert(data.take(6)[0] == 0x4c);
    assert(data[0] == 0x4c);
    let base = pow2(code as nat) as int;
    assert((base / 16) * ((code as int / 32) % 8) == 0) by (nonlinear_arith)
        requires
            (code as int / 32) % 8 == 0,
    ;
    assert(dictionary_of(data[5] as int) == Some(base));
    let p = member_props(base);
    let rest = trailer_bytes(d, body.len() + 26) + tail;
    assert(data.skip(6) =~= body + rest);
    assert(syntax::stream_ending(body + rest, p, None) is Marker);
    let at: int = 6 + body.len() as int;
    reveal_with_fuel(bytes::span, 9);
    assert(data.subrange(at, at + 4) =~= bytes::le_bytes(crc32::crc32(d) as nat, 4));
    assert(data.subrange(at + 4, at + 12) =~= bytes::le_bytes(d.len(), 8));
    bytes::lemma_le_round_trip(data, at as int, crc32::crc32(d) as nat, 4);
    bytes::lemma_le_round_trip(data, at + 4, d.len(), 8);
}

/// Other bytes in place of the trailer of a member. If they tell another
/// checksum or another size, or are too few, the member is refused with what
/// they tell.
#[verifier::spinoff_prover]
#[verifier::rlimit(40)]
pub proof fn lemma_trailer_changed(r: Seq<u8>, d: Seq<u8>, t: Seq<u8>)
    requires
        is_member(r, d),
        d.len() <= MAX_TOTAL,
    ensures
        t.len() < 20 || t.take(12) != trailer_bytes(d, 0).take(12) ==> trailer(t, 0, d) is Err,
        trailer(t, 0, d) matches Err(e) ==> {
            &&& decoded(r.take(r.len() - 20) + t) == Err::<Seq<u8>, Error>(e)
            &&& streamed(r.take(r.len() - 20) + t) == Err::<Seq<u8>, Error>(e)
        },
        t.len() >= 20 && t.take(4) != trailer_bytes(d, 0).take(4) ==> trailer(t, 0, d) matches Err(
            Error::ChecksumMismatch { .. },
        ),
        t.len() >= 20 && t.take(4) == trailer_bytes(d, 0).take(4) && t.subrange(4, 12)
            != trailer_bytes(d, 0).subrange(4, 12) ==> trailer(t, 0, d) matches Err(
            Error::SizeMismatch { .. },
        ),
{
    let (code, body) = choose|code: u8, body: Seq<u8>|
        {
            &&& 12 <= code <= 29
            &&& #[trigger] marked::is_marked(body, member_props(pow2(code as nat) as int), d)
            &&& r == #[trigger] header_bytes(code) + body + trailer_bytes(d, body.len() + 26)
        };
    lemma_exponent(code as nat);
    bytes::lemma_le_bytes_len(crc32::crc32(d) as nat, 4);
    bytes::lemma_le_bytes_len(d.len(), 8);
    bytes::lemma_le_bytes_len(body.len() + 26, 8);
    let data = r.take(r.len() - 20) + t;
    assert(data =~= header_bytes(code) + body + t);
    assert(data[0] == 0x4c);
    assert(data.take(6)[0] == 0x4c);
    let base = pow2(code as nat) as int;
    assert((base / 16) * ((code as int / 32) % 8) == 0) by (nonlinear_arith)
        requires
            (code as int / 32) % 8 == 0,
    ;
    assert(dictionary_of(data[5] as int) == Some(base));
    let p = member_props(base);
    assert(data.skip(6) =~= body + t);
    assert(syntax::stream_ending(body + t, p, None) is Marker);
    let at: int = 6 + body.len() as int;
    assert(data.skip(at) =~= t);
    if t.len() >= 20 {
        bytes::lemma_le_skip(data, at, 0, 4);
        bytes::lemma_le_skip(data, at, 4, 8);
    }
    assert(trailer(data, at, d) == trailer(t, 0, d));
    if t.len() >= 20 {
        let a = t.take(4);
        let b = t.subrange(4, 12);
        let c = bytes::le_bytes(crc32::crc32(d) as nat, 4);
        let n = bytes::le_bytes(d.len(), 8);
        bytes::lemma_le_bytes_back(a, 4);
        bytes::lemma_le_bytes_back(b, 8);
        reveal_with_fuel(bytes::span, 9);
        bytes::lemma_le_bytes_len(0, 8);
        assert(t.subrange(0, 4) =~= bytes::le_bytes(bytes::le(a, 0, 4), 4));
        bytes::lemma_le_round_trip(t, 0, bytes::le(a, 0, 4), 4);
        assert(t.subrange(4, 12) =~= bytes::le_bytes(bytes::le(b, 0, 8), 8));
        bytes::lemma_le_round_trip(t, 4, bytes::le(b, 0, 8), 8);
        assert(trailer_bytes(d, 0).take(4) =~= c);
        assert(trailer_bytes(d, 0).subrange(4, 12) =~= n);
        assert(c.subrange(0, 4) =~= c);
        bytes::lemma_le_round_trip(c, 0, crc32::crc32(d) as nat, 4);
        if trailer(t, 0, d) is Ok {
            assert(t.take(12) =~= trailer_bytes(d, 0).take(12));
        }
    }
}

/// A member decodes to its content.
pub proof fn lemma_round_trip(r: Seq<u8>, d: Seq<u8>)
    requires
        is_member(r, d),
        d.len() <= MAX_TOTAL,
    ensures
        decoded(r) == Ok::<Seq<u8>, Error>(d),
        streamed(r) == Ok::<Seq<u8>, Error>(d),
{
    lemma_member_read(r, d, Seq::empty());
    assert(r + Seq::<u8>::empty() =~= r);
    assert(r.skip(r.len() as int) =~= Seq::<u8>::empty());
    assert(all_zero(Seq::<u8>::empty()));
    assert(decoded(Seq::<u8>::empty()) == Ok::<Seq<u8>, Error>(Seq::empty()));
    assert(streamed(Seq::<u8>::empty()) == Ok::<Seq<u8>, Error>(Seq::empty()));
    assert(d + Seq::<u8>::empty() =~= d);
}

/// Members one after another decode to their contents one after another.
pub proof fn lemma_members_join(r: Seq<u8>, d: Seq<u8>, more: Seq<u8>)
    requires
        is_member(r, d),
        d.len() <= MAX_TOTAL,
    ensures
        decoded(r + more) == error::joined(d, decoded(more)),
        streamed(r + more) == error::joined(d, streamed(more)),
{
    lemma_member_read(r, d, more);
    assert((r + more).skip(r.len() as int) =~= more);
}

impl Writer {
    /// What was there before the stream.
    pub closed spec fn before(&self) -> Seq<u8> {
        self.before@
    }

    /// All data taken so far.
    pub closed spec fn taken(&self) -> Seq<u8> {
        self.inner.taken()
    }

    /// The dictionary code.
    pub closed spec fn code(&self) -> u8 {
        self.code
    }

    /// How many earlier places a match is looked for at.
    pub closed spec fn depth(&self) -> usize {
        self.inner.depth()
    }

    /// The header is written, and the CRC is that of what was taken.
    pub closed spec fn wf(&self) -> bool {
        &&& self.inner.wf()
        &&& 12 <= self.code <= 29
        &&& self.inner.properties() == member_props(pow2(self.code as nat) as int)
        &&& self.head@ == self.before@ + header_bytes(self.code)
        &&& self.crc.wf()
        &&& self.crc.covers(self.inner.taken())
    }

    /// Start a member with a dictionary sized for `level`, after what `out`
    /// holds.
    pub fn new(out: Vec<u8>, depth: usize, level: Level) -> (r: Self)
        ensures
            r.wf(),
            r.before() == out@,
            r.taken() == Seq::<u8>::empty(),
            r.code() == level_code(level),
            r.depth() == depth,
    {
        let wanted: u32 = dictionary_at(0x7fff_ffff, level);
        let code: u8 = dictionary_code(wanted);
        proof {
            lemma_exponent(code as nat);
            lemma_level_code(level, code);
        }
        let dict: u32 = bits::power_of_two(code as u32) as u32;
        let ghost before = out@;
        let mut head: Vec<u8> = out;
        head.push(MAGIC[0]);
        head.push(MAGIC[1]);
        head.push(MAGIC[2]);
        head.push(MAGIC[3]);
        head.push(1);
        head.push(code);
        assert(head@ =~= before + header_bytes(code));
        let props: Properties = Properties { lc: 3, lp: 0, pb: 2, dict_size: dict };
        Writer {
            head,
            inner: Marked::new(props, depth),
            crc: Crc32::new(),
            code,
            before: Ghost(before),
        }
    }

    /// Hand over more input, encoding whatever has become complete.
    pub fn push(&mut self, bytes: &[u8])
        requires
            old(self).wf(),
            old(self).taken().len() + bytes@.len() <= MAX_TOTAL,
            old(self).taken().len() + bytes@.len() <= usize::MAX,
        ensures
            final(self).wf(),
            final(self).before() == old(self).before(),
            final(self).taken() == old(self).taken() + bytes@,
            final(self).code() == old(self).code(),
            final(self).depth() == old(self).depth(),
    {
        self.crc.update(bytes);
        self.inner.push(bytes);
    }

    /// Encode what is left, write the trailer and give back everything
    /// written. The member is the same however its content was cut into
    /// pushes.
    pub fn finish(self) -> (r: Vec<u8>)
        requires
            self.wf(),
        ensures
            self.before().is_prefix_of(r@),
            is_member(r@.skip(self.before().len() as int), self.taken()),
            r@ == self.before() + member_of(self.code(), self.depth(), self.taken()),
    {
        let size: u64 = self.inner.len() as u64;
        let crc: u32 = self.crc.finish();
        let ghost d = self.taken();
        let body: Vec<u8> = self.inner.finish();
        let mut out: Vec<u8> = self.head;
        out.extend_from_slice(body.as_slice());
        let member: u64 = (body.len() as u64).wrapping_add(26);
        put_le(&mut out, crc as u64, 4);
        put_le(&mut out, size, 8);
        put_le(&mut out, member, 8);
        proof {
            let b = self.before();
            assert(b.len() + 6 + body@.len() + 20 <= 0xffff_ffff_ffff_ffff) by {
                assert(out@.len() == b.len() + 6 + body@.len() + 20) by {
                    bytes::lemma_le_bytes_len(crc as nat, 4);
                    bytes::lemma_le_bytes_len(size as nat, 8);
                    bytes::lemma_le_bytes_len(member as nat, 8);
                }
                assert(out.len() <= 0xffff_ffff_ffff_ffff);
            }
            assert(member == body@.len() + 26);
            let r = header_bytes(self.code) + body@ + trailer_bytes(d, body@.len() + 26);
            assert(out@ =~= b + r);
            assert(out@.skip(b.len() as int) =~= r);
            assert(out@.take(b.len() as int) =~= b);
            assert(marked::is_marked(body@, member_props(pow2(self.code as nat) as int), d));
        }
        out
    }
}

/// Encode `data` as a single lzip member.
pub fn compress_at(data: &[u8], depth: usize, level: Level) -> (r: Vec<u8>)
    requires
        data@.len() <= MAX_TOTAL,
    ensures
        is_member(r@, data@),
        r@ == member_of(level_code(level), depth, data@),
        decoded(r@) == Ok::<Seq<u8>, Error>(data@),
{
    let mut writer: Writer = Writer::new(Vec::with_capacity(data.len() / 2 + 64), depth, level);
    writer.push(data);
    assert(Seq::<u8>::empty() + data@ =~= data@);
    let r: Vec<u8> = writer.finish();
    proof {
        assert(r@.skip(0) =~= r@);
        assert(r@ =~= member_of(level_code(level), depth, data@));
        lemma_round_trip(r@, data@);
    }
    r
}

} // verus!
