//! Zstandard.
pub mod bits;
pub mod layout;
pub mod encode;
pub mod forms;
pub mod fse;
pub mod huffman;
pub mod pack;
pub mod sequences;
pub mod tiling;
pub mod pieces;
pub mod weights;

use crate::codecs::lzma::window::Window;
use crate::codecs::zstd::bits as stream;
use crate::codecs::zstd::bits::BackwardBits;
use crate::codecs::zstd::layout::{
    MAGIC, MAX_BLOCK, MAX_WINDOW, SKIPPABLE_MAGIC_HIGH, SKIPPABLE_MAGIC_LOW,
};
use crate::codecs::zstd::sequences::{Tables, Target, MAX_TOTAL};
use crate::utils::bits::{low_bits, power_of_two, shift_right};
use crate::utils::bytes;
use crate::utils::bytes::{get_le16, get_le32, get_le64};
use crate::utils::error;
use crate::utils::error::{Error, Result, Unsupported};
use crate::utils::xxhash;
use crate::utils::xxhash::XxHash64;
use vstd::arithmetic::div_mod::*;
use vstd::arithmetic::power2::*;
use vstd::prelude::*;

verus! {

struct FrameHeader {
    window_size: u64,
    content_size: Option<u64>,
    has_checksum: bool,
}

impl FrameHeader {
    spec fn says(&self) -> layout::Header {
        layout::Header {
            window: self.window_size as nat,
            content: match self.content_size {
                Some(n) => Some(n as nat),
                None => None,
            },
            checksum: self.has_checksum,
        }
    }

    fn length_of(descriptor: u8) -> (r: usize)
        ensures
            r == layout::header_len(descriptor),
            1 <= r <= 14,
    {
        let single: bool = descriptor / 32 % 2 == 1;
        let fixed: usize = if single {
            1
        } else {
            2
        };
        fixed + Self::dictionary_bytes(descriptor) + Self::content_bytes(descriptor)
    }

    fn dictionary_bytes(descriptor: u8) -> (r: usize)
        ensures
            r == layout::dictionary_bytes(descriptor),
            r <= 4,
    {
        match descriptor % 4 {
            0 => 0,
            1 => 1,
            2 => 2,
            _ => 4,
        }
    }

    fn content_bytes(descriptor: u8) -> (r: usize)
        ensures
            r == layout::content_bytes(descriptor),
            r <= 8,
    {
        let single: bool = descriptor / 32 % 2 == 1;
        match descriptor / 64 {
            0 => if single {
                1
            } else {
                0
            },
            1 => 2,
            2 => 4,
            _ => 8,
        }
    }

    #[verifier::spinoff_prover]
    fn parse(data: &[u8]) -> (r: Result<Self>)
        requires
            data.len() > 0,
            data.len() == layout::header_len(data@[0]),
        ensures
            match layout::header(data@) {
                Ok(h) => r matches Ok(x) && x.says() == h && h.window <= MAX_WINDOW,
                Err(e) => r matches Err(f) && f == e,
            },
    {
        let descriptor: u8 = data[0];
        let single: bool = descriptor / 32 % 2 == 1;
        let has_checksum: bool = descriptor / 4 % 2 == 1;
        if descriptor / 8 % 2 == 1 {
            return Err(Error::Malformed);
        }
        let fixed: usize = if single {
            1
        } else {
            2
        };
        let named: usize = Self::dictionary_bytes(descriptor);
        let mut i: usize = fixed;
        while i < fixed + named
            invariant
                fixed <= i <= fixed + named <= data.len(),
                fixed == layout::fixed_bytes(data@[0]),
                named == layout::dictionary_bytes(data@[0]),
                data@[0] / 8 % 2 != 1,
                forall|k: int| fixed <= k < i ==> #[trigger] data@[k] == 0,
            decreases fixed + named - i,
        {
            if data[i] != 0 {
                return Err(Error::Unsupported(Unsupported::Other));
            }
            i = i + 1;
        }
        let offset: usize = fixed + named;
        let width: usize = Self::content_bytes(descriptor);
        proof {
            reveal_with_fuel(bytes::le, 9);
        }
        let content_size: Option<u64> = if width == 0 {
            None
        } else if width == 1 {
            Some(data[offset] as u64)
        } else if width == 2 {
            Some(get_le16(data, offset) as u64 + 256)
        } else if width == 4 {
            Some(get_le32(data, offset) as u64)
        } else {
            Some(get_le64(data, offset))
        };
        let window_size: u64 = if single {
            match content_size {
                Some(n) => n,
                None => 0,
            }
        } else {
            let byte: u8 = data[1];
            let exponent: u32 = (byte / 8) as u32;
            proof {
                lemma2_to64();
                lemma2_to64_rest();
                if exponent < 31 {
                    lemma_pow2_strictly_increases((10 + exponent) as nat, 41);
                }
            }
            let base: u64 = power_of_two(10 + exponent);
            let m: u64 = (byte % 8) as u64;
            assert(base / 8 * m <= base / 8 * 7) by (nonlinear_arith)
                requires
                    m <= 7,
            ;
            base + base / 8 * m
        };
        assert(content_size is Some ==> layout::content_of(data@) == Some(
            content_size->Some_0 as nat,
        ));
        if window_size > MAX_WINDOW {
            return Err(Error::Malformed);
        }
        Ok(FrameHeader { window_size, content_size, has_checksum })
    }
}

fn decode_literal_stream(data: &[u8], table: &huffman::Table, count: usize) -> (r: Result<Vec<u8>>)
    requires
        table@.valid(),
    ensures
        match layout::literal_stream(data@, table@, count as nat) {
            Ok(s) => r matches Ok(v) && v@ == s,
            Err(e) => r matches Err(f) && f == e,
        },
{
    let mut bits: BackwardBits<'_> = match BackwardBits::new(data) {
        Err(e) => {
            return Err(e);
        },
        Ok(v) => v,
    };
    let ghost whole = layout::symbols(table@, data@, bits.back(), count as nat);
    let mut out: Vec<u8> = Vec::new();
    let mut i: usize = 0;
    assert(out@ + whole =~= whole);
    while i < count
        invariant
            i <= count,
            table@.valid(),
            bits.wf(),
            bits.data() == data@,
            whole == out@ + layout::symbols(table@, data@, bits.back(), (count - i) as nat),
        decreases count - i,
    {
        let ghost before = out@;
        let symbol: u8 = table.decode(&mut bits);
        out.push(symbol);
        i = i + 1;
        assert(whole =~= out@ + layout::symbols(
            table@,
            data@,
            bits.back(),
            (count - i) as nat,
        )) by {
            assert(before + (seq![symbol] + layout::symbols(
                table@,
                data@,
                bits.back(),
                (count - i) as nat,
            )) =~= before.push(symbol) + layout::symbols(
                table@,
                data@,
                bits.back(),
                (count - i) as nat,
            ));
        }
    }
    assert(out@ + Seq::<u8>::empty() =~= out@);
    Ok(out)
}

fn decode_four_literal_streams(data: &[u8], table: &huffman::Table, count: usize) -> (r: Result<
    Vec<u8>,
>)
    requires
        table@.valid(),
        count <= 0x4_0000,
    ensures
        match layout::four_streams(data@, table@, count as nat) {
            Ok(s) => r matches Ok(v) && v@ == s,
            Err(e) => r matches Err(f) && f == e,
        },
{
    reveal(layout::four_streams);
    if data.len() < 6 {
        return Err(Error::Malformed);
    }
    let first: usize = get_le16(data, 0) as usize;
    let second: usize = get_le16(data, 2) as usize;
    let third: usize = get_le16(data, 4) as usize;
    let body: &[u8] = &data[6..data.len()];
    assert(body@ =~= data@.skip(6));
    let per_stream: usize = (count + 3) / 4;
    if first + second + third > body.len() || count < 3 * per_stream {
        return Err(Error::Malformed);
    }
    let two: usize = first + second;
    let three: usize = two + third;
    let mut out: Vec<u8> = match decode_literal_stream(&body[0..first], table, per_stream) {
        Err(e) => {
            return Err(e);
        },
        Ok(v) => v,
    };
    match decode_literal_stream(&body[first..two], table, per_stream) {
        Err(e) => {
            return Err(e);
        },
        Ok(v) => {
            out.extend_from_slice(&v);
        },
    }
    match decode_literal_stream(&body[two..three], table, per_stream) {
        Err(e) => {
            return Err(e);
        },
        Ok(v) => {
            out.extend_from_slice(&v);
        },
    }
    match decode_literal_stream(&body[three..body.len()], table, count - 3 * per_stream) {
        Err(e) => {
            return Err(e);
        },
        Ok(v) => {
            out.extend_from_slice(&v);
        },
    }
    Ok(out)
}

fn parse_compressed_literals_header(body: &[u8]) -> (r: Result<(usize, usize, usize, usize)>)
    requires
        body.len() > 0,
    ensures
        match layout::coded_sizes(body@) {
            Ok((n, size)) => {
                let f = (body@[0] / 4 % 4) as nat;
                r matches Ok(x) && x.0 == n && x.1 == size && (x.2 == 1 <==> f == 0) && x.3
                    == layout::sizes_len(f) && n < 0x4_0000 && size < 0x4_0000 && x.3 <= body@.len()
            },
            Err(e) => r matches Err(f) && f == e,
        },
{
    let form: u8 = body[0] / 4 % 4;
    let need: usize = if form <= 1 {
        3
    } else if form == 2 {
        4
    } else {
        5
    };
    if body.len() < need {
        return Err(Error::Malformed);
    }
    let streams: usize = if form == 0 {
        1
    } else {
        4
    };
    let width: u32 = if form <= 1 {
        10
    } else if form == 2 {
        14
    } else {
        18
    };
    let mut value: u64 = body[0] as u64 + 256 * (body[1] as u64) + 0x1_0000 * (body[2] as u64);
    if form >= 2 {
        value = value + 0x100_0000 * (body[3] as u64);
    }
    if form == 3 {
        value = value + 0x1_0000_0000 * (body[4] as u64);
    }
    proof {
        reveal_with_fuel(bytes::le, 6);
        lemma2_to64();
        assert(value == bytes::le(body@, 0, layout::sizes_len(form as nat)));
        lemma_div_denominator(value as int, 16, pow2(width as nat) as int);
        lemma_pow2_adds(4, width as nat);
        lemma_div_denominator(value as int, pow2(4) as int, pow2(width as nat) as int);
    }
    let regenerated: u64 = low_bits(value / 16, width);
    let compressed: u64 = low_bits(shift_right(value, 4 + width), width);
    Ok((regenerated as usize, compressed as usize, streams, need))
}

/// The code that was kept.
spec fn kept_code(t: Option<huffman::Table>) -> Option<huffman::Code> {
    match t {
        Some(x) => Some(x@),
        None => None,
    }
}

spec fn sound_code(t: Option<huffman::Table>) -> bool {
    t matches Some(x) ==> x@.valid()
}

#[verifier::rlimit(30)]
#[verifier::spinoff_prover]
fn decode_literals(body: &[u8], kept: &mut Option<huffman::Table>) -> (r: Result<(Vec<u8>, usize)>)
    requires
        sound_code(*old(kept)),
    ensures
        match layout::literals(body@, kept_code(*old(kept))) {
            Ok((lits, used, code)) => r matches Ok(x) && x.0@ == lits && x.1 == used && kept_code(
                *final(kept),
            ) == code && sound_code(*final(kept)) && used <= body@.len(),
            Err(e) => r matches Err(f) && f == e,
        },
{
    reveal(layout::literals);
    if body.len() == 0 {
        return Err(Error::Malformed);
    }
    let first: u8 = body[0];
    let kind: u8 = first % 4;
    let form: u8 = first / 4 % 4;
    if kind <= 1 {
        let (regenerated, header_len): (usize, usize) = if form == 0 || form == 2 {
            ((first / 8) as usize, 1)
        } else if form == 1 {
            if body.len() < 2 {
                return Err(Error::Malformed);
            }
            ((first / 16) as usize + body[1] as usize * 16, 2)
        } else {
            if body.len() < 3 {
                return Err(Error::Malformed);
            }
            ((first / 16) as usize + body[1] as usize * 16 + body[2] as usize * 4096, 3)
        };
        assert(layout::plain_size(body@) == Ok::<(nat, nat), Error>(
            (regenerated as nat, header_len as nat),
        ));
        if kind == 0 {
            if regenerated > body.len() - header_len {
                return Err(Error::Malformed);
            }
            let end: usize = header_len + regenerated;
            let mut out: Vec<u8> = Vec::new();
            out.extend_from_slice(&body[header_len..end]);
            assert(out@ =~= body@.subrange(header_len as int, end as int));
            return Ok((out, end));
        }
        if header_len >= body.len() {
            return Err(Error::Malformed);
        }
        let out: Vec<u8> = vec![body[header_len]; regenerated];
        assert(out@ =~= Seq::new(regenerated as nat, |i: int| body@[header_len as int]));
        return Ok((out, header_len + 1));
    }
    let (regenerated, compressed, streams, header_len) = match parse_compressed_literals_header(
        body,
    ) {
        Err(e) => {
            return Err(e);
        },
        Ok(v) => v,
    };
    if compressed > body.len() - header_len {
        return Err(Error::Malformed);
    }
    let end: usize = header_len + compressed;
    let section: &[u8] = &body[header_len..end];
    assert(section@ =~= body@.subrange(header_len as int, end as int));
    let mut table_len: usize = 0;
    if kind != 3 {
        match huffman::Table::parse(section) {
            Err(e) => {
                return Err(e);
            },
            Ok((table, used)) => {
                *kept = Some(table);
                table_len = used;
            },
        }
    }
    match kept {
        None => Err(Error::Malformed),
        Some(table) => {
            let payload: &[u8] = &section[table_len..section.len()];
            assert(payload@ =~= section@.skip(table_len as int));
            let out: Vec<u8> = if streams == 1 {
                match decode_literal_stream(payload, table, regenerated) {
                    Err(e) => {
                        return Err(e);
                    },
                    Ok(v) => v,
                }
            } else {
                match decode_four_literal_streams(payload, table, regenerated) {
                    Err(e) => {
                        return Err(e);
                    },
                    Ok(v) => v,
                }
            };
            Ok((out, end))
        },
    }
}

struct Frame {
    literals: Option<huffman::Table>,
    tables: Tables,
    repeats: [u32; 3],
}

/// A frame's state as its format sees it.
spec fn frame_of(h: FrameHeader, f: Frame, out: Seq<u8>) -> layout::Frame {
    layout::Frame {
        header: h.says(),
        literals: kept_code(f.literals),
        done: sequences::Done { out, sent: f.tables@, repeats: f.repeats@ },
    }
}

struct Open {
    header: FrameHeader,
    start: u64,
    hashed: u64,
    digest: XxHash64,
    frame: Frame,
}

/// A Zstandard stream decoded as it is read.
///
/// The input is held whole. Frames that follow one another are all decoded,
/// which is what `zstd` itself produces when its output is concatenated.
pub struct Reader {
    inner: Vec<u8>,
    pos: usize,
    target: Target,
    open: Option<Open>,
    finished: bool,
}

fn decode_compressed_block(body: &[u8], target: &mut Target, frame: &mut Frame, h: Ghost<
    FrameHeader,
>) -> (r: Result<()>)
    requires
        old(target).wf(),
        old(frame).tables@.valid(),
        sound_code(old(frame).literals),
        h@.window_size == old(target).window_size,
    ensures
        match layout::compressed(
            body@,
            frame_of(h@, *old(frame), old(target).out.dictionary()),
            old(target).room() as nat,
        ) {
            Ok(g) => r is Ok && final(target).grown_from(old(target)) && g == frame_of(
                h@,
                *final(frame),
                final(target).out.dictionary(),
            ) && final(frame).tables@.valid() && sound_code(final(frame).literals),
            Err(e) => r matches Err(f) && f == e,
        },
{
    let (literals, used) = match decode_literals(body, &mut frame.literals) {
        Err(e) => {
            return Err(e);
        },
        Ok(v) => v,
    };
    let rest: &[u8] = &body[used..body.len()];
    assert(rest@ =~= body@.skip(used as int));
    sequences::execute(rest, &literals, target, &mut frame.tables, &mut frame.repeats)
}

impl Reader {
    /// The stream that it decodes.
    pub closed spec fn input(&self) -> Seq<u8> {
        self.inner@
    }

    /// What the input decodes to.
    pub open spec fn stream(&self) -> Result<Seq<u8>> {
        layout::decoded(self.input())
    }

    /// What the input holds, or where it cannot be decoded to its end, what it
    /// holds before the fault.
    pub open spec fn held(&self) -> Seq<u8> {
        layout::held_frames(self.input(), 0, 0)
    }

    /// What was read so far.
    pub closed spec fn delivered(&self) -> Seq<u8> {
        self.target.out.delivered()
    }

    /// Whether the end of the input was reached and everything was read.
    pub closed spec fn finished(&self) -> bool {
        self.finished && self.target.out.unread() == 0
    }

    /// What was decoded before the current frame.
    spec fn settled(&self) -> Seq<u8> {
        match self.open {
            None => self.target.out.all(),
            Some(_) => self.target.before(),
        }
    }

    /// What is still to come, the current frame in front of it.
    spec fn rest(&self) -> Result<Seq<u8>> {
        if self.finished {
            Ok(Seq::empty())
        } else {
            match self.open {
                None => layout::frames(self.inner@, self.pos as nat, self.settled().len()),
                Some(o) => layout::blocks(
                    self.inner@,
                    self.pos as nat,
                    frame_of(o.header, o.frame, self.target.out.dictionary()),
                    self.settled().len(),
                ),
            }
        }
    }

    /// What is still held, the current frame in front of it.
    spec fn held_rest(&self) -> Seq<u8> {
        if self.finished {
            Seq::empty()
        } else {
            match self.open {
                None => layout::held_frames(self.inner@, self.pos as nat, self.settled().len()),
                Some(o) => layout::held_blocks(
                    self.inner@,
                    self.pos as nat,
                    frame_of(o.header, o.frame, self.target.out.dictionary()),
                    self.settled().len(),
                ),
            }
        }
    }

    /// The reader stands somewhere in the input that it was given.
    pub closed spec fn wf(&self) -> bool {
        &&& self.target.wf()
        &&& self.pos <= self.inner@.len()
        &&& self.finished ==> self.open is None
        &&& self.open matches Some(o) ==> {
            &&& o.header.window_size == self.target.window_size
            &&& o.start == self.target.before().len()
            &&& o.frame.tables@.valid()
            &&& sound_code(o.frame.literals)
            &&& o.digest.wf()
            &&& o.digest.seed() == 0
            &&& o.hashed <= self.target.out.all().len()
            &&& o.header.has_checksum ==> o.hashed == self.target.out.all().len()
                && o.digest.data() == self.target.out.dictionary()
        }
        &&& self.stream() == error::joined(self.settled(), self.rest())
        &&& self.held() == self.settled() + self.held_rest()
    }

    /// How much reading is left at most.
    pub closed spec fn budget(&self) -> (nat, nat) {
        (
            (self.inner@.len() - self.pos + if self.finished {
                0int
            } else {
                1
            }) as nat,
            self.target.out.unread(),
        )
    }

    /// What was read is a start of what the input decodes to; at the end it is
    /// all of it.
    pub proof fn lemma_delivered(&self)
        requires
            self.wf(),
        ensures
            self.stream() matches Ok(all) ==> self.delivered().is_prefix_of(all),
            self.delivered().is_prefix_of(self.held()),
            self.finished() ==> self.stream() == Ok::<Seq<u8>, Error>(self.delivered()),
    {
        self.target.out.lemma_reach();
        let w = self.target.out;
        let h = self.held();
        if let Some(o) = self.open {
            let f = frame_of(o.header, o.frame, w.dictionary());
            layout::lemma_held_grows(self.inner@, self.pos as nat, f, self.settled().len());
            assert(w.all() =~= self.target.before() + w.dictionary());
            assert(w.all() =~= h.take(w.all().len() as int)) by {
                let rest = self.held_rest();
                assert(rest.take(w.dictionary().len() as int) =~= w.dictionary());
                assert forall|i: int| 0 <= i < w.all().len() implies w.all()[i] == h[i] by {
                    let k = self.target.before().len();
                    if i >= k {
                        assert(rest.take(w.dictionary().len() as int)[i - k] == rest[i - k]);
                    }
                }
            }
        } else {
            assert(w.all() =~= h.take(w.all().len() as int));
        }
        assert(self.delivered() =~= h.take(w.all().len() as int).take(
            self.delivered().len() as int,
        ));
        assert(self.delivered() =~= h.take(self.delivered().len() as int));
        if let Ok(all) = self.stream() {
            let rest = self.rest()->Ok_0;
            assert(all == self.settled() + rest);
            if let Some(o) = self.open {
                let f = frame_of(o.header, o.frame, w.dictionary());
                layout::lemma_blocks_grow(
                    self.inner@,
                    self.pos as nat,
                    f,
                    self.settled().len(),
                );
                assert(w.dictionary() =~= rest.take(w.dictionary().len() as int));
                assert(w.all() =~= self.target.before() + w.dictionary());
                assert(w.all() =~= all.take(w.all().len() as int)) by {
                    assert forall|i: int| 0 <= i < w.all().len() implies w.all()[i] == all[i] by {
                        let k = self.target.before().len();
                        if i >= k {
                            assert(rest.take(w.dictionary().len() as int)[i - k] == rest[i - k]);
                        }
                    }
                }
            } else {
                assert(w.all() =~= all.take(w.all().len() as int));
            }
            assert(self.delivered() =~= all.take(self.delivered().len() as int));
        }
        if self.finished() {
            assert(self.delivered() =~= w.all());
            assert(w.all() + Seq::<u8>::empty() =~= w.all());
        }
    }

    /// Wrap `inner`. The hint only sizes the first allocation.
    pub fn new(inner: Vec<u8>, _size_hint: u64) -> (r: Self)
        ensures
            r.wf(),
            r.input() == inner@,
            r.delivered() == Seq::<u8>::empty(),
    {
        let r: Reader = Reader {
            inner,
            pos: 0,
            target: Target { out: Window::new(1_048_576), window_size: 0 },
            open: None,
            finished: false,
        };
        proof {
            assert(r.delivered() =~= Seq::<u8>::empty());
            if let Ok(s) = r.stream() {
                assert(Seq::<u8>::empty() + s =~= s);
            }
            let h = r.held();
            assert(Seq::<u8>::empty() + h =~= h);
        }
        r
    }

    /// The next field of `n` bytes.
    fn exactly(&mut self, n: usize) -> (r: Result<Vec<u8>>)
        requires
            old(self).pos <= old(self).inner@.len(),
            n <= MAX_BLOCK,
        ensures
            match layout::field(old(self).inner@, old(self).pos as nat, n as nat) {
                Ok((s, q)) => r matches Ok(v) && v@ == s && s.len() == n && *final(self) == (Reader {
                    pos: final(self).pos,
                    ..*old(self)
                }) && final(self).pos == q && q <= old(self).inner@.len(),
                Err(e) => r matches Err(f) && f == e,
            },
    {
        if n == 0 {
            let v: Vec<u8> = Vec::new();
            assert(v@ =~= Seq::<u8>::empty());
            return Ok(v);
        }
        if n > self.inner.len() - self.pos {
            return Err(Error::Malformed);
        }
        let end: usize = self.pos + n;
        let mut v: Vec<u8> = Vec::new();
        v.extend_from_slice(&self.inner.as_slice()[self.pos..end]);
        assert(v@ =~= self.inner@.subrange(self.pos as int, end as int));
        self.pos = end;
        Ok(v)
    }

    #[verifier::rlimit(30)]
    #[verifier::spinoff_prover]
    fn start_frame(&mut self) -> (r: Result<()>)
        requires
            old(self).wf(),
            old(self).open is None,
            !old(self).finished,
        ensures
            match r {
                Ok(_) => final(self).wf() && final(self).input() == old(self).input()
                    && final(self).delivered() == old(self).delivered()
                    && final(self).target.out.unread() == old(self).target.out.unread()
                    && final(self).budget().0 < old(self).budget().0,
                Err(e) => old(self).stream() == Err::<Seq<u8>, Error>(e) && old(self).held()
                    == old(self).target.out.all(),
            },
    {
        let ghost data = self.inner@;
        let ghost at = self.pos as nat;
        let ghost before = self.target.out.all();
        proof {
            layout::lemma_opening(data, at);
            self.target.out.lemma_reach();
            assert(before + Seq::<u8>::empty() =~= before);
        }
        if self.pos >= self.inner.len() {
            self.finished = true;
            assert(before + Seq::<u8>::empty() =~= before);
            return Ok(());
        }
        if self.inner.len() - self.pos < 4 {
            return Err(Error::Malformed);
        }
        let magic: u32 = get_le32(self.inner.as_slice(), self.pos);
        self.pos = self.pos + 4;
        if SKIPPABLE_MAGIC_LOW <= magic && magic <= SKIPPABLE_MAGIC_HIGH {
            let field: Vec<u8> = match self.exactly(4) {
                Err(e) => {
                    return Err(e);
                },
                Ok(v) => v,
            };
            let size: usize = get_le32(&field, 0) as usize;
            let left: usize = self.inner.len() - self.pos;
            self.pos = if size < left {
                self.pos + size
            } else {
                self.inner.len()
            };
            assert(layout::opening(data, at) == Ok::<layout::Opening, Error>(
                layout::Opening::Skipped(self.pos as nat),
            ));
            return Ok(());
        }
        if magic != MAGIC {
            return Err(Error::Malformed);
        }
        let descriptor: Vec<u8> = match self.exactly(1) {
            Err(e) => {
                return Err(e);
            },
            Ok(v) => v,
        };
        let more: Vec<u8> = match self.exactly(FrameHeader::length_of(descriptor[0]) - 1) {
            Err(e) => {
                return Err(e);
            },
            Ok(v) => v,
        };
        let ghost d = descriptor@;
        let mut head: Vec<u8> = descriptor;
        head.extend_from_slice(&more);
        assert(head@ =~= d + more@);
        let parsed: FrameHeader = match FrameHeader::parse(&head) {
            Err(e) => {
                return Err(e);
            },
            Ok(h) => h,
        };
        let window_size: u64 = if parsed.window_size == 0 {
            1_048_576
        } else {
            parsed.window_size
        };
        self.target.out.reset_dictionary();
        proof {
            self.target.out.lemma_reach();
        }
        self.target.out.set_dictionary_size(window_size as usize);
        self.target.window_size = parsed.window_size;
        let hashed: u64 = self.target.out.total();
        let frame: Frame = Frame { literals: None, tables: Tables::default(), repeats: [1, 4, 8] };
        proof {
            assert(self.target.out.dictionary() =~= Seq::<u8>::empty());
            assert(frame.repeats@ =~= seq![1u32, 4u32, 8u32]);
            assert(self.target.before() =~= before);
            assert(frame_of(parsed, frame, Seq::empty()) == layout::fresh(parsed.says()));
        }
        self.open = Some(Open { header: parsed, start: hashed, hashed, digest: XxHash64::new(0), frame });
        assert(self.delivered() =~= old(self).delivered());
        Ok(())
    }

    /// Add `count` times `byte` to the output.
    fn repeat(target: &mut Target, byte: u8, count: usize) -> (r: Result<()>)
        requires
            old(target).wf(),
        ensures
            if old(target).out.dictionary().len() + count > old(target).room() {
                r == Err::<(), Error>(Error::Malformed)
            } else {
                r is Ok && final(target).grown_from(old(target)) && final(target).out.dictionary()
                    == old(target).out.dictionary() + Seq::new(count as nat, |i: int| byte)
            },
    {
        let ghost o = *target;
        let total: u64 = target.out.total();
        if count as u64 > MAX_TOTAL - total {
            return Err(Error::Malformed);
        }
        let mut i: usize = 0;
        assert(o.out.dictionary() + Seq::new(0, |i: int| byte) =~= o.out.dictionary());
        while i < count
            invariant
                i <= count,
                o == *old(target),
                o.wf(),
                target.grown_from(&o),
                o.out.all().len() + count <= MAX_TOTAL,
                target.out.all().len() == o.out.all().len() + i,
                target.out.dictionary() == o.out.dictionary() + Seq::new(i as nat, |i: int| byte),
            decreases count - i,
        {
            let ghost was = target.out.dictionary();
            let ghost then = *target;
            target.out.push(byte);
            i = i + 1;
            assert(was.push(byte) =~= o.out.dictionary() + Seq::new(i as nat, |i: int| byte));
            assert(target.before() =~= then.before());
        }
        Ok(())
    }

    /// What a block adds to the frame.
    #[verifier::spinoff_prover]
    fn block_body(
        kind: u32,
        size: usize,
        body: &[u8],
        target: &mut Target,
        frame: &mut Frame,
        h: Ghost<FrameHeader>,
    ) -> (r: Result<()>)
        requires
            old(target).wf(),
            old(frame).tables@.valid(),
            sound_code(old(frame).literals),
            h@.window_size == old(target).window_size,
            kind == 1 ==> body.len() == 1,
        ensures
            match block_result(
                kind as nat,
                size as nat,
                body@,
                frame_of(h@, *old(frame), old(target).out.dictionary()),
                old(target).room() as nat,
            ) {
                Ok(g) => r is Ok && final(target).grown_from(old(target)) && g == frame_of(
                    h@,
                    *final(frame),
                    final(target).out.dictionary(),
                ) && final(frame).tables@.valid() && sound_code(final(frame).literals),
                Err(e) => r matches Err(f) && f == e,
            },
    {
        let ghost o = *target;
        if kind == 0 {
            let total: u64 = target.out.total();
            if body.len() as u64 > MAX_TOTAL - total {
                return Err(Error::Malformed);
            }
            target.out.extend(body);
            assert(target.before() =~= o.before());
            return Ok(());
        }
        if kind == 1 {
            let byte: u8 = body[0];
            assert(Seq::new(size as nat, |i: int| body@[0]) =~= Seq::new(
                size as nat,
                |i: int| byte,
            ));
            return Self::repeat(target, byte, size);
        }
        if kind == 2 {
            return decode_compressed_block(body, target, frame, h);
        }
        Err(Error::Malformed)
    }

    /// Decode one block. It says whether that was the last one.
    #[verifier::rlimit(60)]
    #[verifier::spinoff_prover]
    fn take_block(&mut self, open: &mut Open) -> (r: Result<bool>)
        requires
            old(self).target.wf(),
            old(self).pos <= old(self).inner@.len(),
            old(open).header.window_size == old(self).target.window_size,
            old(open).frame.tables@.valid(),
            sound_code(old(open).frame.literals),
        ensures
            match layout::block(
                old(self).inner@,
                old(self).pos as nat,
                frame_of(
                    old(open).header,
                    old(open).frame,
                    old(self).target.out.dictionary(),
                ),
                old(self).target.room() as nat,
            ) {
                Ok((g, q, last)) => {
                    &&& r == Ok::<bool, Error>(last)
                    &&& *final(self) == (Reader {
                        pos: final(self).pos,
                        target: final(self).target,
                        ..*old(self)
                    })
                    &&& final(self).pos == q
                    &&& old(self).pos < q <= old(self).inner@.len()
                    &&& final(self).target.grown_from(&old(self).target)
                    &&& *final(open) == (Open { frame: final(open).frame, ..*old(open) })
                    &&& g == frame_of(
                        final(open).header,
                        final(open).frame,
                        final(self).target.out.dictionary(),
                    )
                    &&& final(open).frame.tables@.valid()
                    &&& sound_code(final(open).frame.literals)
                    &&& old(self).target.out.dictionary().is_prefix_of(
                        final(self).target.out.dictionary(),
                    )
                },
                Err(e) => r matches Err(f) && f == e,
            },
    {
        let ghost data = self.inner@;
        let ghost at = self.pos as nat;
        let ghost f = frame_of(open.header, open.frame, self.target.out.dictionary());
        proof {
            layout::lemma_block(data, at, f, self.target.room() as nat);
            reveal(layout::block);
        }
        if self.inner.len() - self.pos < 3 {
            return Err(Error::Malformed);
        }
        let value: u32 = self.inner[self.pos] as u32 + 256 * (self.inner[self.pos + 1] as u32)
            + 0x1_0000 * (self.inner[self.pos + 2] as u32);
        assert(value == bytes::le(data, at as int, 3)) by {
            reveal_with_fuel(bytes::le, 4);
        }
        self.pos = self.pos + 3;
        let last: bool = value % 2 == 1;
        let kind: u32 = value / 2 % 4;
        let size: usize = (value / 8) as usize;
        let stored: usize = if kind == 1 {
            1
        } else {
            size
        };
        if stored > MAX_BLOCK {
            return Err(Error::Malformed);
        }
        let body: Vec<u8> = match self.exactly(stored) {
            Err(e) => {
                return Err(e);
            },
            Ok(v) => v,
        };
        let ghost h = open.header;
        if let Err(e) = Self::block_body(
            kind,
            size,
            &body,
            &mut self.target,
            &mut open.frame,
            Ghost(h),
        ) {
            return Err(e);
        }
        Ok(last)
    }

    /// Hash what a block has produced.
    #[verifier::spinoff_prover]
    fn digest(open: &mut Open, target: &Target, then: Ghost<Target>)
        requires
            then@.wf(),
            target.grown_from(&then@),
            then@.out.dictionary().is_prefix_of(target.out.dictionary()),
            old(open).digest.wf(),
            old(open).header.has_checksum ==> old(open).hashed == then@.out.all().len()
                && old(open).digest.data() == then@.out.dictionary(),
        ensures
            *final(open) == (Open {
                digest: final(open).digest,
                hashed: final(open).hashed,
                ..*old(open)
            }),
            final(open).digest.wf(),
            final(open).digest.seed() == old(open).digest.seed(),
            final(open).hashed == old(open).hashed || final(open).hashed == target.out.all().len(),
            final(open).header.has_checksum ==> final(open).hashed == target.out.all().len()
                && final(open).digest.data() == target.out.dictionary(),
    {
        if open.header.has_checksum {
            proof {
                let w = target.out;
                let d = then@.out.dictionary();
                then@.out.lemma_reach();
                w.lemma_reach();
                lemma_fresh_held(&then@.out, &target.out);
                let n = d.len() as int;
                assert(w.dictionary().take(n) =~= d);
                assert(w.all().skip(open.hashed as int) =~= w.dictionary().skip(n));
                assert(d + w.dictionary().skip(n) =~= w.dictionary());
            }
            open.digest.update(target.out.since(open.hashed));
            open.hashed = target.out.total();
        }
    }

    /// Check what the frame says of its content.
    #[verifier::spinoff_prover]
    fn close_frame(&mut self, open: &Open) -> (r: Result<()>)
        requires
            old(self).target.wf(),
            old(self).pos <= old(self).inner@.len(),
            open.digest.wf(),
            open.digest.seed() == 0,
            open.start == old(self).target.before().len(),
            open.header.has_checksum ==> open.digest.data() == old(self).target.out.dictionary(),
        ensures
            match layout::closing(
                old(self).inner@,
                old(self).pos as nat,
                frame_of(open.header, open.frame, old(self).target.out.dictionary()),
            ) {
                Ok(q) => r is Ok && *final(self) == (Reader { pos: final(self).pos, ..*old(self) })
                    && final(self).pos == q && old(self).pos <= q <= old(self).inner@.len(),
                Err(e) => r matches Err(f) && f == e,
            },
    {
        let ghost g = frame_of(open.header, open.frame, self.target.out.dictionary());
        proof {
            reveal(layout::closing);
            layout::lemma_closing(self.inner@, self.pos as nat, g);
            self.target.out.lemma_reach();
        }
        if let Some(want) = open.header.content_size {
            let produced: u64 = self.target.out.total() - open.start;
            if produced != want {
                return Err(Error::Malformed);
            }
        }
        if open.header.has_checksum {
            let expected: u64 = open.digest.finish() % 0x1_0000_0000;
            let check: Vec<u8> = match self.exactly(4) {
                Err(e) => {
                    return Err(e);
                },
                Ok(v) => v,
            };
            if expected != get_le32(&check, 0) as u64 {
                return Err(Error::Malformed);
            }
        }
        Ok(())
    }

    #[verifier::rlimit(60)]
    #[verifier::spinoff_prover]
    fn block(&mut self) -> (r: Result<()>)
        requires
            old(self).wf(),
            old(self).open is Some,
            !old(self).finished,
        ensures
            match r {
                Ok(_) => final(self).wf() && final(self).input() == old(self).input()
                    && final(self).delivered() == old(self).delivered()
                    && final(self).budget().0 < old(self).budget().0,
                Err(e) => old(self).stream() == Err::<Seq<u8>, Error>(e) && old(self).held()
                    == old(self).target.out.all(),
            },
    {
        let ghost data = self.inner@;
        let ghost settled = self.settled();
        let mut taken: Option<Open> = None;
        std::mem::swap(&mut taken, &mut self.open);
        let mut open: Open = match taken {
            None => {
                return Err(Error::Malformed);
            },
            Some(o) => o,
        };
        proof {
            self.target.out.lemma_reach();
            assert(settled == self.target.before());
            assert(layout::room_after(settled.len()) == self.target.room());
            assert(self.target.out.all() =~= settled + self.target.out.dictionary());
        }
        let ghost then = self.target;
        let last: bool = match self.take_block(&mut open) {
            Err(e) => {
                return Err(e);
            },
            Ok(v) => v,
        };
        Self::digest(&mut open, &self.target, Ghost(then));
        proof {
            self.target.out.lemma_reach();
        }
        if !last {
            self.open = Some(open);
            return Ok(());
        }
        if let Err(e) = self.close_frame(&open) {
            return Err(e);
        }
        proof {
            let w = self.target.out;
            assert(w.all() =~= settled + w.dictionary());
            let rest = layout::frames(data, self.pos as nat, w.all().len());
            if let Ok(s) = rest {
                assert(settled + (w.dictionary() + s) =~= w.all() + s);
            }
            let s = layout::held_frames(data, self.pos as nat, w.all().len());
            assert(settled + (w.dictionary() + s) =~= w.all() + s);
        }
        Ok(())
    }

    fn step(&mut self) -> (r: Result<()>)
        requires
            old(self).wf(),
            !old(self).finished,
        ensures
            match r {
                Ok(_) => final(self).wf() && final(self).input() == old(self).input()
                    && final(self).delivered() == old(self).delivered()
                    && final(self).budget().0 < old(self).budget().0,
                Err(e) => old(self).stream() == Err::<Seq<u8>, Error>(e) && old(self).held()
                    == old(self).target.out.all(),
            },
    {
        if self.open.is_some() {
            self.block()
        } else {
            self.start_frame()
        }
    }

    /// Read into `buf` what is decoded next. Nothing is read at the end only.
    pub fn read(&mut self, buf: &mut [u8]) -> (r: Result<usize>)
        requires
            old(self).wf(),
        ensures
            final(buf)@.len() == old(buf)@.len(),
            r matches Ok(n) ==> {
                &&& final(self).wf()
                &&& final(self).input() == old(self).input()
                &&& n <= old(buf)@.len()
                &&& final(self).delivered() == old(self).delivered() + final(buf)@.take(n as int)
                &&& final(buf)@.skip(n as int) == old(buf)@.skip(n as int)
                &&& n == 0 && old(buf)@.len() > 0 ==> final(self).finished()
                &&& n > 0 ==> final(self).budget().0 < old(self).budget().0 || final(self).budget().0
                    == old(self).budget().0 && final(self).budget().1 < old(self).budget().1
            },
            r matches Err(e) ==> old(self).stream() == Err::<Seq<u8>, Error>(e) && old(
                self,
            ).delivered() == old(self).held(),
    {
        if buf.len() == 0 {
            assert(buf@.take(0) =~= Seq::<u8>::empty());
            return Ok(0);
        }
        while self.target.out.pending() == 0 && !self.finished
            invariant
                self.wf(),
                self.input() == old(self).input(),
                self.delivered() == old(self).delivered(),
                self.budget().0 < old(self).budget().0 || *self == *old(self),
                buf@ == old(buf)@,
            decreases self.budget().0,
        {
            let ghost then = *self;
            self.target.out.drain();
            proof {
                assert(self.target.before() == then.target.before());
                assert(self.settled() == then.settled());
                assert(self.rest() == then.rest());
            }
            if let Err(e) = self.step() {
                return Err(e);
            }
        }
        let ghost then = *self;
        let n: usize = self.target.out.take(buf);
        proof {
            assert(self.target.before() == then.target.before());
            assert(self.settled() == then.settled());
            assert(self.rest() == then.rest());
        }
        Ok(n)
    }
}

/// What a block's body makes of the frame.
spec fn block_result(
    kind: nat,
    size: nat,
    body: Seq<u8>,
    f: layout::Frame,
    room: nat,
) -> Result<layout::Frame> {
    if kind == 0 {
        layout::appended(f, body, room)
    } else if kind == 1 {
        layout::appended(f, Seq::new(size, |i: int| body[0]), room)
    } else if kind == 2 {
        layout::compressed(body, f, room)
    } else {
        Err(Error::Malformed)
    }
}

/// What was produced since nothing more was read is still held.
proof fn lemma_fresh_held(a: &Window, b: &Window)
    requires
        a.wf(),
        b.wf(),
        a.delivered() == b.delivered(),
        a.all().len() <= b.all().len(),
    ensures
        b.all().len() - a.all().len() <= b.held(),
{
    a.lemma_reach();
    b.lemma_reach();
    assert(a.delivered().len() == a.all().len() - a.unread());
    assert(b.delivered().len() == b.all().len() - b.unread());
}

/// Decode every frame in a Zstandard stream.
pub fn decompress(data: &[u8], size_hint: usize) -> (r: Result<Vec<u8>>)
    ensures
        match layout::decoded(data@) {
            Ok(all) => r matches Ok(out) && out@ == all,
            Err(e) => r matches Err(f) && f == e,
        },
{
    let mut input: Vec<u8> = Vec::with_capacity(data.len());
    input.extend_from_slice(data);
    assert(input@ =~= data@);
    let mut reader: Reader = Reader::new(input, size_hint as u64);
    let mut out: Vec<u8> = Vec::new();
    let mut chunk: Vec<u8> = vec![0u8; 65_536];
    loop
        invariant
            reader.wf(),
            reader.input() == data@,
            out@ == reader.delivered(),
            chunk@.len() == 65_536,
        decreases reader.budget().0, reader.budget().1,
    {
        match reader.read(chunk.as_mut_slice()) {
            Err(e) => {
                return Err(e);
            },
            Ok(n) => {
                if n == 0 {
                    proof {
                        reader.lemma_delivered();
                        assert(out@ + chunk@.take(0) =~= out@);
                    }
                    return Ok(out);
                }
                out.extend_from_slice(&chunk.as_slice()[0..n]);
                assert(out@ =~= reader.delivered());
            },
        }
    }
}

} // verus!
