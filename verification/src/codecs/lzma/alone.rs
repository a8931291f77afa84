//! The `.lzma` container.
use crate::codecs::lzma::decode::{LzmaDecoder, Properties};
use crate::codecs::lzma::encode;
use crate::codecs::lzma::encode::{compress_raw, dictionary_at, properties_byte};
use crate::codecs::lzma::marked;
use crate::codecs::lzma::marked::Marked;
use crate::codecs::lzma::range;
use crate::codecs::lzma::syntax;
use crate::codecs::lzma::syntax::{Ending, MAX_TOTAL};
use crate::codecs::Level;
use crate::utils::bytes;
use crate::utils::bytes::{get_le32, get_le64, put_le};
use crate::utils::error::{Error, Result};
use vstd::prelude::*;

verus! {

/// How long the header is.
pub const HEADER_LEN: usize = 13;

const UNKNOWN_SIZE: u64 = 0xffff_ffff_ffff_ffff;

/// The size that a header declares; all ones stand for unknown.
pub open spec fn declared_size(data: Seq<u8>) -> Option<u64> {
    let n = bytes::le(data, 5, 8);
    if n == 0xffff_ffff_ffff_ffff {
        None
    } else {
        Some(n as u64)
    }
}

/// What a `.lzma` stream decodes to: five property bytes, an eight byte size,
/// then the raw stream.
pub open spec fn alone(data: Seq<u8>) -> Option<Seq<u8>> {
    if data.len() < 13 {
        None
    } else {
        match syntax::props_from(data[0] as int, bytes::le(data, 1, 4) as int) {
            None => None,
            Some(p) => syntax::stream(data.skip(13), p, declared_size(data)),
        }
    }
}

/// A bare `.lzma` stream: five property bytes then an eight byte size.
///
/// This is the LZMA_Alone container, not the four byte framing a ZIP entry puts
/// in front of the same property bytes.
pub fn reader(input: &[u8]) -> (r: Result<LzmaDecoder>)
    ensures
        r is Ok <==> input@.len() >= 18 && syntax::props_from(
            input@[0] as int,
            bytes::le(input@, 1, 4) as int,
        ) is Some,
        r matches Ok(d) ==> d.wf() && d.input() == input@.skip(13) && Some(d.properties())
            == syntax::props_from(input@[0] as int, bytes::le(input@, 1, 4) as int) && d.wanted()
            == declared_size(input@) && d.delivered() == Seq::<u8>::empty(),
        r matches Err(e) ==> e == Error::Malformed,
{
    if input.len() < HEADER_LEN {
        return Err(Error::Malformed);
    }
    let props: Properties = match Properties::from_byte(input[0], get_le32(input, 1)) {
        Ok(p) => p,
        Err(e) => {
            return Err(e);
        },
    };
    let size: u64 = get_le64(input, 5);
    let expected: Option<u64> = if size == UNKNOWN_SIZE {
        None
    } else {
        Some(size)
    };
    let mut rest: Vec<u8> = Vec::with_capacity(input.len() - HEADER_LEN);
    rest.extend_from_slice(&input[HEADER_LEN..input.len()]);
    assert(rest@ =~= input@.skip(13));
    LzmaDecoder::new(rest, props, expected)
}

/// The whole of a `.lzma` stream, decoded.
pub fn decompress(data: &[u8], size_hint: usize) -> (r: Result<Vec<u8>>)
    ensures
        match alone(data@) {
            Some(all) => r matches Ok(out) && out@ == all,
            None => r matches Err(e) && e == Error::Malformed,
        },
{
    match reader(data) {
        Ok(mut d) => d.read_to_end(),
        Err(e) => Err(e),
    }
}

/// Whether a byte string can be the start of a `.lzma` stream.
pub fn is_alone(prefix: &[u8]) -> (r: bool)
    ensures
        r == (prefix@.len() >= 5 && prefix@[0] < 225 && 4096 <= bytes::le(prefix@, 1, 4)
            <= 0x4000_0000),
{
    if prefix.len() < 5 {
        return false;
    }
    if prefix[0] >= 225 {
        return false;
    }
    let dict: u32 = get_le32(prefix, 1);
    4096 <= dict && dict <= 0x4000_0000
}

/// The parameters of every stream written here.
pub open spec fn default_props(dict: int) -> Properties {
    Properties { lc: 3, lp: 0, pb: 2, dict_size: dict as u32 }
}

/// The header of a stream.
pub open spec fn header_bytes(dict: int, size: nat) -> Seq<u8> {
    seq![93u8] + bytes::le_bytes(dict as nat, 4) + bytes::le_bytes(size, 8)
}

proof fn lemma_header_read(dict: int, size: nat, rest: Seq<u8>)
    requires
        4096 <= dict <= 0x4000_0000,
        size <= 0xffff_ffff_ffff_ffff,
    ensures
        ({
            let data = header_bytes(dict, size) + rest;
            &&& header_bytes(dict, size).len() == 13
            &&& data.skip(13) == rest
            &&& syntax::props_from(data[0] as int, bytes::le(data, 1, 4) as int) == Some(
                default_props(dict),
            )
            &&& bytes::le(data, 5, 8) == size
        }),
{
    let data = header_bytes(dict, size) + rest;
    bytes::lemma_le_bytes_len(dict as nat, 4);
    bytes::lemma_le_bytes_len(size, 8);
    reveal_with_fuel(bytes::span, 9);
    assert(data.subrange(1, 5) =~= bytes::le_bytes(dict as nat, 4));
    assert(data.subrange(5, 13) =~= bytes::le_bytes(size, 8));
    bytes::lemma_le_round_trip(data, 1, dict as nat, 4);
    bytes::lemma_le_round_trip(data, 5, size, 8);
    assert(data.skip(13) =~= rest);
    assert(data[0] == 93);
}

fn write_header(out: &mut Vec<u8>, props: Properties, size: u64)
    requires
        props.lc == 3,
        props.lp == 0,
        props.pb == 2,
        syntax::props_ok(props),
    ensures
        final(out)@ == old(out)@ + header_bytes(props.dict_size as int, size as nat),
{
    out.push(properties_byte(props));
    put_le(out, props.dict_size as u64, 4);
    put_le(out, size, 8);
    assert(out@ =~= old(out)@ + header_bytes(props.dict_size as int, size as nat));
}

/// Write a `.lzma` (LZMA_Alone) stream: five property bytes, an eight byte size,
/// then the raw stream.
///
/// The dictionary size written is the one actually used, after clamping, so a
/// decoder sizes its window the same way this encoder did.
pub fn compress(data: &[u8], depth: usize) -> (r: Vec<u8>)
    requires
        data@.len() <= MAX_TOTAL,
    ensures
        alone(r@) == Some(data@),
        r@.len() >= 13,
        r@.take(13) == header_bytes(
            encode::dictionary_of(data@.len() as int, Level::Default),
            data@.len(),
        ),
        r@.skip(13) == encode::raw_of(
            default_props(encode::dictionary_of(data@.len() as int, Level::Default)),
            depth,
            data@,
        ),
        data@.len() == 0 ==> r@.skip(13) == seq![0u8, 0u8, 0u8, 0u8, 0u8],
{
    compress_at(data, depth, Level::Default)
}

/// Compress with a dictionary sized for `level`. What comes out decodes to
/// the data.
pub fn compress_at(data: &[u8], depth: usize, level: Level) -> (r: Vec<u8>)
    requires
        data@.len() <= MAX_TOTAL,
    ensures
        alone(r@) == Some(data@),
        r@.len() >= 13,
        r@.take(13) == header_bytes(
            encode::dictionary_of(data@.len() as int, level),
            data@.len(),
        ),
        r@.skip(13) == encode::raw_of(
            default_props(encode::dictionary_of(data@.len() as int, level)),
            depth,
            data@,
        ),
        data@.len() == 0 ==> r@.skip(13) == seq![0u8, 0u8, 0u8, 0u8, 0u8],
{
    let dict: u32 = dictionary_at(data.len(), level);
    let props: Properties = Properties { lc: 3, lp: 0, pb: 2, dict_size: dict };
    let mut out: Vec<u8> = Vec::new();
    write_header(&mut out, props, data.len() as u64);
    let body: Vec<u8> = compress_raw(data, props, depth);
    let ghost head = out@;
    out.extend_from_slice(body.as_slice());
    proof {
        lemma_header_read(dict as int, data@.len(), body@);
        assert(Seq::<u8>::empty() + header_bytes(dict as int, data@.len()) =~= header_bytes(
            dict as int,
            data@.len(),
        ));
        assert(out@ =~= header_bytes(dict as int, data@.len()) + body@);
        assert(body@ + Seq::<u8>::empty() =~= body@);
        assert(syntax::run(
            body@ + Seq::<u8>::empty(),
            props,
            syntax::fresh(
                range::start_coder(body@ + Seq::<u8>::empty()),
                props,
                Seq::empty(),
                0,
            ),
            data@.len() as int,
        ) matches Ending::Limit(t) && t.hist == data@);
        assert(out@.take(13) =~= head);
        assert(out@.skip(13) =~= body@);
    }
    out
}

/// A `.lzma` stream written as its input arrives.
///
/// The size field says unknown and the stream ends with a marker, because the
/// length is only known once the last byte has gone by. Of the input one
/// dictionary is held, and the output whole.
pub struct Writer {
    head: Vec<u8>,
    inner: Marked,
    before: Ghost<Seq<u8>>,
}

impl Writer {
    /// What was there before the stream.
    pub closed spec fn before(&self) -> Seq<u8> {
        self.before@
    }

    /// All data taken so far.
    pub closed spec fn taken(&self) -> Seq<u8> {
        self.inner.taken()
    }

    /// How far back matches may reach.
    pub closed spec fn dictionary(&self) -> int {
        self.inner.properties().dict_size as int
    }

    /// How many earlier places a match is looked for at.
    pub closed spec fn depth(&self) -> usize {
        self.inner.depth()
    }

    /// The header is written.
    pub closed spec fn wf(&self) -> bool {
        let p = self.inner.properties();
        &&& self.inner.wf()
        &&& 4096 <= p.dict_size <= 0x4000_0000
        &&& p == default_props(p.dict_size as int)
        &&& self.head@ == self.before@ + header_bytes(p.dict_size as int, 0xffff_ffff_ffff_ffff)
    }

    /// Start a stream with a dictionary sized for `level`, after what `out`
    /// holds.
    pub fn new(out: Vec<u8>, depth: usize, level: Level) -> (r: Self)
        ensures
            r.wf(),
            r.before() == out@,
            r.taken() == Seq::<u8>::empty(),
            r.dictionary() == encode::dictionary_of(0x7fff_ffff, level),
            r.depth() == depth,
    {
        let dict: u32 = dictionary_at(0x7fff_ffff, level);
        let props: Properties = Properties { lc: 3, lp: 0, pb: 2, dict_size: dict };
        let ghost before = out@;
        let mut head: Vec<u8> = out;
        write_header(&mut head, props, UNKNOWN_SIZE);
        Writer { head, inner: Marked::new(props, depth), before: Ghost(before) }
    }

    /// Hand over more input, encoding whatever has become complete.
    pub fn push(&mut self, bytes: &[u8])
        requires
            old(self).wf(),
            old(self).taken().len() + bytes@.len() <= MAX_TOTAL,
            old(self).taken().len() + bytes@.len() <= usize::MAX,
        ensures
            final(self).wf(),
            final(self).before() == old(self).before(),
            final(self).taken() == old(self).taken() + bytes@,
            final(self).dictionary() == old(self).dictionary(),
            final(self).depth() == old(self).depth(),
    {
        self.inner.push(bytes);
    }

    /// Encode what is left, mark the end and give back everything written.
    /// What follows the start decodes to what was taken. It is the same however
    /// that was cut into pushes.
    pub fn finish(self) -> (r: Vec<u8>)
        requires
            self.wf(),
        ensures
            self.before().is_prefix_of(r@),
            r@.skip(self.before().len() as int).take(13) == header_bytes(
                self.dictionary(),
                0xffff_ffff_ffff_ffff,
            ),
            alone(r@.skip(self.before().len() as int)) == Some(self.taken()),
            r@ == self.before() + header_bytes(self.dictionary(), 0xffff_ffff_ffff_ffff)
                + marked::stream_of(default_props(self.dictionary()), self.depth(), self.taken()),
    {
        let ghost p = self.inner.properties();
        let body: Vec<u8> = self.inner.finish();
        let mut out: Vec<u8> = self.head;
        out.extend_from_slice(body.as_slice());
        proof {
            let b = self.before();
            let head = header_bytes(p.dict_size as int, 0xffff_ffff_ffff_ffff);
            assert(out@ =~= b + (head + body@));
            assert(out@.skip(b.len() as int) =~= head + body@);
            assert(out@.take(b.len() as int) =~= b);
            lemma_header_read(p.dict_size as int, 0xffff_ffff_ffff_ffff, Seq::empty());
            assert((head + body@).take(13) =~= head);
            lemma_header_read(p.dict_size as int, 0xffff_ffff_ffff_ffff, body@);
            assert(body@ + Seq::<u8>::empty() =~= body@);
            assert(syntax::stream_ending(body@ + Seq::<u8>::empty(), p, None) is Marker);
        }
        out
    }
}

} // verus!
