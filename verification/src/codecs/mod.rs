//! The codecs, and the methods and levels they are chosen by.
pub mod bcj;
pub mod bzip2;
pub mod compress;
pub mod compressing;
pub mod deflate;
pub mod gzip;
pub mod legacy;
pub mod lengths;
pub mod lzip;
pub mod lzma;
pub mod matching;
pub mod optimal;
pub mod ppmd;
pub mod sliding;
pub mod store;
pub mod xz;
pub mod zstd;

use crate::codecs::bzip2::{Bzip2Encoder, Bzip2Reader};
use crate::codecs::deflate::compress::DeflateEncoder;
use crate::codecs::deflate::inflate::{InflateReader, Variant};
use crate::codecs::lzma::LzmaDecoder;
use crate::codecs::store::StoreEncoder;
use crate::utils::bytes;
use crate::utils::error::{Error, Result, Unsupported};
use vstd::prelude::*;

verus! {

/// The ZIP version a reader needs for bzip2.
pub const VERSION_BZIP2: u16 = 46;

/// The ZIP version a reader needs for LZMA and the methods after it.
pub const VERSION_LZMA: u16 = 63;

/// A compression method, named by its ZIP method number.
///
/// This build reads all of them. [`Method::can_encode`] says which it can also
/// write.
#[derive(Debug, Clone, Copy, PartialEq, Eq, Structural)]
#[non_exhaustive]
pub enum Method {
    /// Stored with no compression at all.
    Store,
    /// PKWARE Shrink. Read only, and long obsolete.
    Shrink,
    /// PKWARE Reduce, at one of four factors. Read only, and long obsolete.
    Reduce(u8),
    /// PKWARE Implode. Read only, and long obsolete.
    Implode,
    /// Deflate, which almost every ZIP uses.
    Deflate,
    /// Deflate64. Read only.
    Deflate64,
    /// bzip2.
    Bzip2,
    /// Raw LZMA. Read only.
    Lzma,
    /// Zstandard. Read only.
    Zstd,
    /// PPMd variant I. Read only.
    Ppmd,
    /// xz. Read only.
    Xz,
}

impl Default for Method {
    fn default() -> (r: Self)
        ensures
            r == Method::Deflate,
    {
        Method::Deflate
    }
}

/// The ZIP method number of a method.
pub open spec fn method_code(m: Method) -> int {
    match m {
        Method::Store => 0,
        Method::Shrink => 1,
        Method::Reduce(factor) => factor + 1,
        Method::Implode => 6,
        Method::Deflate => 8,
        Method::Deflate64 => 9,
        Method::Bzip2 => 12,
        Method::Lzma => 14,
        Method::Zstd => 93,
        Method::Xz => 95,
        Method::Ppmd => 98,
    }
}

/// The factors of Reduce are one to four.
pub open spec fn method_valid(m: Method) -> bool {
    m matches Method::Reduce(factor) ==> 1 <= factor <= 4
}

impl Method {
    /// The method a ZIP method number names.
    pub fn from_code(code: u16) -> (r: Result<Self>)
        ensures
            r is Ok <==> exists|m: Method| method_valid(m) && #[trigger] method_code(m) == code,
            r matches Ok(m) ==> method_valid(m) && method_code(m) == code,
            r matches Err(e) ==> e == Error::Unsupported(Unsupported::CompressionMethod(code)),
    {
        let r: Result<Self> = if code == 0 {
            Ok(Method::Store)
        } else if code == 1 {
            Ok(Method::Shrink)
        } else if 2 <= code && code <= 5 {
            Ok(Method::Reduce((code - 1) as u8))
        } else if code == 6 {
            Ok(Method::Implode)
        } else if code == 8 {
            Ok(Method::Deflate)
        } else if code == 9 {
            Ok(Method::Deflate64)
        } else if code == 12 {
            Ok(Method::Bzip2)
        } else if code == 14 {
            Ok(Method::Lzma)
        } else if code == 93 {
            Ok(Method::Zstd)
        } else if code == 95 {
            Ok(Method::Xz)
        } else if code == 98 {
            Ok(Method::Ppmd)
        } else {
            Err(Error::Unsupported(Unsupported::CompressionMethod(code)))
        };
        proof {
            if let Ok(m) = r {
                assert(method_valid(m) && method_code(m) == code);
            }
        }
        r
    }

    /// The ZIP method number for this method.
    pub fn code(self) -> (r: u16)
        ensures
            r == method_code(self),
    {
        match self {
            Method::Store => 0,
            Method::Shrink => 1,
            Method::Reduce(factor) => factor as u16 + 1,
            Method::Implode => 6,
            Method::Deflate => 8,
            Method::Deflate64 => 9,
            Method::Bzip2 => 12,
            Method::Lzma => 14,
            Method::Zstd => 93,
            Method::Xz => 95,
            Method::Ppmd => 98,
        }
    }

    /// The ZIP version a reader needs to handle this method.
    pub fn version_needed(self) -> (r: u16)
        ensures
            r == match self {
                Method::Deflate | Method::Deflate64 => 20,
                Method::Bzip2 => VERSION_BZIP2,
                Method::Lzma | Method::Xz | Method::Zstd | Method::Ppmd => VERSION_LZMA,
                Method::Store | Method::Shrink | Method::Reduce(_) | Method::Implode => 10,
            },
    {
        match self {
            Method::Store => 10,
            Method::Shrink | Method::Reduce(_) => 10,
            Method::Implode => 10,
            Method::Deflate | Method::Deflate64 => 20,
            Method::Bzip2 => VERSION_BZIP2,
            Method::Lzma | Method::Xz | Method::Zstd | Method::Ppmd => VERSION_LZMA,
        }
    }

    /// Whether this build can write this method, not just read it.
    pub fn can_encode(self) -> (r: bool)
        ensures
            r == (self is Store || self is Deflate || self is Bzip2),
    {
        match self {
            Method::Store | Method::Deflate | Method::Bzip2 => true,
            _ => false,
        }
    }
}

/// Different methods have different numbers.
pub proof fn lemma_method_codes_distinct(a: Method, b: Method)
    requires
        method_valid(a),
        method_valid(b),
        method_code(a) == method_code(b),
    ensures
        a == b,
{
}

/// How hard to work at compressing.
#[derive(Debug, Clone, Copy, PartialEq, Eq, Structural)]
pub enum Level {
    /// Do not compress at all. Store the bytes as they are.
    Stored,
    /// Compress quickly, accepting a larger archive.
    Fast,
    /// A sensible balance of the two.
    Default,
    /// Compress as well as this build knows how, however long it takes.
    Best,
}

impl Default for Level {
    fn default() -> (r: Self)
        ensures
            r == Level::Default,
    {
        Level::Default
    }
}

impl Level {
    /// How far the LZMA match finders look for a longer match.
    pub fn search_depth(self) -> (r: usize)
        ensures
            r == match self {
                Level::Stored | Level::Fast => 8usize,
                Level::Default => 32,
                Level::Best => 128,
            },
    {
        match self {
            Level::Stored | Level::Fast => 8,
            Level::Default => 32,
            Level::Best => 128,
        }
    }

    /// The bzip2 block size for this level, in hundreds of kilobytes.
    pub fn bzip2_block_size(self) -> (r: u8)
        ensures
            r == match self {
                Level::Stored | Level::Fast => 1u8,
                Level::Default | Level::Best => 9,
            },
    {
        match self {
            Level::Stored | Level::Fast => 1,
            Level::Default | Level::Best => 9,
        }
    }

    /// The bits a ZIP entry's flags use to record this level.
    pub fn gp_flag_bits(self) -> (r: u16)
        ensures
            r == match self {
                Level::Best => 0b010u16,
                Level::Default => 0b000,
                Level::Fast => 0b100,
                Level::Stored => 0b110,
            },
    {
        match self {
            Level::Best => 0b010,
            Level::Default => 0b000,
            Level::Fast => 0b100,
            Level::Stored => 0b110,
        }
    }
}

/// Something that data is written through.
pub trait Encoder: Sized {
    /// Whether it may be used.
    spec fn ready(&self) -> bool;

    /// What the output held before.
    spec fn kept(&self) -> Seq<u8>;

    /// The data so far.
    spec fn given(&self) -> Seq<u8>;

    /// Whether `stored` stands for `data`.
    spec fn says(&self, stored: Seq<u8>, data: Seq<u8>) -> bool;

    /// Take more data.
    fn push(&mut self, data: &[u8])
        requires
            old(self).ready(),
        ensures
            final(self).ready(),
            final(self).kept() == old(self).kept(),
            final(self).given() == old(self).given() + data@,
            forall|s: Seq<u8>, d: Seq<u8>| #[trigger]
                final(self).says(s, d) == old(self).says(s, d),
    ;

    /// Give back the output, and how many bytes of it stand for the data.
    fn finish(self) -> (r: (Vec<u8>, u64))
        requires
            self.ready(),
        ensures
            self.kept().is_prefix_of(r.0@),
            r.1 == r.0@.len() - self.kept().len(),
            self.says(r.0@.skip(self.kept().len() as int), self.given()),
    ;
}

impl Encoder for StoreEncoder {
    open spec fn ready(&self) -> bool {
        self.wf()
    }

    open spec fn kept(&self) -> Seq<u8> {
        self.before()
    }

    open spec fn given(&self) -> Seq<u8> {
        self.taken()
    }

    open spec fn says(&self, stored: Seq<u8>, data: Seq<u8>) -> bool {
        stored == data
    }

    fn push(&mut self, data: &[u8]) {
        self.write(data);
    }

    fn finish(self) -> (r: (Vec<u8>, u64)) {
        let ghost b = self.before();
        let ghost t = self.taken();
        let r: (Vec<u8>, u64) = StoreEncoder::finish(self);
        assert(r.0@.skip(b.len() as int) =~= t);
        assert(r.0@.take(b.len() as int) =~= b);
        r
    }
}

impl Encoder for DeflateEncoder {
    open spec fn ready(&self) -> bool {
        self.wf()
    }

    open spec fn kept(&self) -> Seq<u8> {
        self.before()
    }

    open spec fn given(&self) -> Seq<u8> {
        self.taken()
    }

    open spec fn says(&self, stored: Seq<u8>, data: Seq<u8>) -> bool {
        &&& deflate::compress::is_stream(stored, data)
        &&& stored == deflate::bitwriter::bytes_of(
            deflate::compress::stream_bits(self.level(), data),
        )
    }

    fn push(&mut self, data: &[u8]) {
        self.write(data);
    }

    fn finish(self) -> (r: (Vec<u8>, u64)) {
        let ghost b = self.before();
        let ghost made = deflate::bitwriter::bytes_of(
            deflate::compress::stream_bits(self.level(), self.taken()),
        );
        let r: (Vec<u8>, u64) = DeflateEncoder::finish(self);
        assert(r.0@.skip(b.len() as int) =~= made);
        r
    }
}

impl Encoder for Bzip2Encoder {
    open spec fn ready(&self) -> bool {
        self.wf()
    }

    open spec fn kept(&self) -> Seq<u8> {
        self.before()
    }

    open spec fn given(&self) -> Seq<u8> {
        self.taken()
    }

    open spec fn says(&self, stored: Seq<u8>, data: Seq<u8>) -> bool {
        &&& bzip2::syntax::decoded(stored) == Ok::<Seq<u8>, Error>(data)
        &&& bzip2::join::is_stream(stored, self.made_for(), data)
        &&& bzip2::plan::is_made(stored, self.made_for(), data)
    }

    fn push(&mut self, data: &[u8]) {
        Bzip2Encoder::push(self, data);
    }

    fn finish(self) -> (r: (Vec<u8>, u64)) {
        let start: usize = self.start_len();
        let out: Vec<u8> = Bzip2Encoder::finish(self);
        let n: u64 = (out.len() - start) as u64;
        (out, n)
    }
}

/// An encoder for one of the methods that can be written.
pub enum MethodEncoder {
    /// Data kept as it is.
    Store(StoreEncoder),
    /// Deflate.
    Deflate(DeflateEncoder),
    /// bzip2.
    Bzip2(Bzip2Encoder),
}

impl Encoder for MethodEncoder {
    open spec fn ready(&self) -> bool {
        match self {
            MethodEncoder::Store(e) => e.ready(),
            MethodEncoder::Deflate(e) => e.ready(),
            MethodEncoder::Bzip2(e) => e.ready(),
        }
    }

    open spec fn kept(&self) -> Seq<u8> {
        match self {
            MethodEncoder::Store(e) => e.kept(),
            MethodEncoder::Deflate(e) => e.kept(),
            MethodEncoder::Bzip2(e) => e.kept(),
        }
    }

    open spec fn given(&self) -> Seq<u8> {
        match self {
            MethodEncoder::Store(e) => e.given(),
            MethodEncoder::Deflate(e) => e.given(),
            MethodEncoder::Bzip2(e) => e.given(),
        }
    }

    open spec fn says(&self, stored: Seq<u8>, data: Seq<u8>) -> bool {
        match self {
            MethodEncoder::Store(e) => e.says(stored, data),
            MethodEncoder::Deflate(e) => e.says(stored, data),
            MethodEncoder::Bzip2(e) => e.says(stored, data),
        }
    }

    fn push(&mut self, data: &[u8]) {
        match self {
            MethodEncoder::Store(e) => {
                Encoder::push(e, data);
            },
            MethodEncoder::Deflate(e) => {
                Encoder::push(e, data);
            },
            MethodEncoder::Bzip2(e) => {
                Encoder::push(e, data);
            },
        }
    }

    fn finish(self) -> (r: (Vec<u8>, u64)) {
        match self {
            MethodEncoder::Store(e) => Encoder::finish(e),
            MethodEncoder::Deflate(e) => Encoder::finish(e),
            MethodEncoder::Bzip2(e) => Encoder::finish(e),
        }
    }
}

/// An encoder for a method that adds to the end of `output`. The methods that
/// cannot be written have none.
pub fn encoder(method: Method, output: Vec<u8>, level: Level) -> (r: Result<MethodEncoder>)
    ensures
        match method {
            Method::Store | Method::Deflate | Method::Bzip2 => r matches Ok(e) && e.ready()
                && e.kept() == output@ && e.given() == Seq::<u8>::empty() && (method is Store
                <==> e is Store) && (method is Deflate <==> e is Deflate) && (method is Bzip2
                <==> e is Bzip2) && (e matches MethodEncoder::Deflate(d) ==> d.level() == level) && (
            e matches MethodEncoder::Bzip2(b) ==> b.made_for() == match level {
                Level::Stored | Level::Fast => 1nat,
                Level::Default | Level::Best => 9,
            }),
            _ => r matches Err(Error::Unsupported(Unsupported::CompressionMethod(c))) && c
                == method_code(method),
        },
{
    match method {
        Method::Store => Ok(MethodEncoder::Store(StoreEncoder::new(output))),
        Method::Deflate => Ok(MethodEncoder::Deflate(DeflateEncoder::new(output, level))),
        Method::Bzip2 => Ok(
            MethodEncoder::Bzip2(Bzip2Encoder::new(output, level.bzip2_block_size())),
        ),
        other => Err(Error::Unsupported(Unsupported::CompressionMethod(other.code()))),
    }
}

/// A decoder for one of the methods.
pub enum Decoder {
    /// Data that is there at once: kept as it was, or decoded whole.
    Ready(Vec<u8>),
    /// Deflate or Deflate64.
    Inflate(InflateReader),
    /// bzip2.
    Bzip2(Bzip2Reader),
    /// LZMA.
    Lzma(LzmaDecoder),
    /// Zstandard.
    Zstd(zstd::Reader),
    /// xz.
    Xz(xz::Reader),
    /// PPMd.
    Ppmd(ppmd::Reader),
}

/// Whether `d` stands at the start of `input`, which a method stored.
pub open spec fn decodes(
    d: Decoder,
    method: Method,
    input: Seq<u8>,
    size: u64,
    flags: u16,
) -> bool {
    match (method, d) {
        (Method::Store, Decoder::Ready(v)) => v@ == input,
        (Method::Shrink | Method::Reduce(_) | Method::Implode, Decoder::Ready(v)) => {
            legacy::decoded(method, input, flags) == Some(v@)
        },
        (Method::Deflate, Decoder::Inflate(r)) => r.wf() && r.input() == input && r.format()
            == Variant::Deflate && r.delivered() == Seq::<u8>::empty(),
        (Method::Deflate64, Decoder::Inflate(r)) => r.wf() && r.input() == input && r.format()
            == Variant::Deflate64 && r.delivered() == Seq::<u8>::empty(),
        (Method::Bzip2, Decoder::Bzip2(r)) => r.wf() && r.input() == input && r.delivered()
            == Seq::<u8>::empty(),
        (Method::Lzma, Decoder::Lzma(r)) => r.wf() && r.input() == input.skip(9) && r.wanted()
            == Some(size) && Some(r.properties()) == lzma::syntax::props_from(
            input[4] as int,
            bytes::le(input, 5, 4) as int,
        ) && r.delivered() == Seq::<u8>::empty(),
        (Method::Zstd, Decoder::Zstd(r)) => r.wf() && r.input() == input && r.delivered()
            == Seq::<u8>::empty(),
        (Method::Xz, Decoder::Xz(r)) => r.wf() && r.input() == input && r.delivered()
            == Seq::<u8>::empty(),
        (Method::Ppmd, Decoder::Ppmd(r)) => r.wf() && r.input() == input && r.length() == size
            && r.delivered() == Seq::<u8>::empty(),
        _ => false,
    }
}

/// A decoder at the start of `input`, which a method stored. The obsolete
/// methods are decoded at once; LZMA has its header read.
pub fn decoder(method: Method, input: Vec<u8>, uncompressed_size: u64, flags: u16) -> (r: Result<
    Decoder,
>)
    ensures
        match r {
            Ok(d) => decodes(d, method, input@, uncompressed_size, flags),
            Err(e) => e == Error::Malformed,
        },
        r is Ok <==> match method {
            Method::Shrink | Method::Reduce(_) | Method::Implode => legacy::decoded(
                method,
                input@,
                flags,
            ) is Some,
            Method::Lzma => input@.len() >= 14 && bytes::le(input@, 2, 2) == 5
                && lzma::syntax::props_from(
                input@[4] as int,
                bytes::le(input@, 5, 4) as int,
            ) is Some,
            _ => true,
        },
{
    match method {
        Method::Shrink | Method::Reduce(_) | Method::Implode => {
            match legacy::decompress(method, input.as_slice(), flags, 0) {
                Ok(out) => Ok(Decoder::Ready(out)),
                Err(e) => Err(e),
            }
        },
        Method::Store => Ok(Decoder::Ready(input)),
        Method::Deflate => Ok(Decoder::Inflate(InflateReader::new(input))),
        Method::Deflate64 => Ok(Decoder::Inflate(InflateReader::deflate64(input))),
        Method::Bzip2 => Ok(Decoder::Bzip2(Bzip2Reader::new(input))),
        Method::Lzma => match lzma::reader(input.as_slice(), Some(uncompressed_size)) {
            Ok(d) => Ok(Decoder::Lzma(d)),
            Err(e) => Err(e),
        },
        Method::Zstd => Ok(Decoder::Zstd(zstd::Reader::new(input, uncompressed_size))),
        Method::Xz => Ok(Decoder::Xz(xz::Reader::new(input, uncompressed_size))),
        Method::Ppmd => Ok(Decoder::Ppmd(ppmd::Reader::new(input, uncompressed_size))),
    }
}

} // verus!
