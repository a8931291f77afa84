//! Deflate and Deflate64.
use ttarchive::codecs::deflate::compress::{compress, compress_chunk, DeflateEncoder};
use ttarchive::codecs::deflate::header::CodeLengthStream;
use ttarchive::codecs::deflate::huffman::Decoder;
use ttarchive::codecs::deflate::inflate::{decompress, decompress_variant, InflateReader, Variant};
use ttarchive::codecs::deflate::lz77::{MatchFinder, Token};
use ttarchive::codecs::lengths::assign_lengths;
use ttarchive::{Error, Level};

const WORDS: [&str; 12] = [
    "the ",
    "quick ",
    "brown ",
    "fox ",
    "jumps ",
    "over ",
    "lazy ",
    "dog ",
    "archive ",
    "stream ",
    "\n",
    "0123456789",
];

fn text(n: usize) -> Vec<u8> {
    let mut x: u32 = 12345;
    let mut out: Vec<u8> = Vec::new();
    while out.len() < n {
        x = x.wrapping_mul(1103515245).wrapping_add(12345);
        out.extend_from_slice(WORDS[((x >> 16) % 12) as usize].as_bytes());
    }
    out.truncate(n);
    out
}

fn noise(n: usize) -> Vec<u8> {
    let mut x: u32 = 1;
    let mut out: Vec<u8> = Vec::new();
    while out.len() < n {
        x = x.wrapping_mul(1103515245).wrapping_add(12345);
        out.push((x >> 16) as u8);
    }
    out
}

fn bytes(hex: &str) -> Vec<u8> {
    let digits: Vec<u32> = hex.chars().filter_map(|c| c.to_digit(16)).collect();
    digits.chunks(2).map(|pair| (pair[0] * 16 + pair[1]) as u8).collect()
}
const DYNAMIC: &str = "\
    6d545976c33008fce7143a42f7e5386ae236699bba75962ea7ef83913c80f3215b02010383a8d36ab33d0de5\
    b019cafe300d7557deebdf6f791e7fcad771bb7aeb5291f1344ce5f5b8fbdc9bf6691abf3f6ca70bf276371c\
    6a8b408f179757d737b777f70f8f5d07b962d005730b27bc6bb0549d44f6a14cc3c87a7c99e39a1f384b1904\
    984ed724f1a72e452c183377556b3f64a2977b3602115c7750290778b4ad9aea82c85055c751e4c4d43e5958\
    798937266db054592893002582385010ab5b02875a5d60e700db2752a2b6704bd260d101882cfb027153d18d\
    5dc9f9b592f434891886387ba431462f3b4e39cb1c0cd2169297b99bcb9bfdb15e8964d74a81e3d4debe1bcd\
    8e9cdacdf4e8127b0bd609024143685f39dfc4cea9b8b2b33d1553f011ebe6d4ba8d43c0394fe514f2cadef3\
    ed2d109fe3637e5afde550151f9c9f56bae6a9a3071a39acecec054b715ab13ed2639a03499324162bbccf9c\
    e0b9d1c226fa07";
const FIXED: &str = "\
    cb48cdc9c957c8409000";
const STORED: &str = "\
    010600f9ff73746f726564";
const DEFLATE64: &str = "\
    4b4c1a2d1f8000";

const LEVELS: [Level; 4] = [Level::Stored, Level::Fast, Level::Default, Level::Best];

#[test]
fn reads_a_dynamic_block() {
    assert_eq!(decompress(&bytes(DYNAMIC), 0), Ok(text(1500)));
}

#[test]
fn reads_a_fixed_block() {
    assert_eq!(decompress(&bytes(FIXED), 0), Ok(b"hello hello hello".to_vec()));
}

#[test]
fn reads_a_stored_block() {
    assert_eq!(decompress(&bytes(STORED), 0), Ok(b"stored".to_vec()));
}

#[test]
fn deflate64_has_longer_matches() {
    let expected: Vec<u8> = b"ab".repeat(501);
    assert_eq!(decompress_variant(&bytes(DEFLATE64), 0, Variant::Deflate64), Ok(expected));
    assert_ne!(decompress(&bytes(DEFLATE64), 0), Ok(b"ab".repeat(501)));
}

#[test]
fn what_is_compressed_reads_back_at_every_level() {
    for data in [Vec::new(), b"x".to_vec(), text(3000), noise(700), vec![0u8; 70_000], text(70_000)] {
        for level in LEVELS {
            assert_eq!(decompress(&compress(&data, level), data.len()), Ok(data.clone()));
        }
    }
}

#[test]
fn chunks_join_into_one_stream() {
    let mut all = compress_chunk(&text(500), Level::Default, false);
    all.extend(compress_chunk(&noise(300), Level::Fast, true));
    let mut expected = text(500);
    expected.extend(noise(300));
    assert_eq!(decompress(&all, 0), Ok(expected));
}

#[test]
fn deflate_text_gets_smaller() {
    assert!(compress(&text(3000), Level::Default).len() < 1500);
    assert!(compress(&text(3000), Level::Stored).len() > 3000);
}

#[test]
fn deflate_written_in_pieces_reads_back() {
    let data = text(40_000);
    let mut e = DeflateEncoder::new(vec![9, 9], Level::Default);
    for piece in data.chunks(7001) {
        assert_eq!(e.write(piece), piece.len());
    }
    let (out, total) = e.finish();
    assert_eq!(out[..2], [9, 9]);
    assert_eq!(total, out.len() as u64 - 2);
    assert_eq!(decompress(&out[2..], 0), Ok(data));
}

#[test]
fn read_in_pieces_and_the_rest_is_kept() {
    let mut input = bytes(DYNAMIC);
    let used = input.len();
    input.extend_from_slice(b"tail");
    let mut r = InflateReader::new(input);
    let mut out = Vec::new();
    let mut buf = [0u8; 37];
    loop {
        let n = r.read(&mut buf).unwrap();
        if n == 0 {
            break;
        }
        out.extend_from_slice(&buf[..n]);
    }
    assert_eq!(out, text(1500));
    assert!(r.is_finished());
    assert_eq!(r.consumed(), used);
}

#[test]
fn cut_off_data_is_malformed() {
    let whole = bytes(DYNAMIC);
    for n in [0usize, 1, 20, 100, whole.len() - 1] {
        assert_eq!(decompress(&whole[..n], 0), Err(Error::Malformed));
    }
}

#[test]
fn an_unused_block_kind_is_malformed() {
    assert_eq!(decompress(&[0x07], 0), Err(Error::Malformed));
}

#[test]
fn a_stored_length_has_its_complement() {
    assert_eq!(decompress(&[0x01, 0x01, 0x00, 0xfe, 0xff, b'z'], 0), Ok(b"z".to_vec()));
    assert_eq!(decompress(&[0x01, 0x01, 0x00, 0xfe, 0xfe, b'z'], 0), Err(Error::Malformed));
}

#[test]
fn a_code_with_too_many_words_is_malformed() {
    assert!(Decoder::new(&[1, 1, 1]).is_err());
    assert!(Decoder::new(&[1, 1]).is_ok());
    let d = Decoder::new(&[2, 1, 2]).unwrap();
    assert_eq!(d.decode(0b0), Ok((1, 1)));
    assert_eq!(d.decode(0b01), Ok((0, 2)));
    assert_eq!(d.decode(0b11), Ok((2, 2)));
}

#[test]
fn stored_and_empty_pieces_byte_for_byte() {
    assert_eq!(compress_chunk(&[], Level::Default, false), [0, 0, 0, 0xFF, 0xFF]);
    assert_eq!(compress_chunk(&[], Level::Best, true), [3, 0]);
    assert_eq!(compress_chunk(b"abc", Level::Stored, true), [1, 3, 0, 0xFC, 0xFF, 0x61, 0x62, 0x63]);
    assert_eq!(
        compress_chunk(b"abc", Level::Stored, false),
        [0, 3, 0, 0xFC, 0xFF, 0x61, 0x62, 0x63, 0, 0, 0, 0xFF, 0xFF]
    );
    let long = noise(70_000);
    let mut expected = vec![0, 0xFF, 0xFF, 0, 0];
    expected.extend_from_slice(&long[..65_535]);
    expected.extend_from_slice(&[1, 0x71, 0x11, 0x8E, 0xEE]);
    expected.extend_from_slice(&long[65_535..]);
    assert_eq!(compress(&long, Level::Stored), expected);
    assert_eq!(compress(&[], Level::Stored), [3, 0]);
}

#[test]
fn storing_makes_literals() {
    let mut tokens = Vec::new();
    MatchFinder::new(Level::Stored).tokenize(b"aaaa", &mut tokens);
    assert_eq!(tokens.len(), 4);
    assert!(tokens.iter().all(|t| matches!(t, Token::Literal(b'a'))));
}

#[test]
fn code_lengths_are_counted() {
    let mut lengths = vec![8u8; 20];
    lengths.extend_from_slice(&[0; 200]);
    lengths.extend_from_slice(&[3, 0, 0, 3]);
    let stream = CodeLengthStream::build(&lengths);
    let mut counts = [0u32; 19];
    for item in &stream.items {
        counts[item.0 as usize] += 1;
    }
    assert_eq!(stream.freqs, counts);
    assert_eq!(stream.items[0], (8, 0, 0));
    assert_eq!(stream.items[1], (16, 3, 2));
    assert_eq!((counts[16], counts[18], counts[17]), (3, 2, 0));
}

#[test]
fn lengths_follow_the_weights() {
    assert_eq!(assign_lengths(&[1, 1, 2, 4], 15), [3, 3, 2, 1]);
    assert_eq!(assign_lengths(&[1, 1, 2, 4], 2), [2, 2, 2, 2]);
    assert_eq!(assign_lengths(&[0, 7, 0], 15), [1, 1, 0]);
    let mut sparse = vec![0u32; 10];
    sparse[3] = 5;
    sparse[8] = 1;
    assert_eq!(assign_lengths(&sparse, 1), [0, 0, 0, 1, 0, 0, 0, 0, 1, 0]);
}

#[test]
fn codes_of_many_symbols() {
    let mut lengths = vec![0u8; 5000];
    lengths.extend_from_slice(&[1, 1]);
    let short = Decoder::new(&lengths).unwrap();
    assert_eq!(short.decode(0), Ok((5000, 1)));
    assert_eq!(short.decode(1), Ok((5001, 1)));
    let even = Decoder::new(&vec![13u8; 8192]).unwrap();
    let word = (5000u64 << 51).reverse_bits();
    assert_eq!(even.decode(word), Ok((5000, 13)));
    assert!(Decoder::new(&vec![13u8; 8193]).is_err());
    assert!(Decoder::new(&vec![0u8; 65_535]).is_err());
}

#[test]
fn no_code_is_shorter() {
    let freqs = [1u32, 9, 3, 5, 2];
    for max in [3usize, 4] {
        let made = assign_lengths(&freqs, max);
        let bits = |lengths: &[u8]| -> u64 { freqs.iter().zip(lengths).map(|(f, l)| *f as u64 * *l as u64).sum() };
        let mut least = u64::MAX;
        let mut other = [1u8; 5];
        loop {
            let sum: u32 = other.iter().map(|l| 1u32 << (max as u32 - *l as u32)).sum();
            if sum <= 1 << max {
                least = least.min(bits(&other));
            }
            let mut k = 0;
            while k < 5 && other[k] as usize == max {
                other[k] = 1;
                k += 1;
            }
            if k == 5 {
                break;
            }
            other[k] += 1;
        }
        assert_eq!(bits(&made), least);
    }
}

#[test]
fn an_encoder_that_stores() {
    let mut e = DeflateEncoder::new(vec![7], Level::Stored);
    e.write(b"ab");
    e.write(b"c");
    assert_eq!(e.finish_inner(), [7, 1, 3, 0, 0xFC, 0xFF, 0x61, 0x62, 0x63]);
    assert_eq!(DeflateEncoder::new(Vec::new(), Level::Stored).finish_inner(), [3, 0]);
}

#[test]
fn a_short_run_is_a_literal_and_a_match() {
    for level in [Level::Fast, Level::Default, Level::Best] {
        assert_eq!(compress(b"aaaaaaaaaa", level), bytes("4b840300"));
        let mut e = DeflateEncoder::new(Vec::new(), level);
        e.write(b"aaaa");
        e.write(b"aaaaaa");
        let packed = e.finish_inner();
        assert_eq!(decompress(&packed, 0), Ok(b"aaaaaaaaaa".to_vec()));
    }
    assert_eq!(compress(b"aa", Level::Stored), bytes("010200fdff6161"));
}

#[test]
fn a_harder_level_is_no_longer_on_text() {
    let data = text(60_000);
    let sizes: Vec<usize> = LEVELS.iter().map(|l| compress(&data, *l).len()).collect();
    assert!(sizes[0] > data.len());
    assert!(sizes[1] < data.len() / 2);
    assert!(sizes[2] <= sizes[1] && sizes[3] <= sizes[2]);
}

#[test]
fn what_was_inflated_before_a_fault_came_out() {
    let mut raw = compress_chunk(b"sound", Level::Stored, false);
    raw.push(7);
    let mut r = InflateReader::new(raw);
    let mut buf = [0u8; 16];
    assert_eq!(r.read(&mut buf), Ok(5));
    assert_eq!(&buf[..5], b"sound");
    assert_eq!(r.read(&mut buf), Err(Error::Malformed));
}
