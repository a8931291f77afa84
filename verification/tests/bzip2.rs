//! bzip2 streams.
use ttarchive::codecs::bzip2::bwt::burrows_wheeler;
use ttarchive::codecs::bzip2::decode::{decompress, Bzip2Reader};
use ttarchive::codecs::bzip2::encode::{compress, Bzip2Encoder};
use ttarchive::Error;

const WORDS: [&str; 12] = [
    "the ",
    "quick ",
    "brown ",
    "fox ",
    "jumps ",
    "over ",
    "lazy ",
    "dog ",
    "archive ",
    "stream ",
    "\n",
    "0123456789",
];

fn text(n: usize) -> Vec<u8> {
    let mut x: u32 = 12345;
    let mut out: Vec<u8> = Vec::new();
    while out.len() < n {
        x = x.wrapping_mul(1103515245).wrapping_add(12345);
        out.extend_from_slice(WORDS[((x >> 16) % 12) as usize].as_bytes());
    }
    out.truncate(n);
    out
}

fn noise(n: usize) -> Vec<u8> {
    let mut x: u32 = 1;
    let mut out: Vec<u8> = Vec::new();
    while out.len() < n {
        x = x.wrapping_mul(1103515245).wrapping_add(12345);
        out.push((x >> 16) as u8);
    }
    out
}

fn bytes(hex: &str) -> Vec<u8> {
    let digits: Vec<u32> = hex.chars().filter_map(|c| c.to_digit(16)).collect();
    digits.chunks(2).map(|pair| (pair[0] * 16 + pair[1]) as u8).collect()
}
const TEXT: &str = "\
    425a6839314159265359da0dfa360000fed980001040007fe03ffffff04001b073a03184c4d0608c43230984\
    53f264d2aa61180013001a7aaa300000000014a526291a7ea46d4c403d461a987005714050155d1d5e15ea6f\
    eabc57d8cc3e93dcb97924a535c4d91341542c026e35c6d8d99320e1c25e1d6a0ac9282d762dea540c1b99a3\
    355d440c8e8e84a9341194587b94e44373559bd2752da4701d1778b1222dbb984b0ef363855b210008e1ded4\
    ab491e202775ff2b9070071d80838b893ba4f9c9f493be4e727d64f093c64e7176dc647193327efa134d71ae\
    54cf04b6472d70064e0bf0cddea81020100308004090801031998c6f162396d9331b60ccff54f51744bda8f8\
    a5b437c9aa3269d9a33266333a45bd4eb2bcea6bb64dcc334d3895e927eaa72adb6d33073476a5dd17a4af6a\
    9b26f94ccecc1a64cc8f58bad1d6a7925e243fe4e09ee2ee48a70a121b41bf46c0";
const RUNS: &str = "\
    425a683131415926535964b712300000937fffffffffffffffffffffffffffffffffffffffffffffffffffff\
    ffffffffffffffb0016000efff555500980260026013000002600008c0000d000008c1304c00000d13000000\
    00981300000001a680009808930004c0004c0000000000000000000000000000000000000000000000000000\
    000049800260002600000000000000000000000000000000000000000000000000000000427de04350e43d10\
    445127e089a288aa2c8ba308ca348dbf14711d4791f481214892349125499f924e94252952569625a973f34b\
    d304c5324cd344d5364dd384e53a4ed3c4f53e4fd405054250d447e8a2a8ca3a90a4a94a5a98a6a9ca7aa0a8\
    aa4a9aa8aabf57ecab2aeac2b2ad2b6ae2baaf2beb02c2b12c6b22cafa2cb050204082430b42d2b52d6b62da\
    b72deb82e2b92e6ba2eabb2eebc2f2bd3f77f0bdaf8beafcbfbf96018160983611fd30ac330ec4312c5316c6\
    31ac731ec8322c9326ca32acb32ecc332cd20d9b671fdb3acf33ed0342d1346d234ad334ed4352d5356d635a\
    d735ed8362d9366da36adb36edc372dd376de3fc6f5be6fdc0705c27fae1b88e2b8ce3b90e4b94e5b98e6b9c\
    e7ba0e8ba4e9ba8eabacebbb0ecbb4edbb8eebbcefbc0f0a11e2612150af1bc8f2bccf3bd0f4bd4f5bd8f6bd\
    cf7be0ff9f17c9f3475f441beafb3eeffc5dc914e1424192dc48c0";
const EMPTY: &str = "\
    425a683917724538509000000000";

#[test]
fn bzip2_reads_text() {
    assert_eq!(decompress(&bytes(TEXT), 0), Ok(text(1500)));
}

#[test]
fn reads_runs() {
    let mut expected = vec![b'a'; 1000];
    for _ in 0..3 {
        expected.extend(0..=255u8);
    }
    assert_eq!(decompress(&bytes(RUNS), 0), Ok(expected));
}

#[test]
fn reads_an_empty_stream() {
    assert_eq!(decompress(&bytes(EMPTY), 0), Ok(Vec::new()));
}

#[test]
fn writes_an_empty_stream() {
    assert_eq!(compress(b"", 9), bytes(EMPTY));
}

#[test]
fn streams_follow_one_another() {
    let mut raw = bytes(TEXT);
    raw.extend(bytes(TEXT));
    assert_eq!(decompress(&raw, 0).map(|d| d.len()), Ok(3000));
}

#[test]
fn bzip2_what_is_compressed_reads_back() {
    for data in [b"x".to_vec(), text(5000), noise(600), vec![7u8; 3000], b"abab".repeat(300)] {
        for level in [1u8, 9] {
            assert_eq!(decompress(&compress(&data, level), 0), Ok(data.clone()));
        }
    }
}

#[test]
fn bzip2_written_in_pieces_reads_back() {
    let data = text(4000);
    let mut e = Bzip2Encoder::new(vec![1], 1);
    for piece in data.chunks(333) {
        e.push(piece);
    }
    let out = e.finish();
    assert_eq!(out[0], 1);
    assert_eq!(decompress(&out[1..], 0), Ok(data));
}

#[test]
fn the_transform_of_a_word() {
    assert_eq!(burrows_wheeler(b"banana"), (b"nnbaaa".to_vec(), 3));
}

#[test]
fn bzip2_read_in_pieces() {
    let mut r = Bzip2Reader::new(bytes(TEXT));
    let mut out = Vec::new();
    let mut buf = [0u8; 41];
    loop {
        let n = r.read(&mut buf).unwrap();
        if n == 0 {
            break;
        }
        out.extend_from_slice(&buf[..n]);
    }
    assert_eq!(out, text(1500));
}

#[test]
fn bzip2_a_wrong_checksum_is_refused() {
    let mut raw = bytes(TEXT);
    raw[10] ^= 1;
    assert_eq!(decompress(&raw, 0), Err(Error::Malformed));
}

#[test]
fn bzip2_other_data_is_malformed() {
    assert_eq!(decompress(b"BZx9", 0), Err(Error::Malformed));
    let raw = bytes(TEXT);
    assert_eq!(decompress(&raw[..raw.len() / 2], 0), Err(Error::Malformed));
}

#[test]
fn the_fourth_byte_is_the_level() {
    for (level, byte) in [(0u8, b'1'), (1, b'1'), (5, b'5'), (9, b'9'), (200, b'9')] {
        assert_eq!(&compress(b"data", level)[..4], &[b'B', b'Z', b'h', byte]);
    }
}

#[test]
fn three_streams_decode_to_all_they_hold() {
    let mut raw = compress(b"one ", 1);
    raw.extend(compress(b"", 3));
    raw.extend(compress(b"two", 9));
    assert_eq!(decompress(&raw, 0), Ok(b"one two".to_vec()));
}

#[test]
fn what_streams_hold_before_a_fault_comes_out() {
    let mut raw = compress(b"sound", 1);
    let mut bad = compress(b"broken", 1);
    bad[10] ^= 1;
    raw.extend(bad);
    let mut r = Bzip2Reader::new(raw);
    let mut buf = [0u8; 64];
    assert_eq!(r.read(&mut buf), Ok(5));
    assert_eq!(&buf[..5], b"sound");
    assert_eq!(r.read(&mut buf), Err(Error::Malformed));
}

#[test]
fn a_byte_is_one_block_of_two_symbols() {
    assert_eq!(
        compress(b"a", 1),
        bytes("425a683131415926535919939b6b00000001002000200021184682ee48a70a120332736d60")
    );
}

/// How many blocks a stream is made of.
fn blocks(stream: &[u8]) -> usize {
    let mut seen: u64 = 0;
    let mut n: usize = 0;
    for byte in stream {
        for i in 0..8 {
            seen = (seen << 1 | (byte >> (7 - i) & 1) as u64) & 0xffff_ffff_ffff;
            if seen == 0x3141_5926_5359 {
                n += 1;
            }
        }
    }
    n
}

#[test]
fn a_full_block_takes_no_run_more() {
    let mut data: Vec<u8> = Vec::new();
    for i in 0..99_978usize {
        data.push((i % 251) as u8);
    }
    assert_eq!(blocks(&compress(&data[..99_977], 1)), 1);
    assert_eq!(blocks(&compress(&data, 1)), 2);
    assert_eq!(blocks(&compress(&data, 2)), 1);
}

#[test]
fn a_long_run_takes_five_bytes_for_each_259() {
    let data: Vec<u8> = vec![b'r'; 99_977 / 5 * 259];
    let packed: Vec<u8> = compress(&data, 1);
    assert_eq!(blocks(&packed), 1);
    assert!(packed.len() < 100);
    assert_eq!(decompress(&packed, 0), Ok(data));
}

#[test]
fn text_shrinks_to_a_third() {
    let data: Vec<u8> = text(50_000);
    assert!(compress(&data, 9).len() < data.len() / 3);
}

#[test]
fn however_bzip2_is_pushed_it_is_the_same() {
    let mut data: Vec<u8> = text(3_000);
    data.extend_from_slice(&[7; 1_000]);
    let whole: Vec<u8> = compress(&data, 1);
    for size in [1, 13, 259, 260] {
        let mut encoder: Bzip2Encoder = Bzip2Encoder::new(Vec::new(), 1);
        for piece in data.chunks(size) {
            encoder.push(piece);
        }
        assert_eq!(encoder.finish(), whole);
    }
}
