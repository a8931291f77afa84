//! Checksums and digests against published values.
use ttarchive::codecs::bzip2::crc::{combine, Crc};
use ttarchive::crypto::hmac::{constant_time_eq, hmac_sha1, pbkdf2_sha1, HmacSha1};
use ttarchive::crypto::sha1;
use ttarchive::crypto::sha1::Sha1;
use ttarchive::crypto::sha256;
use ttarchive::crypto::sha256::Sha256;
use ttarchive::utils::bytes::{get_le16, get_le32, put_le};
use ttarchive::utils::crc32;
use ttarchive::utils::crc32::Crc32;
use ttarchive::utils::crc64;
use ttarchive::utils::crc64::Crc64;
use ttarchive::utils::xxhash::XxHash64;

const WORDS: [&str; 12] = [
    "the ",
    "quick ",
    "brown ",
    "fox ",
    "jumps ",
    "over ",
    "lazy ",
    "dog ",
    "archive ",
    "stream ",
    "\n",
    "0123456789",
];

fn text(n: usize) -> Vec<u8> {
    let mut x: u32 = 12345;
    let mut out: Vec<u8> = Vec::new();
    while out.len() < n {
        x = x.wrapping_mul(1103515245).wrapping_add(12345);
        out.extend_from_slice(WORDS[((x >> 16) % 12) as usize].as_bytes());
    }
    out.truncate(n);
    out
}

fn bytes(hex: &str) -> Vec<u8> {
    let digits: Vec<u32> = hex.chars().filter_map(|c| c.to_digit(16)).collect();
    digits.chunks(2).map(|pair| (pair[0] * 16 + pair[1]) as u8).collect()
}

#[test]
fn crc32_of_the_digits() {
    assert_eq!(crc32::checksum(b"123456789"), 0xcbf4_3926);
    assert_eq!(crc32::checksum(b""), 0);
}

#[test]
fn crc32_in_pieces_is_crc32_of_the_whole() {
    let data = text(1000);
    for cut in [0usize, 1, 7, 500, 1000] {
        let mut sum = Crc32::new();
        sum.update(&data[..cut]);
        sum.update(&data[cut..]);
        assert_eq!(sum.finish(), 3180952339);
    }
}

#[test]
fn crc64_of_the_digits() {
    assert_eq!(crc64::checksum(b"123456789"), 0x995d_c9bb_df19_39fa);
    let mut sum = Crc64::new();
    sum.update(b"1234");
    sum.update(b"56789");
    assert_eq!(sum.finish(), 0x995d_c9bb_df19_39fa);
}

#[test]
fn bzip2_crc_of_the_digits() {
    let mut sum = Crc::new();
    sum.update(b"123456789");
    assert_eq!(sum.finish(), 0xfc89_1918);
    let mut run = Crc::new();
    run.update_run(b'a', 5);
    let mut same = Crc::new();
    same.update(b"aaaaa");
    assert_eq!(run.finish(), same.finish());
    assert_eq!(combine(0x8000_0001, 0), 3);
}

#[test]
fn xxhash_published_values() {
    assert_eq!(XxHash64::hash(b""), 0xef46_db37_51d8_e999);
    assert_eq!(XxHash64::hash(b"abc"), 0x44bc_2cf5_ad77_0999);
    let data = text(1000);
    let whole = XxHash64::hash(&data);
    for cut in [1usize, 31, 32, 33, 999] {
        let mut sum = XxHash64::new(0);
        sum.update(&data[..cut]);
        sum.update(&data[cut..]);
        assert_eq!(sum.finish(), whole);
    }
}

#[test]
fn sha1_published_values() {
    assert_eq!(sha1::digest(b"abc").to_vec(), bytes("a9993e364706816aba3e25717850c26c9cd0d89d"));
    assert_eq!(sha1::digest(b"").to_vec(), bytes("da39a3ee5e6b4b0d3255bfef95601890afd80709"));
    assert_eq!(sha1::digest(&text(1000)).to_vec(), bytes("6f09cb690bdd1ce7b2e32615e8df0c9a4cb3e7e2"));
}

#[test]
fn sha1_in_pieces() {
    let data = text(300);
    for cut in [0usize, 55, 56, 63, 64, 65, 300] {
        let mut d = Sha1::new();
        d.update(&data[..cut]);
        d.update(&data[cut..]);
        assert_eq!(d.finish(), sha1::digest(&data));
    }
}

#[test]
fn sha256_published_values() {
    assert_eq!(sha256::digest(b"abc").to_vec(), bytes("ba7816bf8f01cfea414140de5dae2223b00361a396177a9cb410ff61f20015ad"));
    assert_eq!(sha256::digest(b"").to_vec(), bytes("e3b0c44298fc1c149afbf4c8996fb92427ae41e4649b934ca495991b7852b855"));
    let mut d = Sha256::new();
    d.update(&text(1000)[..77]);
    d.update(&text(1000)[77..]);
    assert_eq!(d.finish().to_vec(), bytes("32af93130e20f4f1f1ea96b8f4f28b1c6488870099558414a0925150a4c50b51"));
}

#[test]
fn hmac_sha1_published_values() {
    assert_eq!(
        hmac_sha1(b"Jefe", b"what do ya want for nothing?").to_vec(),
        bytes("effcdf6ae5eb2fa2d27416d5f184df9c259a7c79"),
    );
    let long_key = text(100);
    let mut h = HmacSha1::new(&long_key);
    h.update(b"mess");
    h.update(b"age");
    assert_eq!(h.finish().to_vec(), bytes("1df2f210f816850aa0bff4af4df6efc15b4b12a8"));
}

#[test]
fn pbkdf2_published_values() {
    let mut out = vec![0u8; 20];
    pbkdf2_sha1(b"password", b"salt", 1, &mut out);
    assert_eq!(out, bytes("0c60c80f961f0e71f3a9b524af6012062fe037a6"));
    let mut long = vec![0u8; 66];
    pbkdf2_sha1(b"password", b"saltsalt", 1000, &mut long);
    assert_eq!(long, bytes("e9febff54bfce668fde301acc85563cc9dc71ef6f8d7aaef067365be0e5e6522ef61bae1b00bc13bcd05473ccc0d45fb040baddfe91aa6d6ef17ac2ee74477afc509"));
}

#[test]
fn numbers_are_written_low_byte_first() {
    let mut out = vec![7u8];
    put_le(&mut out, 0x0102_0304, 4);
    assert_eq!(out, vec![7, 4, 3, 2, 1]);
    assert_eq!(get_le32(&out, 1), 0x0102_0304);
    assert_eq!(get_le16(&out, 1), 0x0304);
}

#[test]
fn constant_time_comparison() {
    assert!(constant_time_eq(b"same", b"same"));
    assert!(!constant_time_eq(b"same", b"sane"));
    assert!(!constant_time_eq(b"same", b"sam"));
    assert!(constant_time_eq(b"", b""));
}
