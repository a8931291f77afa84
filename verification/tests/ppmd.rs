//! PPMd, both variants.
use ttarchive::codecs::ppmd;
use ttarchive::codecs::ppmd::h;
use ttarchive::{Error, Result};

const WORDS: [&str; 12] = [
    "the ",
    "quick ",
    "brown ",
    "fox ",
    "jumps ",
    "over ",
    "lazy ",
    "dog ",
    "archive ",
    "stream ",
    "\n",
    "0123456789",
];

fn text(n: usize) -> Vec<u8> {
    let mut x: u32 = 12345;
    let mut out: Vec<u8> = Vec::new();
    while out.len() < n {
        x = x.wrapping_mul(1103515245).wrapping_add(12345);
        out.extend_from_slice(WORDS[((x >> 16) % 12) as usize].as_bytes());
    }
    out.truncate(n);
    out
}

fn bytes(hex: &str) -> Vec<u8> {
    let digits: Vec<u32> = hex.chars().filter_map(|c| c.to_digit(16)).collect();
    digits.chunks(2).map(|pair| (pair[0] * 16 + pair[1]) as u8).collect()
}
const H: &str = "\
    0061130c3e4a1cd5899c0adfb1d36017793a9113833a37376e23e84b457e1dc891b0bdff316c75a2acc71702\
    6faea64b11ea884ef9b1c69f5098ba65c2ef6a0e495e72882461978f18db7c681fdb1ca8dcfbcab7c06c4966\
    dde737bda2a2e914e136b1a86f7255fea721ab10b1dc47b7246c8cb180411cde5a14e40d6ae9f924c82faacd\
    e1b1207078a3b727b6638931a031870abcacef900b69814dc18dd1e2632b021d8266172a6af6102784424b4d\
    11b43a73e146516df8f4895ac467fc8603deab0abd13e96268ab4fb8bb464c535831556e4aff52ee3b160068\
    696286a3a0ee4766f6fa75cd00";
const I_0: &str = "\
    050000c67e816b4bfbe2fb54f6bddf7c1ce18701bf31de56720f4767668759aa883c59ea56137bd285a1d83c\
    54552f37ae655bda027998cce31a768e5fd9998f1f3f36ee43784d0dfabea6dae4868edc296d4eff56e17020\
    fb8fb1580590c509dc53cdaa3b489952d3529d069feab5c206139849b2011eac3288319c52469571368f57f6\
    391d16fa8874f5987c175c41bb6d718e0f7059c7011b2f333d91c01da50d0dab338d7e5e8f3ee66874a63ab1\
    c39311a864c7dbcae060e1f3bf090067a2e325a0213187d562c5a84f7e2e096b949fb06da99e5a0b467080b6\
    cf470ca6a52ad8acfba0ebb779247223924880c5a6a785b7d78c90e4ab63445266e39c3325f95eaaba73605d\
    4b717ebea98c571971c3ca5e";
const I_0_PLAIN: &str = "\
    00c726cc7cea5e242a5b54cc7cea5b775cea5b900e4dc721bf8f7cea5b775ceac4ab56079be000995ebe48cb\
    245d131a24da48240dcb240739a10e240dabcb240739fb0097af27efa15e1e5dcb247cea5b775c13c71ab848\
    24da261232970d1cc72691279e9e2924da1e5dcb247cea5b775c13be7f63a26813bea09e6bbf06ea5b775c39\
    5dc45b2a2ee20e21bf68235bea5b775c39775c7cea5bfb2c0e3a949154fb2c073991eac4320ebf8f3a240dab\
    cb240739fb002a395dbf2421bf2421bf2421bf2421bf2421bf2421247cea5b48c4322607a9c4ab56079be000\
    995ebe48cb245d131a4821bf0e2421bf2421bf2421bf2421bf2421247cea5b480d0748e16bf6857c00bfbf2a\
    395dbf2421bf2421bf2421bf2421bf2421bf2421bf2421bf2421bf2421247cea5b480d3e6b48c45bfb2c0e3a\
    99ea5b48a1bb2423daf22c260e21da7cea5b900e4dc721bf240dabcb240739fb2c2c36dbb800a11a5600d708\
    a991b89e71cb240dabcb240739fb2c2c36dbb84824da261232970d1cdabe5ca11c240dabcb240739fb00a229\
    5497362c2c5b549736bf240dabcb240739fb00262aea5b900e4dc721bf24bf549736bf240dabcb240739fb00\
    262aea5b900e4dc721bf8f7c9e8bbe7f7e240d24da2a6b99f254fb00262a23686868cc7c91a98bbea0a7eac4\
    f96b97beaf279454c7bf2421bf2421bf2421bf2421cb24da2a236868cc";
const I_1: &str = "\
    131000fb54f6bddf7c1ce18701bf31de56720f4767668759aa883c59ea56137bd285a1d83c54552f37ae655b\
    da027998cce31a768e5fd9998f1f3f36ee43784d0dfabea6dae4868edc296d4eff56e1";
const I_1_PLAIN: &str = "\
    00fd3c07ccb4b2649a4bd54b5776414b57f675bde50058b43c96b204ec104b57f63c53786430ca04ec1057f6\
    75a79acc635c4b04ec1057f6753ccc41cc9b90ffb163c0de603c671b54033e63e257f675bde28c9b4b679a15";
const I_2: &str = "\
    0510004101030000014101";
const I_2_PLAIN: &str = "\
    003e8516dbb2";

fn drain(r: &mut h::Reader) -> Result<Vec<u8>> {
    let mut out = Vec::new();
    let mut buf = [0u8; 64];
    loop {
        let n = r.read(&mut buf)?;
        if n == 0 {
            return Ok(out);
        }
        out.extend_from_slice(&buf[..n]);
    }
}

#[test]
fn reads_variant_h() {
    let mut r = h::Reader::new(bytes(H), 1500, 6, 1 << 24).unwrap();
    assert_eq!(drain(&mut r), Ok(text(1500)));
}

#[test]
fn variant_h_takes_its_parameters_from_properties() {
    let mut r = h::from_properties(bytes(H), &[6, 0, 0, 0, 1], 1500).unwrap();
    assert_eq!(drain(&mut r), Ok(text(1500)));
    assert!(h::from_properties(bytes(H), &[6, 0, 0, 0], 1500).is_err());
    assert!(h::from_properties(bytes(H), &[1, 0, 0, 0, 1], 1500).is_err());
}

#[test]
fn reads_variant_i() {
    for (raw, plain) in [(I_0, I_0_PLAIN), (I_1, I_1_PLAIN), (I_2, I_2_PLAIN)] {
        let expected = bytes(plain);
        assert_eq!(ppmd::decompress(&bytes(raw), expected.len() as u64), Ok(expected));
    }
}

#[test]
fn variant_i_reads_in_pieces() {
    let expected = bytes(I_0_PLAIN);
    let mut r = ppmd::Reader::new(bytes(I_0), expected.len() as u64);
    let mut out = Vec::new();
    let mut buf = [0u8; 17];
    loop {
        let n = r.read(&mut buf).unwrap();
        if n == 0 {
            break;
        }
        out.extend_from_slice(&buf[..n]);
    }
    assert_eq!(out, expected);
}

#[test]
fn variant_i_needs_its_parameters() {
    assert_eq!(ppmd::decompress(&[5], 10), Err(Error::Malformed));
    assert_eq!(ppmd::decompress(&[0, 0, 0, 0, 0, 0, 0], 10), Err(Error::Malformed));
    assert!(matches!(ppmd::decompress(&[5, 0x30, 0, 0, 0, 0, 0], 10), Err(Error::Unsupported(_))));
}
