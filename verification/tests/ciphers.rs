//! The ciphers against published values, and that each undoes itself.
use ttarchive::crypto::aes::{Aes, AesCtr, CbcDecrypt, KeySize};
use ttarchive::crypto::sbox::{INV_SBOX, SBOX};
use ttarchive::crypto::sevenz_aes;
use ttarchive::crypto::sevenz_aes::{cbc_encrypt, derive_key, CbcDecryptReader};
use ttarchive::crypto::stream::{encrypt_buffer, DecryptReader, EncryptWriter};
use ttarchive::crypto::winzip_aes;
use ttarchive::crypto::winzip_aes::{AesDecryptor, AesEncryptor, AesExtra, Strength};
use ttarchive::crypto::zipcrypto::ZipCrypto;
use ttarchive::{EncryptionMethod, Error, Password, Result};

const WORDS: [&str; 12] = [
    "the ",
    "quick ",
    "brown ",
    "fox ",
    "jumps ",
    "over ",
    "lazy ",
    "dog ",
    "archive ",
    "stream ",
    "\n",
    "0123456789",
];

fn text(n: usize) -> Vec<u8> {
    let mut x: u32 = 12345;
    let mut out: Vec<u8> = Vec::new();
    while out.len() < n {
        x = x.wrapping_mul(1103515245).wrapping_add(12345);
        out.extend_from_slice(WORDS[((x >> 16) % 12) as usize].as_bytes());
    }
    out.truncate(n);
    out
}

fn bytes(hex: &str) -> Vec<u8> {
    let digits: Vec<u32> = hex.chars().filter_map(|c| c.to_digit(16)).collect();
    digits.chunks(2).map(|pair| (pair[0] * 16 + pair[1]) as u8).collect()
}
const WINZIP_256: &str = "\
    000102030405060708090a0b0c0d0e0fa3363bcb5d2827e3d1c5f018c794b7a0276b9008c806c0e7dedc168b\
    4efaf7aa60a89f1760b024b0b8df4af916181ac0bea2b3c12f6b27735b79cf7a4d18";
const WINZIP_128: &str = "\
    0001020304050607d77ee7117f38ea1df939e5ad6a02cd935b75bf31e8add27e3754467f2ca20ff4be0f461f\
    1bd274b912c0888ebf83006f7998fad91d673f3b756b683222c5";
const ZIPCRYPTO: &str = "\
    fa6ed743fd205e35b2f04b06ff7a7393512df4c01eabd7d7117c5cd0db4ba8c3cd9bf9efab990c449a691815\
    4ed09550ab8562aa";
const CBC: &str = "\
    6f33a9fda84fbb07033d41a400b247f0a2fb044c348eb2bd6dbde72828b08101d9e1d6568955062d48fc10e5\
    04a9fffcf0df4bbb2520463e4815fb3b983d67e2";

fn drain(reader: &mut DecryptReader, step: usize) -> Result<Vec<u8>> {
    let mut out = Vec::new();
    let mut buf = vec![0u8; step];
    loop {
        let n = reader.read(&mut buf)?;
        if n == 0 {
            return Ok(out);
        }
        out.extend_from_slice(&buf[..n]);
    }
}

#[test]
fn aes_published_blocks() {
    let plain: [u8; 16] = [
        0x00, 0x11, 0x22, 0x33, 0x44, 0x55, 0x66, 0x77, 0x88, 0x99, 0xaa, 0xbb, 0xcc, 0xdd, 0xee, 0xff,
    ];
    let key: Vec<u8> = (0..32).collect();
    for (len, rounds, expected) in [
        (16usize, 10usize, "69c4e0d86a7b0430d8cdb78070b4c55a"),
        (24, 12, "dda97ca4864cdfe06eaf70a0ec0d7191"),
        (32, 14, "8ea2b7ca516745bfeafc49904b496089"),
    ] {
        let aes = Aes::new(&key[..len]).unwrap();
        assert_eq!(aes.rounds(), rounds);
        let mut block = plain;
        aes.encrypt_block(&mut block);
        assert_eq!(block.to_vec(), bytes(expected));
        aes.decrypt_block(&mut block);
        assert_eq!(block, plain);
    }
    assert!(Aes::new(&key[..17]).is_none());
    assert!(AesCtr::new(&key[..0]).is_none());
    assert!(CbcDecrypt::new(&key[..31], plain).is_none());
}

#[test]
fn the_substitution_has_an_inverse() {
    for b in 0..256usize {
        assert_eq!(INV_SBOX[SBOX[b] as usize] as usize, b);
    }
    assert_eq!((SBOX[0], SBOX[0x53]), (0x63, 0xed));
}

#[test]
fn aes_key_sizes() {
    assert_eq!(KeySize::from_key_len(24).map(|k| (k.key_len(), k.rounds())), Some((24, 12)));
    assert!(KeySize::from_key_len(20).is_none());
}

#[test]
fn aes_round_keys_start_with_the_key() {
    let key: Vec<u8> = (0..16).collect();
    let aes = Aes::new(&key).unwrap();
    assert_eq!(aes.round_key_bytes()[..16].to_vec(), key);
    assert_eq!(aes.round_key_bytes()[16..32].to_vec(), bytes("d6aa74fdd2af72fadaa678f1d6ab76fe"));
}

#[test]
fn aes_counter_mode_counts_from_one() {
    let key: Vec<u8> = (0..32).collect();
    let mut data = text(50);
    let mut ctr = AesCtr::new(&key).unwrap();
    assert!(!ctr.is_hardware_accelerated());
    let (a, b) = data.split_at_mut(13);
    ctr.apply(a);
    ctr.apply(b);
    assert_eq!(data, bytes("a6c77aec0367243ca2c462eb708c73cd2f9998e78aaf3073a51082d61f8fa318ebe3720afdecca5c7ed438de682dd970bf0d"));
    AesCtr::new(&key).unwrap().apply(&mut data);
    assert_eq!(data, text(50));
}

#[test]
fn sevenz_key_derivation() {
    let key = derive_key(&Password::from_text("p\u{e4}ss"), b"salty", 4);
    assert_eq!(key.to_vec(), bytes("6bf2c0439bb2fd6e62ae4c882a23fc3f9a14d8e281998f5f6a91154f5d3543d9"));
}

#[test]
fn sevenz_key_without_hashing_is_the_salted_password() {
    let key = derive_key(&Password::from_text("ab"), b"xy", 0x3f);
    let mut expected = vec![b'x', b'y', b'a', 0, b'b', 0];
    expected.resize(32, 0);
    assert_eq!(key.to_vec(), expected);
}

#[test]
fn sevenz_cbc_pads_with_zeros_and_reads_back() {
    let key = bytes("6bf2c0439bb2fd6e62ae4c882a23fc3f9a14d8e281998f5f6a91154f5d3543d9");
    let mut iv = [0u8; 16];
    iv.copy_from_slice(&bytes("6465666768696a6b6c6d6e6f70717273"));
    let sealed = cbc_encrypt(&text(50), &key, iv).unwrap();
    assert_eq!(sealed, bytes(CBC));
    let mut reader = CbcDecryptReader::new(sealed, &key, iv).unwrap();
    let mut out = Vec::new();
    let mut buf = [0u8; 9];
    loop {
        let n = reader.read(&mut buf).unwrap();
        if n == 0 {
            break;
        }
        out.extend_from_slice(&buf[..n]);
    }
    let mut expected = text(50);
    expected.resize(64, 0);
    assert_eq!(out, expected);
}

#[test]
fn cbc_decrypt_undoes_cbc_encrypt() {
    let key = vec![7u8; 32];
    let mut data = cbc_encrypt(&text(64), &key, [3u8; 16]).unwrap();
    let mut cbc = CbcDecrypt::new(&key, [3u8; 16]).unwrap();
    cbc.apply(&mut data);
    assert_eq!(data, text(64));
}

#[test]
fn sevenz_properties_read_back() {
    let random = [9u8; 16];
    let made = sevenz_aes::Properties::generate(19, &random);
    let read = sevenz_aes::Properties::parse(&made.to_bytes()).unwrap();
    assert_eq!((read.cycles, read.salt, read.iv), (made.cycles, made.salt, made.iv));
    assert!(matches!(sevenz_aes::Properties::parse(&[]), Err(Error::Malformed)));
}

#[test]
fn winzip_strengths() {
    assert_eq!(Strength::from_code(3), Ok(Strength::Aes256));
    assert_eq!(Strength::Aes192.code(), 2);
    assert_eq!((Strength::Aes128.key_len(), Strength::Aes128.salt_len()), (16, 8));
    assert!(Strength::from_code(4).is_err());
    assert_eq!(winzip_aes::overhead(Strength::Aes256), 28);
}

#[test]
fn winzip_extra_field_reads_back() {
    let extra = AesExtra { version: 2, strength: Strength::Aes256, actual_method: 8 };
    let raw = extra.encode();
    assert_eq!(raw, [2, 0, b'A', b'E', 3, 8, 0]);
    assert_eq!(AesExtra::parse(&raw), Ok(extra));
    assert!(!extra.crc_is_meaningful());
    assert_eq!(AesExtra::parse(&raw[..6]), Err(Error::Malformed));
}

#[test]
fn winzip_entry_is_the_published_layout() {
    let salt: Vec<u8> = (0..16).collect();
    let sealed = encrypt_buffer(&text(50), &Password::from_text("secret"), EncryptionMethod::Aes256, 0, &salt);
    assert_eq!(sealed, Ok(bytes(WINZIP_256)));
}

#[test]
fn winzip_entry_opens() {
    let raw = bytes(WINZIP_128);
    let size = raw.len() as u64;
    for step in [1usize, 7, 64] {
        let mut reader =
            DecryptReader::winzip_aes(raw.clone(), &Password::from_text("secret"), size, Strength::Aes128).unwrap();
        assert_eq!(drain(&mut reader, step), Ok(text(50)));
    }
}

#[test]
fn winzip_wrong_password_is_refused() {
    let raw = bytes(WINZIP_128);
    let size = raw.len() as u64;
    let r = DecryptReader::winzip_aes(raw, &Password::from_text("Secret"), size, Strength::Aes128);
    assert!(matches!(r, Err(Error::WrongPassword)));
}

#[test]
fn winzip_changed_data_fails_to_authenticate() {
    let mut raw = bytes(WINZIP_128);
    let size = raw.len() as u64;
    raw[20] ^= 1;
    let mut reader =
        DecryptReader::winzip_aes(raw, &Password::from_text("secret"), size, Strength::Aes128).unwrap();
    assert_eq!(drain(&mut reader, 64), Err(Error::AuthenticationFailed));
}

#[test]
fn winzip_encryptor_and_decryptor_agree() {
    let mut e = AesEncryptor::with_salt(b"pw", Strength::Aes192, &[5u8; 12]).unwrap();
    let prefix = e.prefix().to_vec();
    assert_eq!(prefix[..12], [5u8; 12]);
    let mut data = text(100);
    e.encrypt(&mut data);
    let code = e.finish();
    let mut d = AesDecryptor::new(b"pw", &[5u8; 12], [prefix[12], prefix[13]], Strength::Aes192).unwrap();
    d.decrypt(&mut data);
    assert_eq!(data, text(100));
    assert_eq!(d.verify(&code), Ok(()));
}

#[test]
fn zipcrypto_entry_is_the_published_layout() {
    let seed: Vec<u8> = (50..62).collect();
    let sealed = encrypt_buffer(&text(40), &Password::from_text("secret"), EncryptionMethod::ZipCrypto, 0x5a, &seed);
    assert_eq!(sealed, Ok(bytes(ZIPCRYPTO)));
}

#[test]
fn zipcrypto_entry_opens() {
    let raw = bytes(ZIPCRYPTO);
    let size = raw.len() as u64;
    let mut reader = DecryptReader::zipcrypto(raw, &Password::from_text("secret"), size, 0x5a).unwrap();
    assert_eq!(drain(&mut reader, 5), Ok(text(40)));
}

#[test]
fn zipcrypto_wrong_check_byte_is_a_wrong_password() {
    let raw = bytes(ZIPCRYPTO);
    let size = raw.len() as u64;
    let r = DecryptReader::zipcrypto(raw, &Password::from_text("secret"), size, 0x5b);
    assert!(matches!(r, Err(Error::WrongPassword)));
}

#[test]
fn zipcrypto_decryption_undoes_encryption() {
    let mut data = text(60);
    ZipCrypto::new(b"k").encrypt(&mut data);
    assert_ne!(data, text(60));
    ZipCrypto::new(b"k").decrypt(&mut data);
    assert_eq!(data, text(60));
}

#[test]
fn written_in_pieces_is_written_at_once() {
    let password = Password::new(b"pw".to_vec());
    for (scheme, random) in [(EncryptionMethod::Aes128, 8usize), (EncryptionMethod::Aes192, 12), (EncryptionMethod::ZipCrypto, 12)] {
        let random = vec![1u8; random];
        let mut writer = EncryptWriter::new(vec![0xff], &password, scheme, 9, &random).unwrap();
        writer.push(&text(80)[..30]);
        writer.push(&text(80)[30..]);
        let (out, written) = writer.finish();
        let whole = encrypt_buffer(&text(80), &password, scheme, 9, &random).unwrap();
        assert_eq!(out[0], 0xff);
        assert_eq!(out[1..].to_vec(), whole);
        assert_eq!(written, whole.len() as u64);
        assert_eq!(written, 80 + scheme.overhead());
    }
}

#[test]
fn encryption_versions() {
    assert_eq!(EncryptionMethod::default(), EncryptionMethod::Aes256);
    assert_eq!(EncryptionMethod::ZipCrypto.version_needed(), 20);
    assert_eq!(EncryptionMethod::Aes192.version_needed(), 51);
    assert_eq!(EncryptionMethod::Aes192.strength(), Some(Strength::Aes192));
    assert_eq!(EncryptionMethod::ZipCrypto.strength(), None);
}

#[test]
fn passwords_keep_their_bytes() {
    let p = Password::from_text("\u{e4}");
    assert_eq!(p.as_bytes(), &[0xc3, 0xa4]);
    assert!(!p.is_empty());
    assert_eq!(p.copy().as_bytes(), p.as_bytes());
    assert!(Password::new(Vec::new()).is_empty());
}

#[test]
fn sevenz_properties_are_whole() {
    let made = sevenz_aes::Properties::generate(19, &[9u8; 16]);
    let mut raw = made.to_bytes();
    for k in 0..raw.len() {
        assert!(matches!(sevenz_aes::Properties::parse(&raw[..k]), Err(Error::Malformed)));
    }
    raw.extend_from_slice(&[1, 2, 3]);
    let read = sevenz_aes::Properties::parse(&raw).unwrap();
    assert_eq!((read.cycles, read.salt, read.iv), (made.cycles, made.salt, made.iv));
}

#[test]
fn no_room_reads_nothing() {
    let raw = bytes(ZIPCRYPTO);
    let size = raw.len() as u64;
    let mut reader = DecryptReader::zipcrypto(raw, &Password::from_text("secret"), size, 0x5a).unwrap();
    assert_eq!(reader.read(&mut []), Ok(0));
    assert_eq!(drain(&mut reader, 5), Ok(text(40)));
}

#[test]
fn a_changed_byte_behind_the_verifier_is_refused() {
    let password = Password::from_text("pw");
    let random = vec![3u8; 16];
    let stored = encrypt_buffer(b"content", &password, EncryptionMethod::Aes256, 0, &random).unwrap();
    assert_eq!(stored.len(), 7 + 28);
    for at in 18..stored.len() {
        let mut changed = stored.clone();
        changed[at] ^= 1;
        let n = changed.len() as u64;
        let mut r = DecryptReader::winzip_aes(changed, &password, n, Strength::Aes256).unwrap();
        let mut buf = [0u8; 64];
        assert_eq!(r.read(&mut buf), Err(Error::AuthenticationFailed));
    }
}
