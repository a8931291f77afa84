//! gzip members.
use ttarchive::codecs::gzip::reader::GzipReader;
use ttarchive::codecs::gzip::{compress, decompress, is_gzip, read_member, GzipEncoder, Member};
use ttarchive::{Error, Level};

const WORDS: [&str; 12] = [
    "the ",
    "quick ",
    "brown ",
    "fox ",
    "jumps ",
    "over ",
    "lazy ",
    "dog ",
    "archive ",
    "stream ",
    "\n",
    "0123456789",
];

fn text(n: usize) -> Vec<u8> {
    let mut x: u32 = 12345;
    let mut out: Vec<u8> = Vec::new();
    while out.len() < n {
        x = x.wrapping_mul(1103515245).wrapping_add(12345);
        out.extend_from_slice(WORDS[((x >> 16) % 12) as usize].as_bytes());
    }
    out.truncate(n);
    out
}

fn bytes(hex: &str) -> Vec<u8> {
    let digits: Vec<u32> = hex.chars().filter_map(|c| c.to_digit(16)).collect();
    digits.chunks(2).map(|pair| (pair[0] * 16 + pair[1]) as u8).collect()
}
const NAMED: &str = "\
    1f8b0808d202964902ff6e6f74652e747874006d545976c33008fce7143a42f7e5386ae236699bba75962ea7\
    ef83913c80f3215b02010383a8d36ab33d0de5b019cafe300d7557deebdf6f791e7fcad771bb7aeb5291f134\
    4ce5f5b8fbdc9bf6691abf3f6ca70bf276371c6a8b408f179757d737b777f70f8f5d07b962d005730b27bc6b\
    b0549d44f6a14cc3c87a7c99e39a1f384b1904984ed724f1a72e452c183377556b3f64a2977b3602115c7750\
    290778b4ad9aea82c85055c751e4c4d43e5958798937266db054592893002582385010ab5b02875a5d60e700\
    db2752a2b6704bd260d101882cfb027153d18d5dc9f9b592f434891886387ba431462f3b4e39cb1c0cd21692\
    97b99bcb9bfdb15e8964d74a81e3d4debe1bcd8e9cdacdf4e8127b0bd609024143685f39dfc4cea9b8b2b33d\
    1553f011ebe6d4ba8d43c0394fe514f2cadef3ed2d109fe3637e5afde550151f9c9f56bae6a9a3071a39acec\
    ec054b715ab13ed2639a03499324162bbccf9ce0b9d1c226fa07330d7777dc050000";

#[test]
fn reads_a_member_with_a_name() {
    let raw = bytes(NAMED);
    assert!(is_gzip(&raw));
    assert_eq!(decompress(&raw, 0), Ok(text(1500)));
    let m = read_member(&raw).unwrap();
    assert_eq!(m.name, Some(b"note.txt".to_vec()));
    assert_eq!(m.mtime, 1_234_567_890);
    assert_eq!((m.comment, m.extra, m.text), (None, None, false));
}

#[test]
fn members_follow_one_another() {
    let mut raw = bytes(NAMED);
    raw.extend(compress(b"second", Level::Fast, &Member::default()));
    let mut expected = text(1500);
    expected.extend_from_slice(b"second");
    assert_eq!(decompress(&raw, 0), Ok(expected.clone()));
    let mut r = GzipReader::new(raw);
    let mut out = Vec::new();
    let mut buf = [0u8; 100];
    loop {
        let n = r.read(&mut buf).unwrap();
        if n == 0 {
            break;
        }
        out.extend_from_slice(&buf[..n]);
    }
    assert_eq!(out, expected);
}

#[test]
fn a_member_keeps_its_fields() {
    let member = Member {
        name: Some(b"a".to_vec()),
        comment: Some(b"why".to_vec()),
        extra: Some(vec![1, 2, 3]),
        mtime: 77,
        text: true,
    };
    let raw = compress(b"data", Level::Default, &member);
    let m = read_member(&raw).unwrap();
    assert_eq!((m.name, m.comment, m.extra, m.mtime, m.text), (member.name, member.comment, member.extra, 77, true));
    assert_eq!(decompress(&raw, 0), Ok(b"data".to_vec()));
}

#[test]
fn a_wrong_checksum_is_reported() {
    let mut raw = bytes(NAMED);
    let n = raw.len();
    raw[n - 8] ^= 1;
    assert!(matches!(decompress(&raw, 0), Err(Error::ChecksumMismatch { .. })));
}

#[test]
fn a_wrong_size_is_reported() {
    let mut raw = bytes(NAMED);
    let n = raw.len();
    raw[n - 1] ^= 1;
    let r = decompress(&raw, 0);
    assert!(matches!(r, Err(Error::SizeMismatch { found: 1500, .. })));
}

#[test]
fn no_member_is_no_data_and_other_data_is_malformed() {
    assert_eq!(decompress(b"", 0), Ok(Vec::new()));
    assert_eq!(decompress(b"PK\x03\x04", 0), Err(Error::Malformed));
    assert!(!is_gzip(b"PK"));
}

#[test]
fn gzip_written_in_pieces_reads_back() {
    let data = text(20_000);
    let mut e = GzipEncoder::new(Vec::new(), Level::Best);
    for piece in data.chunks(999) {
        assert_eq!(e.write(piece), piece.len());
    }
    assert_eq!(decompress(&e.finish(), 0), Ok(data));
}

#[test]
fn an_empty_extra_field_is_a_field() {
    let member = Member { extra: Some(Vec::new()), ..Member::default() };
    let raw = compress(b"data", Level::Default, &member);
    assert_eq!(raw[3] & 4, 4);
    assert_eq!(&raw[10..12], &[0, 0]);
    assert_eq!(decompress(&raw, 0), Ok(b"data".to_vec()));
    assert_eq!(read_member(&raw).unwrap().extra, Some(Vec::new()));
    let mut r = GzipReader::new(raw);
    let mut buf = [0u8; 16];
    assert_eq!(r.read(&mut buf), Ok(4));
    assert_eq!(&buf[..4], b"data");
    assert_eq!(r.read(&mut buf), Ok(0));
}

#[test]
fn a_changed_trailer_tells_what_it_says() {
    let raw = compress(b"data", Level::Default, &Member::default());
    let n = raw.len();
    let mut sum = raw.clone();
    sum[n - 8..n - 4].copy_from_slice(&[4, 3, 2, 1]);
    assert!(matches!(decompress(&sum, 0), Err(Error::ChecksumMismatch { expected: 0x0102_0304, .. })));
    let mut size = raw.clone();
    size[n - 4] = 9;
    assert_eq!(decompress(&size, 0), Err(Error::SizeMismatch { expected: 9, found: 4 }));
}

#[test]
fn members_before_zeros_are_all_read() {
    let mut raw = compress(b"first", Level::Best, &Member::default());
    raw.extend(compress(b"second", Level::Stored, &Member { mtime: 5, ..Member::default() }));
    for zeros in [0usize, 1, 9, 10, 512] {
        let mut padded = raw.clone();
        padded.resize(raw.len() + zeros, 0);
        assert_eq!(decompress(&padded, 0), Ok(b"firstsecond".to_vec()));
    }
}

#[test]
fn a_changed_trailer_is_noticed_before_another_member() {
    let first = compress(b"first", Level::Default, &Member::default());
    let n = first.len();
    let second = compress(b"second", Level::Default, &Member::default());
    for at in n - 8..n {
        let mut raw = first.clone();
        raw[at] ^= 0x10;
        raw.extend_from_slice(&second);
        let outcome = decompress(&raw, 0);
        if at < n - 4 {
            assert!(matches!(outcome, Err(Error::ChecksumMismatch { .. })));
        } else {
            assert!(matches!(outcome, Err(Error::SizeMismatch { found: 5, .. })));
        }
        let mut r = GzipReader::new(raw);
        let mut buf = [0u8; 32];
        assert_eq!(r.read(&mut buf), Ok(5));
        assert_eq!(&buf[..5], b"first");
        assert!(r.read(&mut buf).is_err());
    }
}

#[test]
fn a_member_is_packed_as_hard_as_its_level() {
    let data = text(3000);
    let stored = compress(&data, Level::Stored, &Member::default());
    assert_eq!(stored.len(), 10 + 5 + 3000 + 8);
    assert!(compress(&data, Level::Best, &Member::default()).len() < 1500);
    let mut e = GzipEncoder::new(Vec::new(), Level::Stored);
    e.write(&data);
    assert_eq!(e.finish().len(), stored.len());
}
