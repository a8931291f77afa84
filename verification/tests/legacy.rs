//! The methods of early ZIP files.
use ttarchive::codecs::legacy::{implode, reduce, shrink};
use ttarchive::codecs::{legacy, Method};
use ttarchive::Error;

const WORDS: [&str; 12] = [
    "the ",
    "quick ",
    "brown ",
    "fox ",
    "jumps ",
    "over ",
    "lazy ",
    "dog ",
    "archive ",
    "stream ",
    "\n",
    "0123456789",
];

fn text(n: usize) -> Vec<u8> {
    let mut x: u32 = 12345;
    let mut out: Vec<u8> = Vec::new();
    while out.len() < n {
        x = x.wrapping_mul(1103515245).wrapping_add(12345);
        out.extend_from_slice(WORDS[((x >> 16) % 12) as usize].as_bytes());
    }
    out.truncate(n);
    out
}

fn bytes(hex: &str) -> Vec<u8> {
    let digits: Vec<u32> = hex.chars().filter_map(|c| c.to_digit(16)).collect();
    digits.chunks(2).map(|pair| (pair[0] * 16 + pair[1]) as u8).collect()
}
const SHRUNK: &str = "\
    61e48c4193c64e191074d01c9c43474e99306d40b009a3270f08336ff080885327cd983520183a8408428182\
    3706e5805053a70d9c391733821023e7cd1d37313562d4c8d2254c910f23f67c19b26150100107163cb87363\
    c78f2060c4903183460d1b3770e4484ad0a0538f20131e14bbb225519465542a904ad52a56ad132b22541875\
    6ad5ab5973c4b5b8b76e5bbc5a9b2a20f3e60c52815d0fa255b9b864e3a1309b422e3a32e263b33f8d9204ba\
    597344c2864df6a569136753b29c23a6fe0a15f4dcb1741570045bd6e761a55ed9de7dab97a245d23725fa06\
    e1da35709c8db92e7dcd1ae4ea93298917be9d7866cde0ae957bd50e9ba9cce38ea393e50ea2b182c9b3a182\
    ef3bd9b56eb779c193050fbe71e3f7807334759d1e64dfd1d7719237899f37f9c9000300585a4e25b9a60079\
    e4ad469664984967187893d1172075cbb5379d6b9315189f860f22b61c78ab85a8558a393446168876c1a7d5\
    7c1a1aa7618b74add61f6547f5b5e26a0d36d6d47ac3ad461e7b14ba76e341e4d5a8a08e3aae7621853a2238\
    dc640a444817593a3615e588257a055e979e2d489e8e47dab6a27913da261f5de491a500782baed8976bcfad\
    58dc74e091d754537d4928d38a670ec7df5320f94826592b6e7928831e4ed79702a7e14826797c82a9587473\
    c2981f95144248a68e794e77599a9df236d8744c4ea7c0789996271e5d52da36195941ca64de95ab25181cab\
    86552957864e3a8a296ede69342aaa793908eb64ab359568651be6b6ac56cd1e2b9c5caea1a668a5d3ead8d8\
    9072314a57af389ddb5c49c15a4496bb74b966e7742e5228ae8626e5e8e880b746a76674dcd2a5e35ad6e6e0\
    a582332a882651e4ade8a74caece7a6f93d8455ae874e5224b6dc67d35a6639cc9c1aa80c23009dc5463ee11\
    fce194c56a1867ba2bb2bb20b432c96b98c9d1e928a6a004434966cdb51175a58ea14efb2c99464febe64113\
    e354b24c45c23a6c70e8e90b2bae3c51d8948e779239a8a35b4f972f6dfca6a5aead744d06275d8df595f3bd\
    e1f64b30a9a1fd47a4a88e227dd47ef3a24d617db22e09ebde86a96c9bc8c32d4af0df65af38f05fbcc5fce7\
    7083ef48129664caa9e198d31e2e1774655f6a637427f37d50e337974dd6cfbf020d13c8d94ebaf3e3792505";
const IMPLODED: &str = "\
    03f5f5f5f503f5f5f5f5c3ca1d8b36adddb220e9a219feff5cba72cb866d0b926d58bd79419a7d8b1764dcba\
    69c7aea9feb342856fccff2f17a4daba6de1cee9fea758b96fefba49fec7f0bfaeffb6fe17e65f84df29faf6\
    3063ca9c49b3a6cd9b38736cffe9fa6fc3fb1afe97ffdfdcefa960fd77d6fbf0fe97f44f88ff31fd3bf37b2b\
    24fbf6ccfd1d8eefc17cb7e09998ef62fb37d17f31fe99f4bd86fbc77e8ffcd9d5f7c6f82fc97363ff57f39c\
    1548ff4dfb6ed47b1a9e49f4dd94ffa1ffafe17f49ffad7a1fe3b99ace99f73fd86755ffb7e85ff1ffca3e77\
    f97f9bfe97792f1594ef8dfc6ed4bbb1fe9bf5bdf077e7fd37e17b25ff0d7e37c4ff90ced9febfacef469fbb\
    f8bf01ef89bb7ed7debbbf1b7d4dbae3a9e07b46d27d319f53fceef0fff6fcb7f45d8ddfccbe4ecd7f4bde1d";
const IMPLODED_3: &str = "\
    0ff7f7f7f7f7f7f7f7f7f7f7f7f7f7f7f703f5f5f5f503f5f5f5f5f3c6ce993e6de4acfba3a7cfba3f66f4d8\
    59f326dd9f3c6fe8b0fb33270cbf3f6ed4b4395354feebebd70923678dbd3f75d4a4f16374fe77eed8092326\
    4afcafc1ffb9fc8fd57f63fcabf07f89fec7f97367cf9c3e75f2c4f16336ffe5f23f06df67f07f7cffc3fdbf\
    5fadfe83e57b79fe8fe49f11fed7e43f98ffefebec0933dcffd3f17f31ff47f09b99bed5e6df45fe9be15f48\
    ffefeb57ecff95ff0eb57767f86fc9efc1fa3fcdeffa4af23fb4ff83f25d86df2cfa3f14ff4bf77f06ff47f2\
    3f2adf6bf46c26cfc2f3bfd8dfa6f63f22ff86f76f6ccf21f73f26ffc7f4ae5f95be07f97f50be9de57f58ff\
    0fee3b78fe87f0ff24fe07ecdb11fe97e459ecfe8ff57fd09e43ec7f00beebabf5b39bfc97fbffa0bfb3eef3\
    7ef5fd2692f766fe2eb1ef80fb1f8fff91fa36e37f617f2f8dff91f80e";

#[test]
fn reads_shrunk_text() {
    let out = shrink::decompress(&bytes(SHRUNK), 3000).unwrap();
    assert_eq!(out, text(3000));
    assert_eq!(legacy::decompress(Method::Shrink, &bytes(SHRUNK), 0, 3000), Ok(text(3000)));
}

#[test]
fn reads_imploded_data_without_a_literal_tree() {
    let out = implode::decompress(&bytes(IMPLODED), 0, 800).unwrap();
    assert_eq!(out[..800].to_vec(), text(800));
}

#[test]
fn reads_imploded_data_with_a_literal_tree() {
    let out = implode::decompress(&bytes(IMPLODED_3), 6, 800).unwrap();
    assert_eq!(out[..800].to_vec(), text(800));
}

#[test]
fn reduced_data_without_followers_is_literal() {
    let mut raw = vec![0u8; 192];
    raw.extend_from_slice(b"plain");
    assert_eq!(reduce::decompress(&raw, 2, 5), Ok(b"plain".to_vec()));
}

#[test]
fn reduced_runs_repeat() {
    let mut raw = vec![0u8; 192];
    raw.extend_from_slice(&[b'a', b'b', 0x90, 0x02, 0x01]);
    assert_eq!(reduce::decompress(&raw, 2, 7), Ok(b"abababa".to_vec()));
    raw.truncate(192);
    raw.extend_from_slice(&[0x90, 0x00]);
    assert_eq!(reduce::decompress(&raw, 2, 1), Ok(vec![0x90]));
}

#[test]
fn cut_off_trees_are_malformed() {
    assert_eq!(implode::decompress(&[3, 0xf5], 0, 10), Err(Error::Malformed));
    assert_eq!(reduce::decompress(&[0; 10], 2, 10), Err(Error::Malformed));
}

#[test]
fn other_methods_are_not_legacy() {
    assert_eq!(legacy::decompress(Method::Deflate, &[], 0, 0), Err(Error::Malformed));
}
