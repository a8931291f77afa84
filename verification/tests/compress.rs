//! Unix compress.
use ttarchive::codecs::compress::{decompress, is_compress, Reader};
use ttarchive::Error;

const WORDS: [&str; 12] = [
    "the ",
    "quick ",
    "brown ",
    "fox ",
    "jumps ",
    "over ",
    "lazy ",
    "dog ",
    "archive ",
    "stream ",
    "\n",
    "0123456789",
];

fn text(n: usize) -> Vec<u8> {
    let mut x: u32 = 12345;
    let mut out: Vec<u8> = Vec::new();
    while out.len() < n {
        x = x.wrapping_mul(1103515245).wrapping_add(12345);
        out.extend_from_slice(WORDS[((x >> 16) % 12) as usize].as_bytes());
    }
    out.truncate(n);
    out
}

fn bytes(hex: &str) -> Vec<u8> {
    let digits: Vec<u32> = hex.chars().filter_map(|c| c.to_digit(16)).collect();
    digits.chunks(2).map(|pair| (pair[0] * 16 + pair[1]) as u8).collect()
}
const TEXT: &str = "\
    1f9d9061e48c4193c64e191074d01c9c43474e99306d40b009a3270f08336ff080885327cd983520183a8408\
    4281823706e5805053a70d9c391733821023e7cd1d37313562d4c8d2254c910f23f67c19b26150100107163c\
    b87363c78f2060c4903183460d1b3770e4484ad0a0538f20131e14bbb225519465542a904ad52a56ad132b22\
    5418756ad5ab5973c4b5b8b76e5bbc5a9b2a20f3e60c52815d0fa255b9b864e3a1309b422e3a32e263b33f8d\
    9204ba597344c2864df6a569136753b29c23a6fe0a15f4dcb1741570045bd6e761a55ed9de7dab97a245d237\
    25fa06e1da35709c8db92e7dcd1ae4ea93298917be9d7866cde0ae957bd50e9ba9cce38ea393e50ea2b182c9\
    b3a182ef3bd9b56eb779c193050fbe71e3f7807334759d1e64dfd1d7e1449e49f8f146de640096965349ae29\
    401e79ab91251966d21906de64f40548dd72ed4de7da6405c6a7e183882d07de6a216a95620e8d9105a25df0\
    69359f86c669d8225dabf547d9517dadb85a838d35b5de70ab91c71e85aedd781079352aa8a38eab5d48a18e\
    080e37990211d245968e4d453962895e81d7a5670b92a7e391b6ad68de84b6c9471779642900de8a2bf6e5da\
    732b16371d78e435d5545f12cab4e299c3f1f714483e9249d68a5b1ecaa087d3f5a5c0693892491e9f602a16\
    dd9c30e64725851092391b";
const LONG: &str = "\
    1f9d9061e48c4193c64e191074d01c9c43474e99306d40b009a3270f08336ff080885327cd983520183a8408\
    4281823706e5805053a70d9c391733821023e7cd1d37313562d4c8d2254c910f23f67c19b26150100107163c\
    b87363c78f2060c4903183460d1b3770e4484ad0a0538f20131e14bbb225519465542a904ad52a56ad132b22\
    5418756ad5ab5973c4b5b8b76e5bbc5a9b2a20f3e60c52815d0fa255b9b864e3a1309b422e3a32e263b33f8d\
    9204ba597344c2864df6a569136753b29c23a6fe0a15f4dcb1741570045bd6e761a55ed9de7dab97a245d237\
    25fa06e1da35709c8db92e7dcd1ae4ea93298917be9d7866cde0ae957bd50e9ba9cce38ea393e50ea2b182c9\
    b3a182ef3bd9b56eb779c193050fbe71e3f7807334759d1e64dfd1d7e1449e49f8f146de640096965349ae29\
    401e79ab91251966d21906de64f40548dd72ed4de7da6405c6a7e183882d07de6a216a95620e8d9105a25df0\
    69359f86c669d8225dabf547d9517dadb85a838d35b5de70ab91c71e85aedd781079352aa8a38eab5d48a18e\
    080e37990211d245968e4d453962895e81d7a5670b92a7e391b6ad68de84b6c9471779642900de8a2bf6e5da\
    732b16371d78e435d5545f12cab4e299c3f1f714483e9249d68a5b1ecaa087d3f5a5c0693892491e9f602a16\
    dd9c30e64725851092a9639ed35d9666a7bc0d361d93d329305ea6e589479794b64d465690329977e56a0906\
    c7aa6155ca95a1938e628a9b771a8d8a6a5e0ec23ad96a4d255ad986b92dab55b3c70a27976ba8295ae9b43a\
    3636a45c8cd2d52b4ee7365752b01691e52e5daed9399d8b148aaba149393a3ae0add1a9191db774e9b896b5\
    3978a9e08c0aa24914792bfa2993abb3dedb247691163a5db9c8529b715f8de9186772b02aa0304c0237d598\
    7b047f3865b11ac699ee8aec2e08ad4cf21a6672743a8a2928c1509259736d445da963a8d33e4ba6d1d3ba79\
    d0c438952c5391b00e1b1c7afac28a2b4f1436a5e39d640eeae8d6d3e54b1bbf69a96b2b5d93c14957637de5\
    7c6fb8fd124c6a68ff1129aaa3481fb5dfbc6853589fac4bc2bab7612adb26f2708b12fc77d92b0efc176f31\
    ff39dce03b92842599726a38e6b487cb055dd997da18ddc97c1fd4f8cd6593f5f3af40c30472b693eefc785e\
    03b24954830807676c751c8f8e33cb0a36a57677b1962db95c7993d4edb4f15a89e49e1afe58f1b6a546176d\
    ca9002fbbc851ad639dc938e1a4adbcc1a295dbc4a9beb2d539c67133fa0995f3b4a966b9493f77a75aa6a6f\
    9bb2b3ab4870e6c4a20dc69843b998bda87fbd1156f4c85438a2642970d91a974504761f82294963dab2c805\
    63c636e7edaf6ad9a213c13a44b8ea95cd3ebf1bdfd128d4b97669095ead82d9ca68d3bbb2ada6638e920df0\
    825341049a4787b4e9a05c08853c0acd0f7a0a02cfd060d59701f5703779e9cb0de38640dbc1448a6412a245\
    b836ad574550439cf2617448942daad1e653b6919efe16062befc9255d4084cad52a94413a0e6f41f75b0ed4\
    b22536a808af8d04831f6dc0a3a71272ef607db3cd13639403fe41512b64c4df22f3f3c710ca8d605a735463\
    1e681d059d8742233b5f2783033e1576f14d827b1a990c161c93343033d36218267345c54736527e6b8bce27\
    6d23a9fc89b29066a350fbead8a0c918b35e8023a02a8b3643f5d0a874ada363ee9a86cba54de798a742605f\
    283749de1cd1307d929d2d014517af09f09208bc1cf35665b5e85c29669f5309ebb8f49d671a066c87242508\
    ab733d045ea9866a91a5361117b01ce2b38e034c923b8d5850da1cd096cb3bca431989c2b2a50d5681c2da07\
    69f34a51ba2d78b42c1bdc6cc84076662b8fdb81551f41629e8f06e75dc41be0051da6113596a4516774d46a\
    269a9f1e8db099205962b604433e3aae668a16f59be8929a4d5b020c82d5d122060f8a327fb2b07943cc2186\
    96aa9250f2943795c45ffa4872c1a2b2ae41b1d3485a31e85304d25323d3fc650c098653a8ac559d4759e954\
    1d15d6e554d596565c501c4182558bccad8e2ec58912f7b91c49d92f3acf11a82d232713fad53389f6f4285f\
    2f1b1ca4aa253bed14e90e713258e6306d9438396dcf9276afdd2dc763e52498a4faea152f46758c18cd65d9\
    cc47ce831cd4b37eb1a51b2d32195311a589b02a6c3485f4a5a1725640b93d48dde4123a4f86d196e693a9ef\
    48ca3985eeb66530342406174bc3e1fc70b547a157adb2165295585623ef0d2e231b075cbc92048beb14efe2\
    bafa3dc67ac5242dac633f6d29d4eaec57945742e9415ceb956ee685b619931a691decbf2a8a73be16ac2523\
    d57b3b244e8d856f45adbaee7847123267b825d9172abfa8a0849a502507058f2f034c53114772391c86a544\
    958ac8835c89be9662e2e49e8b414a1da4b4a40bcd801949480f2307b7d92aa533410ad76f1de5aee8559e6e\
    d12793e31996679a4ca620a1a2bae110ed289265649a7b3a9c78d251b9bec42651969c1f60e2f728e694a3f5\
    2e9c9f33934486b631f2822438e2e86af69c08ccb17cd99c558e9a947743d6688743535c5d06165bd5296ae3\
    aa1b1c401365d3b0923248b66adde65607b6507d6d0ecbdc683d7f3780ae86b14e836c49318a36a78826b0a3\
    a4b5e340cb2479119154e2dc6ad0d12e9a373ad3c880248c6050b69957c399ed327bfde9ffd52f959286499e\
    59bad0f5daa6ae889a65f9c008de8d0da7615d6e6f1dfd1c11341225a22499cc5823c26a8b30b7c53f6d2a23\
    81bb66de6c5bc4fe622a51aeab6643bb389f3801eeb06d295539bb6ebbfcf5dc61b31c11f2c65a948221eadd\
    700d95706ae4df6b95f1ea00894082e7c73c14cec18a92fda87b3a2a949bdc385480dbd6719e3b90ceda9e51\
    4b6a181c0e5273d3260984e988ba80e67ca33397394800483170925cb8602e6f11bd4d1437dfb8b6b1a178e5\
    54e3338b217cafb4193a300573c10679795dc244e6ab9b1e4df14db995a88e668919ea5b630ff08ea23e36ed\
    a266eae50c9d6c6aa9f40975a962d3451d2aee8e4cd02372f523af15b42c66bbc02eeadc8f2bae7b97c777c9\
    fbee95e7ac15c5f7f615df61cd6dc6fd4fd1a79d771d6975dc68df1c81de8d38712914709528bae61b36577f\
    6983e9e5303de15d974b45652f62d53338d55e99ae45149ec8aac7a9f65b8f665cbf894152eb4e43bd658ecf\
    5bd32a451f88eed18f13115d6878aba67185b6b9e3f6097b31d97a70d2a2046849540f31e9ba7eea67f9d774\
    026b7de04f4b52c0357eeaa2757fc5486de35f9a627ac4e650a01232df777ed372762bc779d6f475e9a27ac0\
    167df5d772a2546f25114a6ea66018d420774656bab481f4f7338da35c23a5167a15771dc57263061226c71b\
    291757c6a5781ab14dbf06547a772d26c64a8a857908c46b9653746cb57b7675545d833d3da74b5f95170db2\
    47fcd48348b77439584794676044085834636642e639c367472113620b977b47d68225017d0eb720a1f764a9\
    d37c3a461277e46930b12b3c174df6a2795e982cb3168132f15865535aefd4805196432c076eea6287cb956e\
    7e2875f6b63e72b886ff938811c387186661e39630e6a57f4f5836a14439b15726c9351d07457d43977d1e38\
    47b85767d0b441b497799d45264d265e8925605ff84660982d05981fb5184d5bb81c2288625a27782a0164a7\
    b410b4c855747441d98573d9d28adef442153880e1d37e45288bfe77142c2730211677bd9752d9a2688e6480\
    9db87670788ce8845de4e649ffc669db688271a88cacd563ea0282c74747bbd47a7221183f538e9ef28779e5\
    2de5674b8ec38e0a624649174ba3378bd39264ea02914fb56e2a157c1a0465d5016f42017ea7958f13a820f1\
    f51c07968f5235472cd73805a6479893782591925e2180d0465d15392da06785440190d3488f47d151f2f630\
    ac473261868ed1f78bbfa8918da86cb0f280efb6656fe664d10773290415d29817b68563937822b4765b4209\
    783fc822d171800ca86ff9b156b77876e9027955b883bb883f6ba59034c88c68a992f5f86110985eb1d1703c\
    d64a31c790bc383d1601601f797d0a6224ef0713f185729e48748e788f5e8750f9566d03e539bfd87f22668c\
    5d19331945472558710b342d9e1762bd6883ba748b262188ea687e6c148daf07750844857ed52a73d478c174\
    856867386df831bae476a3668819b962d531917b896704b353ec055fd86873e49261dc856649d99caad98f32\
    819352f868cb816e6a65993316628c68123da913925877a66497d53840716553fb081377f47c8f7987ce2617\
    31f9971bf86f13f99374646296795a77f48b07c948481898f118111bf81c5c7986ae68330fa37c0b629dda97\
    4c5ce966a5d5515cb493d48975c49349b4219b71b581e178647b287a95174dfb991f998987f9b52046e99205\
    c94813498c2f176945f6303025774fc79f36a96deb48a3d97699edf965b0678a9b859427b5291ad29dd18462\
    ef0976dce77261099993559ccda64810a74c40aa952a11338775415a1760ef636853a9156a685f008a9d57a2\
    5cc8d5974e576bbac67bfd369d6b049490d8923f8a4152d551102983d8167e56461284d65192528379a1a05c\
    2982991958226871e1869a86799cfb86396b0a17c361a8d1248094a99b208a9534098dd5618400fa8688554d\
    8ce99e1659128456a6bda9937a0a74394a6706528afad58568a8a3dfc6944c78a9b6667bba979c08e47170ca\
    714b87a24988ab0c27a40a22844759a4eed76ace9195aa1676d1b96a79fa193eea684a968bbf915935169c42\
    07a30df57638417dff9672aee915f3d98e820977c6f6782fa687ba8462042a9acb6939c3249fd7c49bbe47a9\
    1d15a2bc1162c4499b9fa78d9dcaac392a42882a627314aed508a6d2175b037b6019b778a2eaaa7d36a394e4\
    b0a5f58b3328585108843a671e064b91cfb9458a2aa2bef99ae2858c3cf2a8d8b7961c9297ff294a4a0913be\
    048fd1179a79219dd722b0c12a9403c441909587ebe786359a6247b7943e9676e957862d8a7f306b626549ad\
    a615ad507125d4f77b8b78a301f9a61b4ab0ba247f84e666798784a67962c3a9748586a68c748b03f41c44ca\
    6ecc7160819a4c1d0ba984d6b49b48970e948719a8ab92c283393aabe229b47c948761eb66d4e7ab1387372c\
    8b414659955e616294633eba42211d9bb1393085ab94879ccab6a148646ad886e709a228e2af2c2755fea92e\
    634764719581c0a961056aa20a9ba650c188711926121336e857757b3aa1d55887fe3abb29daba1d4a4d63f3\
    ac4fe9a28c4898a00a2ef1f373836968967a14592a72280b92219b2a9afab0d46b181ee8962f5a534d1899d5\
    6a8f9ce4a715e6544e998528969e9338204505a9344750f697bc27ab409c2817eca376f2146a886b1b64aa84\
    41b56b56bbaa87189e9df17f760388399a81ff76bd96d938e613b65ad79f634babe6fb758125bdc287917e17\
    b48daa72cac918c2eaa1a5da95bcd566d8ca7877ca927e4b870d995aad3274d7eb5833a93e1a21821d9c8f5d\
    5ab9badb95d77b924ea88fb1e99ca7666c345bbe679bb491a856d967122c19a3ee4bb6dbab73ac6362011627\
    de4a57af6b8ebae839f22792cce8ab739b43a3b882e9aa9d13cc9ce3185efa38aef53b410868baf34a7589aa\
    bddbfa966ddc95545bba0da2ab6c8bbc494cc229bbc56e3cbc19b381e982c32e7abac639addea996825c12fb\
    ea7c23eb1512bc79f6c8b3a033c3d9eabdcc04a5b78678cb1bb5f45a2d0b08ca4b0a13f4398adccb6f778ab3\
    8c148cc9d766ac937d47ca725e5c6a0a8298990c3b921233452555d9d720720bb1bc41aad589c5c897312b1c\
    1103f48ba3a8757e5c7c8b89af7991813f7ba41d7cc1a88a8b1a01";

#[test]
fn compress_reads_text() {
    assert!(is_compress(&bytes(TEXT)));
    assert_eq!(decompress(&bytes(TEXT), 0), Ok(text(1500)));
}

#[test]
fn reads_codes_that_grow() {
    assert_eq!(decompress(&bytes(LONG), 0), Ok(text(20_000)));
}

#[test]
fn compress_read_in_pieces() {
    let mut r = Reader::new(bytes(TEXT));
    let mut out = Vec::new();
    let mut buf = [0u8; 19];
    loop {
        let n = r.read(&mut buf).unwrap();
        if n == 0 {
            break;
        }
        out.extend_from_slice(&buf[..n]);
    }
    assert_eq!(out, text(1500));
}

#[test]
fn compress_other_data_is_malformed() {
    assert!(!is_compress(b"\x1f\x8b"));
    assert_eq!(decompress(b"\x1f\x9d", 0), Err(Error::Malformed));
    assert_eq!(decompress(b"hello", 0), Err(Error::Malformed));
}

const NO_CLEAR: &str = "\
    1f9d1061e48c4193c64e191074d0189c43474e99306d40b009a3270f08336ff080885327cd98352016367c084281823705e5\
    805053a70d9c391631821023e7cd1d3730335eccb8b2e5cb900e21f274099221501000051234a85323478f2060c490318346\
    0d1b3770e4403ab060d38e1f111a0cab92e5d09365522a883ab5ead5ac12291e4c08552a55ab5873c0ada8972edbbb59992a\
    20f3e6ccd1805c0d9e4da9982463a12f993e262a12a2e3b23e8b8efca93933c4c1854bf29d59f326d3b19b21a2f6faf4b35c\
    b173156cfc4ab6a7e1a45dd7da759b7762c5d13623f606d1baf5ef9b8cb72a75bdfaa36a93288713b68d58264de0ad9377cd\
    fe7a694ce38da18fdd0e82b102c9b29f7ee72bb975eeb678bf8ffdfe9d3163f77f73306d8dfe235fd1d60100000000000000\
    378d57d27dbb8d27d97fa4e144526b0a8c379e6a6345765974857d27d97c004ea71c7bd2b5261981f065e8e061ca7da71a88\
    59a1980363637d58d77b59c997617119b238976afc4d66145f2aaac620634ca9279c6ae3ad37616b361a341e8d09e698a36a\
    164e98e381c249a60084738d952353508a486257df71d99982e3e568646d2a9627616df1cd35de580a7ca7a28a7cb5e69c8a\
    c449f7dd784c31c5578431a968a670fb39f5518f638ea5a296862ed8a1747c2960da8d638eb7e797894127e78bf84d39e183\
    63ca06";
const CLEARED: &str = "\
    1f9d8c61e48c4193c64e191074d01c9c43474e99306d40b009a3270f08336ff080885327cd983520183a84084281823706e5\
    805053a70d9c391733821023e7cd1d37313562d4c8d2254c910f23f67c19b26150100107163cb87363c78f2060c490318346\
    0d1b3770e4484ad0a0538f20131e14bbb225519465542a904ad52a56ad132b225418756ad5ab5973c4b5b8b76e5bbc5a9b2a\
    20f3e60c52815d0fa255b9b864e3a1309b422e3a32e263b33f8d9204ba597344c2864df6a569136753b29c23a6fe0a15f4dc\
    b1741570045bd6e761a55ed9de7dab97a245d23725fa06e1da35709c8db92e7dcd1ae4ea93298917be9d7866cde0ae957bd5\
    0e9ba9cce38ea393e50ea2b182c9b3a182ef3bd9b56eb779c193050fbe71e3f7807334759d1e64dfd1d7e1449e49f8f146de\
    640096965349ae29401e79ab91251966d21906de64f40548dd72ed4de7da6405c6a7e183882d07de6a216a95620e8d9105a2\
    5df069359f86c669f8064076cac80141074d191073e8c82913a60d883875d28c5983502143876cc2e8c90302460c193368d4\
    b07103478e840b1b8220f3e60c08056f020e34f3060f083172dedc710322e3c68a291d869133064d9a803d35725453a70d9c\
    392b5b82882990a04110438b1e3dc8d2254e9d3c214aa4287622d08b3773ee04c1d429d4b214db3e4dfa532e540528d1163c\
    b8f76144b3346de655f9756d56a3480bf30c7c5625e3c35bfd8ea5bbb4e95c8f204592344975a002c676d382b57a1032d2be\
    0a1477fc187264c91c985b6fcee19363d7c60e15c4d6fcfaf66dd5a60f32665c9b3408c6bb5d9b844b39aa4be6c9670f76d8\
    37faebbecc15f8965afc734de3d3b112457c10f8f8c89d45afb5befc6f5ccb5083e3966c967d8edbe943dbd72e55fe6d057d\
    c9975e5faa85165a5fe931969e02a1e165914ac599a71552b78516a15a3ca9c69c84e41df71d74acf1669202f285161e7221\
    2a77d283429d87d47ef215775b5fe1d101100068ca809843474e99306d40c4a99366cc1a106fec949103428c9c3777dc8060\
    13464f1e103062c89841a3868d1b3872d009b8b1e3478b183572f458f16246850c1d8250a0a64e1b38735ad25c29902808a3\
    64de9c11fa31e952a33d7f068d38b166cc9d0a081a4488b3e1c33072c6a0492371a751aa14438e2c7932255a104e8fb25ce8\
    75a75a922651e6d07a3021cc9b46ffca7409222a501060c592157897ad5e336ff080802c5941609b1a15c4150c5729d3ce4b\
    1be74d699432e2b063cb9a9ef9f12d5d9d4615bc4d9c5aa002d6857d1e7efd5081e9b77145b7cd11d77050de5601b3bc4d98\
    b370bdc63f9be6cb7535e1b8bf255244ced9f4f394c8a927c45d5c77d0e80a90d35e3cb060dfdc52db6f4d185d7c728d483d\
    7346ee3bb2fcf7eb95c51967d1a9871a7b6f99169d69c8c565df773920d7a067f6217796765de9141d54e69da65859175685\
    1b7798ed84dc5b104218177334e156614e0fd5e75e75fe910110006fce80a083a60c083575dac09903428c9c3777dc807863\
    a78c9c810541849133064d9a8a20ccbcc103824cc09227112a64a8804d183d79301a841143c60c1a356cdcc091c321448914\
    2d82a06913a74e9e0a88deccb93387ca85205cc20c3932eacb9822499a1438878e9c3261da8050d0f56bd8b13e2352255916\
    acd89657c706bdb8b1e34783698156bc3817a54082336b2e3d9a4341d6897b655a9dba5523478f201b3f65d8b72e648386ab\
    2a35dab42e";
const TEN_BITS: &str = "\
    1f9d0a61e48c4193c64e191074d0189c43474e99306d40b009a3270f08336ff080885327cd98352016367c084281823705e5\
    805053a70d9c391631821023e7cd1d3730335eccb8b2e5cb900e21f274099221501000051234a85323478f2060c490318346\
    0d1b3770e4403ab060d38e1f111a0cab92e5d09365522a883ab5ead5ac12291e4c08552a55ab5873c0ada8972edbbb59992a\
    20f3e6ccd1805c0d9e4da9982463a12f993e262a12a2e3b23e8b8efca93933c4c1854bf29d59f326d3b19b21a2f6faf4b35c\
    b173156cfc4ab6a7e1a45dd7da759b7762c5d13623f606d1baf5ef9b8cb72a75bdfaa36a93288713b68d58264de0ad9377cd\
    fe7a694ce38da18fdd0e82b102c9b29f7ee72bb975eeb678bf8ffdfe9d3163f77f73306d8dfe235fd1d60100000000000000\
    378d57d27dbb8d27d97fa4e144526b0a8c379e6a6345765974857d27d97c004ea71c7bd2b5261981f065e8e061ca7da71a88\
    59a1980363637d58d77b59c997617119b238976afc4d66145f2aaac620634ca9279c6ae3ad37616b361a341e8d09e698a36a\
    164e98e381c249a60084738d952353508a486257df71d99982e3e568646d2a9627616df1cd35de580a7ca7a28a7cb5e69c8a\
    c449f7dd784c31c5578431a968a670fb39f5518f638ea5a296862ed8a1747c2960da8d638eb7e797894127e78bf84d39e183\
    63ca06";

#[test]
fn without_block_mode_code_256_is_a_string() {
    let raw = [0x1F, 0x9D, 0x10, 0x61, 0xC4, 0x00, 0x04];
    assert_eq!(decompress(&raw, 0), Ok(b"abab".to_vec()));
    assert_eq!(Reader::new(raw.to_vec()).read_to_end(), Ok(b"abab".to_vec()));
}

#[test]
fn codes_grow_without_block_mode() {
    assert_eq!(decompress(&bytes(NO_CLEAR), 0), Ok(text(1500)));
    assert_eq!(decompress(&bytes(TEN_BITS), 0), Ok(text(1500)));
    assert_eq!(Reader::new(bytes(NO_CLEAR)).read_to_end(), Ok(text(1500)));
}

#[test]
fn a_clear_code_starts_the_table_anew() {
    assert_eq!(decompress(&bytes(CLEARED), 0), Ok(text(3000)));
    assert_eq!(Reader::new(bytes(CLEARED)).read_to_end(), Ok(text(3000)));
}
