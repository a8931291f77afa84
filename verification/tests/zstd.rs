//! Zstandard frames.
use ttarchive::codecs::zstd::bits::{BackwardBits, BitWriter};
use ttarchive::codecs::zstd::encode::{compress, compress_at, Writer};
use ttarchive::codecs::zstd::fse;
use ttarchive::codecs::zstd::pack::Predefined;
use ttarchive::codecs::zstd::{decompress, Reader};
use ttarchive::Error;

const WORDS: [&str; 12] = [
    "the ",
    "quick ",
    "brown ",
    "fox ",
    "jumps ",
    "over ",
    "lazy ",
    "dog ",
    "archive ",
    "stream ",
    "\n",
    "0123456789",
];

fn text(n: usize) -> Vec<u8> {
    let mut x: u32 = 12345;
    let mut out: Vec<u8> = Vec::new();
    while out.len() < n {
        x = x.wrapping_mul(1103515245).wrapping_add(12345);
        out.extend_from_slice(WORDS[((x >> 16) % 12) as usize].as_bytes());
    }
    out.truncate(n);
    out
}

fn noise(n: usize) -> Vec<u8> {
    let mut x: u32 = 1;
    let mut out: Vec<u8> = Vec::new();
    while out.len() < n {
        x = x.wrapping_mul(1103515245).wrapping_add(12345);
        out.push((x >> 16) as u8);
    }
    out
}

fn bytes(hex: &str) -> Vec<u8> {
    let digits: Vec<u32> = hex.chars().filter_map(|c| c.to_digit(16)).collect();
    digits.chunks(2).map(|pair| (pair[0] * 16 + pair[1]) as u8).collect()
}
const TEXT: &str = "\
    28b52ffd64dc042d0b00e2c4111860af0e2fca8d6f99d8c85ea07e18060009a4018e8220424fffffffffffa6\
    973f410ea32006210022aaa32225489d8d5cfb7fdaa3d356cdac75316821e338e5b29bcbf5b916598099a871\
    9782d418f60e101062943a330f1140482480c492ab31cd1a4888e34554f2d268314cdb6b221214de7ec43296\
    f8a978b7e9d5302216821bdf88254f7728e7eeaf577d938d5415b7fc876cfb2815048547207111c680c774d9\
    a254d32bb07490317a6efee208824c3e28188277b6721d6fec48b438f9f39293097a36d39a42b1b01a38da21\
    29844f691fbc5ee8296b690f1fd554d585457bc74be11644f767c206098174fe41bdc63ec032869d366a0909\
    c933daa1192382bea71c2ae1868e745380b6b2ece09ee44bdf697d6658f897476357058e3586f6221a395a20\
    6ad6e4cf01fd71e01d8b2077e9d7dcee45e5f02571f75385dd0ccb94f8a319f24c4613c47f1ce8aadadb8a57\
    0a2178d686bf7a6aa9f0aac944550184d0f8be";
const LONG: &str = "\
    28b52ffd64204d2d5d00e2c8141a606f5a034f50136659c56bfd2f4d7e18269815d604974521054effffffff\
    ffffffffffbfc116271007438130100400110a6b0a48f2488e6b6b623f18479a5c8531ce7251907bd46a1174\
    ab896e4d4ec33415859da8f3ce24a931ec1d2320205090c0a86c4aafd6876f1380c003210085204560191154\
    0298887823829226c31a9b64b13987d50b81ed0c2228cfb71b97e652be5374adec05ee543e3349cb6c890ae3\
    faa3b82f66d747b4690706376e22bac41b9f01215f31dd98539885f65684c999bbc2cab0b454a71cac283807\
    1754f5a145b0a1725d8294e2c7f75218b6891e91dff931f9d99fdeb694a307cc911a666c185735ba9c6fde5e\
    cd8b3e62b4a2b34937012408baa5bbd21697b9f45d5628dcf0f30e11354b4a2e28a10680141450b3d6d3403a\
    a68b23462569d861503a557d6f46fd25e13ad1db6a4b90e2efc4c3db8aa662e0be2d319b5137777645caca1e\
    fb1019515ed96c511847fb6b5ccbcaf1f9b62f60840c2bec6072927065176befc9c62a30288cc1154e1ea6fe\
    3a671230690ce2d6d4bfd6422e0933af1a3cf16d5124599cc991d8e269d395c0393bf09cbee02de89624e041\
    17d5e6c2d75d565df610f4737c823e0a4a65de158e338a02f318c84158b8e1ad7306e06860354ab06285e72d\
    c4783fd93e9fe8a27f06d4a186de76deacf57062ae16bbbc46de0831d2b785799f38e7988ca12a84b3e4edb7\
    3273b7fca9e038738870382dd268a41dcfbff039d78f6800ac7db654c07ba77c03bb8e768edf829709df0f00\
    2c1bab2c77d341095453d9afa4d2744ae5159e0f4c76461a38ae46cad440cf8b26aa6214360b77f1d0c71b4f\
    8b7c939fed33c10033fb5503814b549312c0272938883ae1579b0a3a02b0e919e35140561086dfcb89338b8f\
    4c583f806b237fe041ec23c74a75cc228a0709d3812db29dd8af15ed7500edb77052f724052e7a25cf63cfe9\
    ff55140dbf8993ae604916be4c6e91c92e764bb8f43ce91c5952cb8cc862d2a043ed160adaab5c73478d8958\
    23afa886a18de39257aaa5a0a5f4ebc9d0bbe7a0a07952812d4c448c70b2d9ef578185e8b997fa318667a845\
    7dccae9c88d69b84da91c24aaae40c11cc0ac04c77a0014713b661929dc13f5ecbcd4688e837cfa818acb0d0\
    8be6b6d27a0827c0350a9cc3d2a0e6e07575e6186c802020d8030bac013b1fb86ac11ede5f01404f47363654\
    b560d291c644126a0d4768d82373adfd90f267c4e308960e70b76da6a823e22780a987a1199b19b2ae978a67\
    c174f2aac453923f3e01c18fa3356bd62e2ddbb344bf38a4a5b2f332512fd9bd51abd2b9a604cd36f220d998\
    01b7e2ef55767fcb31541d8dacf2b96db3a4e7d38b9aa50e49d3d7123153d121d1a11b10663bfd22622b4981\
    17ff06e0eb0f30c8ae883e29e6d036e89c2f6e21ef71d2ac722d4dc240e87e234be33fe98973d93162669909\
    096b07736465a4a7f07e12bd4213e32e4d9a9fbb51a405880943ded07fd7f065edfb11be577ea62e20e49a07\
    19998a63ade580be0e304a75f4e24f5c0942652540c8d95ade61d5e43350659001049ebf412162b234414d76\
    e8c18f52eb759f1b8fa0c1ceb8750334f7589959f3e8b0e3f85c827560d011cf95ea3833dbadfb8f9617c9f2\
    0b2c550e3ee64ddcea9d63ccff2b7fe53bc1da7d79aa449d8e1c7d60b2824b02988a4fa22f8ab1b4b943fdc4\
    da0da0632902d9a2487479c0e912f46ae4c67e76e96960058152cfcc77eda85554a5301814f407ec7a538267\
    ad4e632585c7200d582c5ad3e18416070a837b80db97de4049b18a7db2ad0f7acd7525d4c3279e7699563cf0\
    f01500307d7c5e8e21ea544e98e98911073a2071c3ab7fc4207be576838120dd42075b247312c1543c487987\
    c1abfb450cf6f8a66412a86f36689936c1621d46b4498bd1d577ac41944c7020d5ecba3294f9c9680c63aae7\
    555e65a1e8f0d8cf586f9cc625db7474e4a8957c31fe7c1bb0bdc62b2845d77f691e34b9e23dac58bc271dbf\
    a8d8c4b883121a0d3d8cabd91389b8745cd10488e1855f8213763ea52001223cdf451f94fb2f94fc4adf36e2\
    1c3745e398ff2105f3feaa530772bfc92e88f92acfb767ed3c21a3535dd62d8827faf3fe64b1c6d70747ac78\
    286ba076f9af634c18e01f11b62c6372e3e575254e927363f739bc259f983cf4989341daa99f0be254862019\
    f10d2312c1162c4bdcea841e693169f8d1d35407739b1966036de65fe88414d45e0d75cc672938175f8fdd94\
    31c3642dee955ba2d75daaabeea0df27a738d74a5db0309c6bbdd4dc2d84979e970769ac3f123d64a8e901fe\
    d4989f689589f73e4674210021e37e52170dc431dad72b09f30c88b5fbf08b0f17ef10d616a062986eb95a24\
    77060cb99873cfbbe40e44256bb20e68aea20bbb5e3180cabe320f3bbd8bbd0f7176254fb519a78b38488329\
    f46eb0b715aedd8e5715bfb3be056460e25b9555df9f574cfec87408130876b84b0db0e8afc2027f4f5e37df\
    c560e4425d36fd13da0c3cbde9887fd4008e9a2996aa9bbf8d0298c9b47dcf70aa4c2fc2c7e2550df981b1a7\
    8537e05e91efc5befc8691bb4549ed3c5564b427205d3c15c48a5dc70271bf41a4df6d35d6b6539a4ac31618\
    55a8f5559a7a07727b4b56710210af01ae39fccf6bb00d50b187f46dc7c02664a5197d5710d8a7809ae5f022\
    c2d0f82ae8dd763724ab7f82c3525f62db7e03ac16e9487fa16f15debae121f08694727a730000546db32361\
    fff67be9e9524487ee02a53f69163990f9e28ec59a879ac88ba21aec6c2b005b8b2196a4394ddfe3537ead02\
    2d89f2fd512db33e7e9fc8a66a0351e67e46888a7a18fabaa80498256361d63a97777c9f83ec4ce09e348ca9\
    4757bbf359767fb81470bb05004572029d4b1e3ea98b01b2903bf954e30448573b863c35c9c404610fa1af2d\
    b88565d1c27c24d2ee433f49f75c334e65f04c7a53c5e720c923205a5482f5f45d2b90a66673057d9cd063e7\
    edf38b3e1ebcc2873b077f46243c9d568fc3443516ccc668c1b4357ef48eee7fd67167caadb138f8b7684643\
    c37983c859a1b1343c8c5d6247338822695797e906b7be491e1ba740ff99f8aac707a301a7cc972e6fe9aa3d\
    6fe7bf44e9f96d993d8176ee7f8d0ce71c9f9e9404daaaa4744a42d9c8b5476ca9cdc7658088c8695a96c467\
    7948eec6d1be209cff338c15bcdb9581c81e399a023d45e3c4c89e7b450c1f150214b1ad83ba875d94f74655\
    6441a7b9a046a91a7ffe94db6d4dd6795f5d547482c170aed937b9632d3b59f16173bc8e910dddf68227cf27\
    ffe2d98ffcb2769baeb1e12685ad5f040d010a4daa2b6920b48a31894cd811a41a6f7c9f259b24c95929413f\
    7c9f0fdf23afda4905f450ec3a8070a518bd02ee0981dbdb6411c6a541baa544c06ad235fd6017225fe26b91\
    89522b770bff56377eb204f37aa4710b41aa74776d4999890cb1e5a18daf9c4e65d162f2b7480cb081b4fb88\
    c0f6c819b4e4eb784abe0074edaf53f124aa6e987bd011aa1455e1872f2216148340d1281dd0325454718ed1\
    b0288051dfad50bb4e08fec14ba1ffe85f0e62da88b5726d73606aa3fb4d18030e72b5b4582ff9485f32fce9\
    c2701adadefbfb48d3792e5f1f0c2053e4f04f249f13a4964b72791fa4f66b666414e26e4813df703a0bdf2d\
    fadcfab13682580d33a5d75bf18c31b93b07c3832ffb2a06d226a4e8878dec4f32d54446e8c52e8d0e7a8101\
    146230442c778a0201ab41dbd26fc930095f1d8e55cd91007ad115b2acd12acc0b4d501319bffb233d162815\
    761b5f3f8c6071c9616a492c395d69fac5be794d98c4420a89d37f28da96a4d46042406ca7882f353e222e49\
    94e27a27ecd9c8528fdabfc74704950f043f5e054dbd1ebaa1485fdcc0e7ca8945af66dea950acba3210c95e\
    b5d107a4a3196dbdc6b96cd57130daacd6505716611f8bc331bcfbfbdbd5863e4199cf70cb4453f8b525f960\
    d1da6fba1925405eaab6ab8630bdd16a4d3515c94fa57e747da072edcb70781e72bd9c3ff597896d75bba9fb\
    81665f358f364c6dafce649ba819746a02503887d9ef7ac06f64c5e8a51094eed62dce3ade0badd87e60eac6\
    05812743161dd534ccfb9029151e617b1d206c7de33b2b6af902554fac0dc00d23d632a00bf9ba49f680ae7b\
    9d7d09";
const MIXED: &str = "\
    28b52ffd64e02d057a0054c261726368697665207468652073747265616d206c617a7920666f782071756963\
    6b0a0a6f766572206a756d707362726f776e303132333435363738390a0a646f670a0a0a0a0a0a0a0a0a0a0a\
    0a0a0a0a0a0a0a0a0a0a0a0a0a0a0a0a0a0a0a3031c67e816b4bfbe2fb54f6bddf7c1ce18701bf31de56720f\
    4767668759aa883c59ea56137bd285a1d83c54552f37ae655bda027998cce31a768e5fd9998f1f3f36ee4378\
    4d0dfabea6dae4868edc296d4eff56e17020fb8fb1580590c509dc53cdaa3b489952d3529d069feab5c20613\
    9849b2011eac3288319c52469571368f57f6391d16fa8874f5987c175c41bb6d718e0f7059c7011b2f333d91\
    c01da50d0dab338d7e5e8f3ee66874a63ab1c39311a864c7dbcae060e1f3bf090067a2e325a0213187d562c5\
    a84f7e2e096b949fb06da99e5a0b467080b6cf470ca6a52ad8acfba0ebb779247223924880c5a6a785b7d78c\
    90e4ab63445266e39c3325f95eaaba73605d4b717ebea98c571971c3ca5ee52a33ac885166a17b7567649a69\
    ef6f5642a01d51c502f7bb9245be6f0db638cc10fdbb54511c7b079427937d92c3d4c6a56151013838a7bff1\
    040d159b801f83d5a469887c9fb601da9317458b12b202335c50d6e156a4ad424a5cdd8661e90312e10f9bea\
    262c61dc62486b6d14e003854a7246da96c87d1cd1053ee59270435f6c0305b3ebb320354d7e66500136c033\
    e10fc9382ee929194f5eb1d1498b3b53fd9f3fee2525357b0d11af4c118c32d4da7fd81657e1a6ce7dc1ae62\
    bf13e4874c3ac1b30c599947585abd787cba5001ed1bea8a4988eed61485abb02cde3593112d011cd7284330\
    e7b008ed79991351d23a77ad3db4f8c7ca0322d2c9c6270f04ce7a3fc0682ccf726a09c24200725e4134f896\
    693fbd3a58918be1cca2b192dd77a135fef34bbcb1e337110dc765bef161e55e06ff35c776895df46e4accb5\
    547ef115c8a0998f5c700bef14c6e50a9c19b41d4cce5606dc421125e7966f0f213ddff957470ddf2b6afc77\
    8dd5e9d9f9b5e0eb72841a8e42141d8a6e5f923afb0be5f6e4c09f45d62a83bfb1cd6ac4bf8cdedfb2f779f7\
    6057fc3b3d7b2ecb9c417b27a5e34858150717e0b9855f63a8f6291243006adbee6424528bc43b5dbb3518a2\
    d389ffb2a05930f2dbd5c14d6a4b369c5d78e6d0a3920de59011b0860f413480a689bde92f78470d5095871b\
    bfe37f943736e46f39382f0c833a85df51bc48d956bb799579bdd448509da9655d177c130b125c4f67b004e1\
    9e18b3003afecbc41cf72b50387e4ebb13c520c3fe3da4300fe4470ae452017a17813180805f355a2d15ccb0\
    22152d80d1e6e4cc58af6f057d859c356a74a0f0284ff7f9dc3800b3c4ee544ef1d9eaadc2d7eb1924c456a8\
    8bcb546baf70585a0759fe0006dfa1e61859bac15b23fc5b1e7030421ad4d032729066426c9da2d1ed773e30\
    b6ae920d612ef6a21a49dba11d89a8def23856ba6babca535a53f66d1381ae1fa5fc4a3dd7450189e4a40098\
    f6fb4d8664465f59acf579362feaca46af50466689214291b176d20d728de358e39c17d1285863276e446b82\
    a4ba9873fabbff9c1a76f21f299962c87c5bfbf91a46fd59f6c5db3ce97196d0711cd80d2c99d05a1251d000\
    7587a84fba66c092d5d0f7b486e53faf5555f5b84e66012c7dc4b238280c564bcf179c3de407ab3c4a12fe7b\
    90110699eac77dd1f3f28ce725149cce14fefc196d213728b294330fb3e40a45cb9fa811e09f29b41817ef57\
    5c5f86b38d7f3982897d71a9dc67d022461f11abf1e99e306fb6eef9752ea594597f69804de8859e59044058\
    1ad7fb8e3c9a0d45b9465f0ecee2c638c28d24b5564b3dcd0b8f5984168c9fcc243c2c6bce2df6aada0e64c3\
    37fda908b78ee4d38a9bf9317ece2d4df8ef839eb1eedad032b0c3730d9a2466e1de8e020b885d062c479545\
    5ffc77113704e6667b467dd6a1fb6d380b401710035d6dbd78d3096576270aa16771b2e70ba3c0bb399a8e95\
    53e6eb918a5ab6d9d7523fd2b4c75d099e144fdc4c8553e8aca50836a2448424804a3515433f78d89396fbd9\
    79bcd30adee55c8fc791d42c52e0b76f709bd89d60fe445def47d62671ff9a6a7d0be27f6c712a5290ebadca\
    352ec3fd59f701152ada0f0144ca47dba767131c7a0b03828193b1bc60ed55db8d66277916b178a718b68f98\
    fb20440e6ea55e882614ae285620e866edee44779260d87b601fb469616bbbbbcca244d9fe9174463a7e598c\
    21f1c7e8f046f3b67bf4d19bed9b2d743dcf8b016fa7c0518f044ded6ea17ec41bdf47da204ed9af82fb0770\
    767c5ce0e3bcf8049c872f915ad4e0167ad695e97cc15fd3375c6f7bdd4b7493b31ab8c48d09fa5a0a9a09af\
    95db2559177415137c6f086cecca2c31c6be109b5ccdba39718e889c7338c7c478f0154dfbd2775953c1393c\
    f7ef89ea732bd22129eed956c8249a618ebae0e83deba78bde4b31d43990eadd0f23fdbe1e6bb2bdd2d48e35\
    cba129421377cd321ba5d3ab7a34be9c66b214e4eebf00c5fd54a9070fd650ecb0df2cd7b9c705bb4af49244\
    86e694c81101afec4b190b1649c0ae96974f9793b0b59bb73a02019a02b2dcf0baba2b717454b18bdd8b95ca\
    3a85ba032494dc4403fb6f7b4c8038e97ab6a844ce07fbafc683155a5d6c17f9087dc4e66dfe9715e189a0bb\
    a89922beecd8eedb79257e993e67d0f1841408baeb80c5d629e63f1f8238250f07a638318ef0a74b756c2948\
    16d6dde808dbe1261b64b46c12a34c791edef60e1ffef25c9ad6ca2d783576d484aa31d6a21a1955d0038940\
    de8d373ced550c51a9f9c655466350193cd6dc55c1bac6530b27295e42333dea47fc778027745e705def2f34\
    cb6e30a677a9d4e206de94f9f95c885aa9cec7010348845d0413e502f339a21362cf626de205d69489ef915e\
    2510ae613dab201dcbcad7eabc0b98a0232d9908415edf053642588283c3b81b479b148b35a33fd858d9e840\
    863270e1a5258c2ca1f49f0829b8d4c52c34ffc7175631efcb8c1dc860cd2e769c62645f3178f296ba67990c\
    74c0c275bc195efb4c977ea63540b1869cfe21a534726cb07f7e435fc491c5aacfb199aa6b4acd4fa0b872c7\
    ad96f4a9c4c43ae5883a816d4790f89ff7491c79f2e3d27b719f465bca10856b6966dccb9078f04ece939a2d\
    4004886e8b67951295aee30106f0beb682f730aaa3886482b870bbf73f53b08924346ce3b8c3280d706a4754\
    62162ff97fc6eb9c91d48266f40614f91454ba19aa771b17b536ce013a70748bbce890bc7bd32d586c232e11\
    fb91736c836db17489250e22bc977f87ad16e2bf4e3eda962c786ef76c4c6119876a4f67c5768c337b96bc1b\
    04bd323780b609084ff005204c0c2791c92712164fe72004124743ee36239e1bc483dfa96aa7627df6d607f2\
    91e7cf3dbb8c39a20a625f58a2b9cf3d73232a3a36be7f74254165377dc9daa3b461df147a53cf537231837e\
    ada228b7ebeedb8f9047093167dd894e1aa076cc6dd3ce2e3e55ccc13dae058c6bdc44f554dc27330bf77677\
    ead146da0733d205759314a23f69278625315c9b143e1e8f6745863ee0a5bde0647715f27a5ae6e582fb2a89\
    b567d838e01001c2e0a0ab1cdc8171c74529d7028f266eafacedab054d6288fbd727d87027a56b1a06dbe535\
    6be95fe7735bbb752136c728d5c519fd8e20a40fdf811ec5b24612bbc0c5c472ccd4c8b6a21361d3d3009a77\
    2db82665fd8ef9df044da3d03a4d6fbd44383f6ab79a254c0a2ac2b25dda5fb1eca0cdd45102fc807d645e29\
    7511f937cc0b4eb6e493eec0e377d5aa771e8df14a5403e344d6280d849d47681ceb29428e16eaee0a17992b\
    65d29355d9239c4d7facc2298d61f29c4fd05724e73176f6c4320ba9e37fa1a4c813f3493b4105dec3810240\
    e4fbd44617d585f68d3d596aa435a78026227b454412ee1f55d040bc4eaababe00fd46231585ca76c86649b7\
    67f9b90b8a57a22311a87b6edf29c4fe58fee23b9bbdbf4a7fb61e3b4f04bef5465536e1c9798b5966ab92cf\
    90a209bd185773506b95b7d48e4277deda6f313b7721189c99ddb0fd7df52cda22958711c88d64952adca7d9\
    7a00cff620001aa2333557d1b4dc89288d5d40264c59b7129e76aea28eea06707bc81e1ddb0df042b26aea1b\
    d0cf8df2cdbcc74dc54711d7d4ec480f50174cb2c9735be9c2f02b322c96c910a60d347277e8b8e547b50c78\
    a0c52b7328bcf3b79cd77ef38c00448cd993ed49eeeef7c2c1bb0c8688fd200f3cdb4e66cf2f70962cce80d2\
    f295b265f0384d5e60ca4df7e40cbac94275c6b2de05a982fbca3d68b100000000000000000000000081a0a8\
    619782d428ecb567210408438124951c1f128091600828e1a274465cd9ffff0ec6cb9bd70ca60c6bbd4f3908\
    e5b2fad01be2ade5555e500fad72ff5cafa0e05552a8de09d8706b20b28d717bf076e2ce52b0195ff7655f1a\
    e81680af5df92e99d100a56aa703bfafa32b36142b40756a7197ccdcd915a6254de22a1c0ea2f2910f01a40c\
    cdd0ba699bae6605f9fff4e4aa570e2593a1e60409cf247504b659bddb827d0b540920d166dc1b5e633d5c38\
    341cfc8e2cf7f934bc6b3ec119e2abd6639af5e2b2828aa352962772c78f98dcfe30f428a93ef97e7c0ba60f\
    463702d1e16eab8c193e04b624fadbf9ea23fb25e1f12bd1024b0d251e806faf7d6bf6c1641e9a2464a100d2\
    2d10662205f4dfff5e731b5b9c2593d8938dc850560d674c450a9017fc195c201fdea49dd27ff855a6e90b4b\
    3b19d677d5f816a09f58715c5e53e6ea1fd553da0c6cda26358468c45c59da8614676a465abf777294fc9ef3\
    26a41b586c528c2ecc9c60186a02edf09e6194482da4949a762938061465c28633e54bdef96b2ad08aab845b\
    70ba98025ca0f18be36640c6a1a04905eadd9dff3bb0be8c41af2daddd85ed62cc01a779bd8b41fa1cf07d28\
    10000bf72424229a241ca8bf05374e64028f73b601ca6c7c5d763f0c0d42800d39a778e2380f1715d300940e\
    60ca983927a4f20302242478018d6c6780f1c90d7d1357db52b8dabd8c8090ca50c2e8e67e218ca56f1ea46d\
    18d34677ee9c68525e1dcd30aba82e8003f23f77b7993bc0394444f52836f942f40c0fddcbad8b88d24def1e\
    c4e466819f8ec408825ec43724ed2ac128ab65085450d7e97110e030c4f591f74796e0fab01903535cccaa0e\
    06b0b7796fc963546a548b263e5f8b8bb594c666fa499c49f341d0d965c2e140e8eff06bec5d2334f31acaa4\
    359f59af8df6545a5db58c8b205e9b16d616c6f42cd0f1a5148e7110aae8b4ee06305152e6e05562fde51659\
    3096e9a0313ef8b776556fd6627e780feccad78443b059485c73461fd4c28e55a61a9384af50591555407aa9\
    3d7b8b5a9fc0ca65428169aa7d5bb92114f77cb0b49bfc6ff52dcb801001567924e786d240fd9371410d82e7\
    cf4e";
const TINY: &str = "\
    28b52ffd004821000074696e79";
const SEVERAL: &str = "\
    28b52ffd04683d00029659492f30599b01882a17ac950462cf1983fbc635bf122475e2dd6d2f231df3cf90f7\
    c9a0b1eabe08a50bc8192e66074ed0223c0037001800ffffffffbf8a877205c5844404c4834303838b8cf79d\
    d45e68312bdcd7ddbc5962b318186ec64be1686a602d1c0dd67db61ad7c96c5c779bc9621f2c5d8606870788\
    0889098a8a16580d0db712437ba971deadfb52bc190e26661663e14e3e4fc685abd9be0e46e3605fecffffff\
    bfccf6ff0fffffffffffffffffffff7f144f851bf6c564b35bc7d96401421b16454e1f53034b400223473f5e\
    dc8b95c897074d61ca67274b8a28a98ba06326634b0223e14728cac4e77680d51444132055d2194d2c84805c\
    400de93cd9188868915cf41491f0a4a868147c22540d4a003c56083755485c205e575e1c2c39384c019cd7a8\
    e45e012003e82128030000304070b088543a21536bed030400c0020200068019001e3b006080b1c6e0f558a0\
    6860204100487f0064da679e53989b982f99c5d9d7c031e4e68d5debf0bbd9ecf9a2fcfa225363e001d77742\
    50397d00d25bc3933f87f1b1083b7d85d4f7d69ea0d51256705b4d2eee1dd3e8e60ca081b6690abeb85a83f8\
    8cfab4997fa3e76e0876ec4adaf4edd750919e86b48e10d667a71ecbc3b14cd698a0fae7418c77a2103353a7\
    3a58f90c11d56b4840e154a76386652129310c93236f38fc43f882a69751098e5311a305d2fd266131646f2c\
    f106dd5e796c83120eea421f6b0d5d6dec35c6bf212c422480a088d9a7265889ebbcd517c690da620796cce8\
    c68323b1db4430fb1c1eea315998c1d9097173fadfa41abbc550af1121fab2e231c4079390789d0b6a368207\
    8b5acd75a2d358e4e270fdf972f34927d3bd9a36f9f6c86d50d23e0279d6c2cc1eed3918ea56976b010dbd91\
    9a075f291a4c159d800e9f607c99a7529c488df657f194751cb8a71029cf5e4e9668c78fa557b3e96218579f\
    dcdbddb5e0916747d57be07ad384a98f396cd497cd1b7fa03234f7eed4dac6dda6805ecdba5673174f1cc50b\
    c95a4d2fdc3f30c6e860838507766f3a178130c9319c383a23780bb4fc609c58aa6ac87117f38642ced67334\
    a3dd6223c497b46feeec34a24be4a82b1b8084309e695fa891319a947ded45786bee256c91c8bd1bf5154910\
    e2adda96399d0bb6d49b6ff6e5ae196c815eeddbb4808bfe70dbe3f8aaa66708acf5675b772907b42644c376\
    a1478dc8259f8c5104356ca8e2f211f8003a8b5911cfb214680196209201fa1604e7c92e4ba17b017c823b8c\
    ed9906644bce2f98051db4a15f087f99e418a14154192db5d89b5d7a1f7217f7cbb921bb0912ad0009cab5a7\
    8ad50087816f55d1ba37eaad8b37dc526b248e728a0cdda66ebb1744f86decb27d2cef33f7c39d68b779e701\
    413f37e61b8ce58ffbdac797e919c7f1aa70ab4f0705ef4b31472e2d51b5c2cbe50ae3c31c47ef2c0595ecfa\
    3435ff98f04f8a90a1c108ebc1433c1a6091729d66995519d3a9e62c74e27a4ec505ae4e771654d1f9be148e\
    201be6cc0a45c6992e6c5966a1ed51b306d2d3bf6625ee0e8f092f55c86a2cf489053be17493e4b225666c4f\
    b422fd434d05d1e76dcfc943ab5d98dfb60b77c0d1b335a1ea3809d6fb49b4208f16ea72f18377f0acbf0d5c\
    f8fe1af1fa25709563a2025005fbdb9d2a882292bbc06cb7e61eb17473dcbbe3db2fc2f99c592cf6bd61e58f\
    13f4db0af95b2f4d8c690ef91db3a20aa07f5ad93371b737c738ca91f96c1971a0f42b50df9c26a1b536b8d3\
    4024b27fda81a8083fcc0abd75051416a03bdbdc8b8f215096dadcc363f32d4af9092c71284debc9986a5655\
    873ba8b236ed9ab3773b2fc11161735ea5b07978b4942ae94c545099ca3c2fe06ecf2412668a54ddd1b3101a\
    f0d2fbda68146298715799b82861113050403c31d524d43dd87d0a04325ae3b0580f6983b352e5da3ee4b0e7\
    6acc4fb2600431ab5b20538348da6de0294a239c203aac7a396a912b56ca72ab0147a838ba9a87fb89d5f9e8\
    da4913236b0a0cd8889266b87f27c70bdf27745a06ca08645b0bd1a0d4728f3759377c1a5af080f1550a395f\
    4f4aa34c0dda7183bc3298fb732bb221a8e6d047cb3b6429b741cc554a64813ef1afa9934994505b417d670e\
    080b5a44bb87a97acc98368f509f98b50dcb8195a5655511928e2d6f8c56e7e4c768a2c8df39ac1c4a3988b2\
    f53c33434d6499ce38bb3f3e2c9e3d1d4ccd3419f16441374bdf9660f7660a60e834a19158ed7f9e73fd520c\
    aa4d1d7ae97f02c16b8218fec6fad61d74c468e710a665cce29cc4ff891863e77bd381b3ad88e9990292b350\
    07fa84133a239d5823513fd33fe804db340b7004bd3f841e49174c42b7bb33530170110f866f25c5eeddf4c9\
    fba753b89ce576664116ce25a935c9475f2543e02288f9fd88307259601ea193ea8b9b25167ec750ad31ef04\
    acc057b4a3e7865fcbd8db94be99619e3e411672503a53c097279f27ac3d454197840526c99fd3f62b300b6d\
    7ddfcfe595736b471c9b49ed3f4f36ae489d9e4fb2579460303ca77f8da4c18a6ee0fc94da55ee081dd744f4\
    5372264c1664a671b0e57fa2895f11b269512534939a4e1a1aa21296524753254310a81189f63a1b59d71c81\
    474a50adf7daad74e136c61c83d8d85fce7e8eab81ce45353de2943998d51463dd9267b792c0b5407719689b\
    db434c6b5652a11f4a0180584339c8a76900fc237a9bb317c9e631b1daf9ea3abd56910f0a0e43faff537ff9\
    3fc157aeab84fa148900015b401b67a6f6c8ea1b60460fd05108dc5c2b3fd0d8c6c7331cbb4279fa85a35e2e\
    11fb01d6eaaf2bc28659ddf8afa957190740b9fecf298d68b0028b0c52a48502468bdf00fc801e62b335b0e4\
    713a5da2ea672455f56957c3f27aadb0a8266e954f4259be8c85636887df50129a76424dc38fd02ae725acce\
    29112d944f56938d3a1b303820362f68a1ca40ecf878e26b32617ba1eaf7039215fe8f04bbc0e3d28b39229e\
    d1ddfb749f476413d7dfe082267ca33350a9b30f37a607a10cc8531ef172d8a5299210e32f05148f1b056b47\
    cc040f4c10b42e0a74e3be0ae0986e5f052ec4d8bf2e12b978877ad0c2261b50e34a18bdb9285533b638aa60\
    cd31bb0859f5f70c78da42c7dc66d9c9b96b9ebe04e644629e40451497c94dc00ec61c0d77857046e6b1be37\
    65800307f9aa146bda0e97de25b383fa75b5bf4aa0ef57e4ae9db34132ecb5f0c20b283f71210b57ab7560cf\
    36af73dc09f7075fad22fbce73d0516c20cc62a7bb1905284e2466f0285497ac60eedf8b1c48c8cf58978c10\
    28feb414c108131ae3f242c1140ebe193f1743149ffa1f9cd11e81628c9060b4fdc760d861ade4f9e15dd34d\
    b258a14d8fddefbdf60b7d23cb5ea9b815033a6c197251861c35430627a74369b9b402670140470853650d3d\
    358201ee5ff877950affa3052f51012a9071a7c9037c6c692e0052cba5013260f766e2a11364992f051fad44\
    0fab2de1613029b2a737e670edccbddc324a97ac60a8b97192a7c9160828e2266d43da2bd3e4f9ab9d83d2c5\
    244f62fbb1007a2ee3ef516ad3158986d10453a4d81ab3ad24ee24e71cb0de1c5548e13a56e6918e6dc6046c\
    3e4ad1c6722448ffacb341566038977ee22b8afe36e8f809e16bebb89f98d8bc750994a0ca08736b9abf650e\
    363be73356acefab52783103fd6e26b6e1b4a20972ad74f7e7deeb10eb95cb38f3e71c1b09b1a2920192489b\
    668b4ed078706847576a2c3b632e5c41bc1da80e9856fa9835de8686ccb4835626decbff1021fe811c417b3d\
    689ca56432aa187bc59dd3e4a6ff45811425c556e9cab012f21b691509e60c79624d31a7c2afb0606671399a\
    98776cc9c529f9a59ce112cfa7cd6daa8b13808f87f4564937843f9e3d996a329c748dd29541b275d77b3d52\
    edfe520f80749ae3973252c3bfead00358ceffb9b66ba5c97e096429ee206a4b2d06cdd9ab341e4a3aaa1bfc\
    b29b1aa909afb581032f9fcf7decf5019f165057fd1721f56cfc4cc2b8ad2b976126eb489b503be83725b15f\
    989f0c393723f7b6e20799223da70cfb417325e5c7bb14d39eb7018b16db1454035fd499372c46d0bf3e11a4\
    a2d52977288a70ad9d92fe675f8e1b8555989242eb464d394624146fb5da7a682298c596ab5432a3b619701e\
    61d03aceb13cf7450b9cfc77b0c30e9f19cd3853a5356a8fd00e007b0a1300a4215519190d44560ea726d530\
    91be01593adac4a84729c178db2b8c0a03167919e17725659b82eedca0469c0bdf1e83a0b0a337a8be0a8b77\
    0552089949fe79dbeee2c5ad3ba155ed35abb15a97fd2a7250ce9ec5a7f49893bcca87237db4cdb095f6874d\
    8e3bd0ded0a64ff7161687de250a8f4165c0e0564afbbb2636cc6cee4c567ca1eafbcadc229cbe0437b8d539\
    16330ee4152f2509ac02b48ef8a0bb3bd60a55d3ea3a52780a6d78ae30d9ee5ac96acf475d2f0b5405ab3b99\
    5fa89cc05b23bd438e3e3015e11f7ccfee1a6814794d84ea72e5f8d9f87c2ebbc35fa559d24fa829b425c99f\
    da5ca4a31ce631422627da0c991b0d4a5fe5514f7f122bcccafa2768298b8d59214e5c8e9974d107f9d6f9fc\
    c447e3c1d1e2d89e39b8ef45d8d6b61b8a635dd582cbc82fdeb73acfa30a788a5ac88748384b8e4c3c65de81\
    09df9351eab91933ee7a64ecd70e9ffa73d4ec4be0995f4ed18b925f66108e2f9bf49397d6f4600a7f8cc7f8\
    d4f798a70f6dfa8bb7f54605b7f8fd2520250dc439f9a6491ce429dfc649953ad432adbadd96c0e5906f13ab\
    f47059fc51b10456b229a251d7f8a2bb0e38df0bb199887e4655f0f545872b072517f46c89ec388812197528\
    d51d0fc7b7ab8d9baa8a0a0a136170fc35e5b425d4397e5d2b415bce5d82ccf5246b0ec8b36abc92487b5ea9\
    1ead270dbe14cc225df2f93300eb7ded7d46d9d7358909dc72b52f4056bf5e81018fa2ab5c2d5ad76144489f\
    bc8cdc18a1ba682bd150667c04b84db325b462a1b1d5a75f5fc8b065de65e219a8627fe19a52f551c7a6d9c0\
    df44c16b76b1e34ee98201937a018c7cdcb1d40d8c29f1c9f4f6f847abd37b36ab0c3a7a72f2bc5753b6f416\
    f0b9fcaed3ae99da6da2bdcd9e6f67d56b5472e0d7819a51ca5047d81eb8328f416a5b127e3b216e8788ef56\
    6efedbad976d3dd5142e3ee138b7ee60ffd36f936c7f29b3785ab4ebd9aaa9a40a39476d04e070b39e22d32c\
    c325cc798f19206b77909c84cff78ac02bd84af6b369a0675583f5249a01b95e1e4ed58b1091d9492c18bf1e\
    06869c43466249103529d70920d74a14c2c6e9bbd5dbb90f21a80ee00887c0d5a0d93e399505c807c4ec1bbb\
    dd555b4647b43257da2270565224acce4799361a223d788c9c48a17cde802606b30bab684fa482d2ae0834d4\
    2c68ea78462f0b0e4dd50d3c6fb9b67e15b1b59e08ce2d5803d087bb5a31372b490e39ec5576352058e796ef\
    6fee51881e3db78206c7c565d401bd7ec63e8da15f2984026b3aa66b2a6c04dee00e99950f5f39cbe63b8a8b\
    275adbf0098b4b77b5023089b4a3640cdd249cbc1ae2714d1503a59ab7b55fb32a14747cb1bfd7965fce3c32\
    e445de24913332d3482715a15241fe1a3dcdbbcf54ad9dc01f8170b58a44272dc689abd03917eb7e8d3e21b5\
    c3ee8749dcc4df59f53842a7e578c0c6373f395580bdea144736615bada7ecae19c69c86a9d0a1d44d73dd95\
    b82c075478c039a6618b15fdaa60e5f4593ee394cbac2cd84d86941565faa5c22e9dcdce53b0015876d7b3a6\
    2fd87862b33038d069a65df59864c79c412683c289b2287c87465bc4f79d4b614c8390da4c8d660c47a74e50\
    8a8c8265a2ab53fc427c3ef6f6c8ff2231030670887b0268e0a601351937a045e92a8205f49b23c3949c2ed3\
    399e04f10b10ea8cff170ffcd460982220de8a174be7406d8cbf184adccb524a2d4de4cb6b0d7aaae16e1503\
    f45fe9035cee04c9dc386634336e5649736ab5e59109de291032fc7e5964420e95108185e19fd653ec52bf94\
    d604de5e4341abe61fbf6fa3145740c281445b3a79977f20a030a97afe520ca59d720bc9b8e2e62a02a4f1ee\
    8728505b983b016ef620a77631f4039838570fb14b205a578dc3acbfe680e1a3389805449dced467b6f284da\
    1c44febc9c172ccf7ea6e03c46a6b94f0f5bf302438a4feae6ea187df3c82c8d59ea30e717f5ac37f4cc42f9\
    4ae8674a33ffb2f1c1f4fa1a6ccecdf8ee75f32a0789e4bde42f6761b846a53a8e463e5fbc78aadec796686a\
    ecce8c5f9ed056834f715f811d5e41acb897d569acf958704f69f6c27aeb2f9cd5e6c5fd74921c04e3a6b534\
    dcc3d0f6f27925487ed9b45f54c434e6ba0b0b36c093401cbc72167775d36b116027a5497cd0c767029ec90b\
    cfdf45e22f2044defbb20e5cbb2039817fb62cd2482ad3e9e305d4d214a9ef9f45f36543b9ccb4dee804eb1a\
    5aea73b2500d963461c872d1d6ee60f635496ef85e78aa3ef093208ba1b9ee663dab0d78731f4e946a9d8dae\
    f33c920573a3c4aeb86de350227bb76c109a622dcd8db24ca0a6a53c6c03eb674ed58da53804b630c1a67d0c\
    9b627ab2188d5bcbc123e67a8555105ce6831a1b571d8c3de869f654d7d6d5f8284a29fc8eb2e45cd4984402\
    956d3ef54f645191dbac6defa4f3ac5b681f1ff9ccee4875b206db762510e22458597f3183ad0ded668e7176\
    179f54e354d2b5653fecc3b55b4b96ebe35e4a8347e408445a845d3d2c9be997b95f074e9fe2b2e67217b7af\
    745692a6f904ee0a5621f27016ed0a4925690cd614f66d109a2b2c946a55ebafeb2592d7627bb9a0edb42668\
    33bf8aa82563063c3997cb84a581326694325e1cb522f659c7af505385db2158967a4d57aa07a1d0d411a8bc\
    a7a270d912f8ba6fcf4cca850661c5c4ba030c717cccf87b822c20fab4d498fbf69b29345a0efa27823daf41\
    5f090723920b2e7ef9ab3aeaa198980659a913c4d51f530f310516217058f141672c62ec10abaa0854ccd438\
    7a710032cb231c13659313a8bb50f3008eba1bcfb241c4545fb34074702bfd316de427cfc3a6a2142f867505\
    6127b7e0d495e590362017b2f2c94b4f231675ea0bcd2c4c16a4bfd2ae3de60448d87a7ef86b85a20abe3811\
    80600c1c478a1919bc7f7cce85e780fb3d0319b61545f01dcc9af1182355aecca21aa175de347b6096f0fa6a\
    389498ef7a598e314357528d16b4236e80abd93e49c1d8f011ffa082df32992ca01583b2a144c1cddad0d80d\
    1fc6257612f1ab62a2c303f51cf00c7f5a87bc2c1facc6cb43feb2467832788dd87943e6deb6dc4dadcac3f3\
    1c4a8a08c1683664258ead48e6b96156c69395e190aee2b4a95d5ac85a42508bfcd5677a3659a3eec2a0c957\
    1a6b0a99e27b43362c2ec16d60edee4f83906275d402db00adae6a01505e146888d8c5da94d2b445188d9b8a\
    9e024007bc2d8277f184dc499a651596a92ccbf7beec644c7fa0b399f099817116cef522342be503b1009836\
    f1ecd18cb3998665d5705235787ac298885475f4448bba4ac94e8865b91c214f3e33e11fac86f8e1adc354b5\
    6994868b71902acf744d11b3c792b7cd618cb5cb4c1b491f2bad41bf57c30f8a90ea40605c200c31fe700d4a\
    420b932e8842d0343bf45e78e8b61d161b72c511504e7b6f859398efa572ab6577379ec9631fbb4d5d13d651\
    59d6fd2350faa9f228ee4ea782d21148b518d2791b4b56f4402416d504ebc544ef6fa1fbf3a50e5ecee0b17d\
    59ed25ad2e8fa977a0e234a69597194e4f9258803b68d9dd427afeb7ad9c272acffa8aa93e227f4de2659305\
    8496673048c265103510efd5b787d1b987fe4c3981aff57185f3cb2170fb3ae27e0ffe1f9b8c4d815337a3b9\
    b4362ca0d2aeb6b73720e640ef6b30b1c7f7ac320f3d6f11e30915b3d480f9236d96ff734490b9f058398f0c\
    cfab7e804c439aa11330ad52de1f829fe7e634c61a910fb53f1b1e36baf8fa51212ae8e766562fbab59b6dbc\
    1a4f35fe85703974a18fe98bb3bac2a0631dad91656bdddd30db3afc03570bea2fcb270b8c0c946217ed2fc9\
    54d570083b2ee34921b389c5f7043f91134407c794ac9d7254e8112a6195d31b5008d26fa47d7b1151c20838\
    06478c29ceae347036aa5dc68b15969ec23e9bf459978d3c8f1d6426b1e517ba52523ddc13edb12e4b886fa3\
    06760aa7db7610e138d3a86f2be87932b0ddc992287649ea231e2445aafa519af049859f637b6247cd8062bc\
    fa708938e082f81b92331109a541b48d62ed923936b1c58752e3d543855732030d84fd553295371cf1fe60d7\
    7018f36976086353801aa9b74b0fb2fa6bcd7075180b36a79c0e864f08e90d2a5a3cf0a8b0790c6116bc1af7\
    6c216c1b07329d8c799f071f6891f20b4b9ee53ae5a1dd3a86942393e6277e52a7ef80386720ea141e9f5c64\
    3473d53d084be69bdbbfbb6949b4071c6073beef25698b9d87c95f1c321bbed33abb1f8b0aa542235abf1252\
    d57aa020df92c8ddad7b059214068e4172a713209887f6364512fbf243014a9db5c24a5144065c973af3c276\
    a6a6b0e205990bcd2db10f53b215c69f86b6113787e19a9c875d8eea0796f3c70a7a20325de524db85705448\
    0f45e6d897c7fdaa14f780012aae0d8392fca2ab08e843f9b87ee82c6b2f5cd106d599f0e73331c333e34f20\
    d01a95f3179ee6f9956808c23ce748c0800270dc643c654dd14f10fb7b9852096d383c31e66059d79857e58d\
    50e3f0fb15536ab35fb89be5d595888cf820aa537a383e5f5310449c3eda899e8c53ae100955537b81b8d3b2\
    e2481a659985418253062656537b893484a1639e5ba6d1f3ba502ed9384723d7d88d9866d48120603c39af81\
    1efa088c8abf9d3a6c4106c4b42f3b941a902af54134c84d6b51894fac829050466044748ebcbdea213228c5\
    82f4abe2b4e5204324ce25fa13d624bcc592790b9379c8ba32ad350ba54a1eec5867da961649766de56cac21\
    6974e74563a714ee3ecb8c0b1ab7b6e25ab5157be629070503702320eaf98b4f258c7e82d6dfe05a93f3479d\
    fc1952e1985a2d3699542c28f1a00ee5b63d039f833e541d38d789b47cfb22f2a28361245006217d5b3ee879\
    b59da1972b6f6c312a1daad6e3f229acd992a5f233e31281c4f2446041ccbe15f00f46ebdaf49318505ca205\
    08ae29e175a2b28e38be1e2c26332dc9eb7e81f52fcfb97c465684de41b6735108da661214177f7e4d3e1198\
    1e8b3997c9b1d244d157f2b712857355a6cf0a16680d34c44180d13b9b4744ab1155efe284262cfa6285dbf0\
    5f8d80d3ef32a6a407589b2966e6958d17c4a518b1f485af620e223ab433a6c10123dd180fe9122a03f92479\
    1cafd33e9066015aaf562bb50f0fe10b18cf70c2c0d8a59ccf35e0c3f534d62e85a040271cc4c85eadab84e3\
    482cdd921831af19d3910455e141a88906dd4b8edea11184dd7d9982bf046671f1b4844c11159908a39f75eb\
    8ec4781f7d01015f9d40061653c18ec0bb279c2057b5b9eeee708f43c43b9c7b564800059615c4ffae29a908\
    a2532f7bf161309c5a8b01f85871a0c7019941d8f3f64595d327c52d82afd0e38177e099867c5dcf13468411\
    b09b7d3bb79fc7179938d6261b0fb497ed7fc776c9db7bb0a6ecd729e5bcd42bfdad597328e7cc290f7e343c\
    33186cb7e4cb231b263aa71803a15a61a95a24df46f7e449701faae822b35dc93b8aa34f5d22d95d683cbba5\
    9e97ed62de2d48fba498468ae993c9ca8c4c950fe72aee426faf98a59a9715c1438f50fd7bf8df6ba7ccf2ba\
    3ca67674b3a18107d366184f67e33df7723f64f0b4c41c3759bf50d97456007c8c64128980053bcbf8bf0721\
    f849dc12afd2ac40835b27d35696303723ace5d6c0bc96e5a81e870cb605da62fbfccd09921bfc172703995b\
    9e30e9aabb715ead63e683a6463704235978e48b6ab142f928cb488a74c88e58e5877d1de5e434a66994d043\
    3de90cbf1321ddb6205cbe71ca0eb3ddce1c206de53a4a74a5a9534a29c32f45b22150051299213b8c80cc13\
    e211a84652da28293ad564c7355e13c81722d1fa5f70064eed935a80595b11a7c6411a2ca72667fdb2dafacf\
    9356441732e0dc56c3be4d87b277021b701709ce5dfac6cb4491198c6a163fac6f71b19c8cd382df1d017499\
    00747ee399ab8d717ec874721cfde24ca1eb7d08769d4a8ff4195dd223fea0973bcf2423feb86f8b59d2b5c0\
    307834f0f10a9f0e0e4ecc4f73f3a82bcc5cd1bdddb271a9dd431a911183060f437b1bb69a7c6e9312566281\
    682b8d42458b3ca970ded0c1abd3c7bd3f714e9118aaac4042a039770fddc1b0813734c8114809572c7791ec\
    a318d2317e0288720c752080c66b7f9feee8b78c28dfc27ae2262329fe5e88bbd685d9ba4199634a6e662935\
    32a76c71a2f69e402c5c959a78fddfe6e4a0ba1ba26f921cb4467cd8f12755469250799acbae54ab52dd7f18\
    043cf38dc16ae17b496f6202e77cc7908b6d49081d1e1d72eaf00f25cd98b611ccfbf198520a1d8afa311fba\
    5ab0d060111d52418d0b3cf5c2bdc33acfbb79efa37d5f08fcf02e84b095d899ee06876db822a1156b952e73\
    2682de102b93622ad8fd840fd1157e23a66bf7e2c06aa350b2fda663f4c2c7f3b8c7949c12951494a986a39b\
    5b8ed9954c68e341091f28304ec7f6833de064f8291c903ed291c3ca6870068f4ca24eac613a4341f8283566\
    c9df18cdd2729ecc8eca5cd19c2a3610d722d7f0df50433270a6cddd9405f91013e15c4a9792c80b8017565a\
    cb548bfb8332ae4206665cd270e735109c8f9a7fc731115822956032a509a31caa7e06ced76276d6f24023c1\
    c9466bb6c122bf9e856c5b319fc5d772cde2bddda46d50507edcc6e0c8e3ee0b3ad01961946a91eb69cb662e\
    049a44b52b9e7bcb994f2a12c2967c79a765934fe313b805ba7877862cfae451b8519318a1ba85d7e549d5f6\
    2e76d4d06c15e60086f422d75702e24dec0b38d6103ff2e9b0def4c128f31ef55d245acc60b16ce4cdd29f3e\
    8dca8eb366420bb1afc1bd7c81da49131807a1313fa48279ae2d5837cae5150d6bd2a4ad499058ba08d1b892\
    f28d7846fbe38655e0db3eb3a7220fb38e11bf9ecbd13a80cf65d751700428fecde42e202767c7fa89ca1ccc\
    3b1b499b3fd5c58293d61b65a033c85e726a8668d0fbd0b1ee9c4b0a23d610dccf0845e9d6d86ab91b7301c7\
    43ca42f179c8a954869ba6ba144fd8750770711c6b490ff08e9f9cc629e9db45327028b7a831cb2b6c2a42a4\
    5608d184a59ce4b4c1066a6303dec2351d9f4fc1e04b87831a85a4085d32a46d6399cd84c774cea0fe460239\
    18460ea28f732b57bf1aa23c3fe97d5bf59291d69486639d544e03fe7aab53f1042eda0116d0d6a430e7cd27\
    03774edd0a5bd6f234277d38f096bc61a278a8c1aa3466c378a62b03497fc67a6b02c6c0f01ab58158b636bc\
    104a3484e69f67b093b1cb8e1095745acdddfb2144ff9ac814cd6e49036cd5c41291ff17b910894882b2b166\
    35901191e71498613a52fb3f0cf7deb8ca0cb2d4e7f5ad069962668175447429941258275af2522549214614\
    63016494d0964f69222300dc6d299e66451c66cf9392718988a1ec81d80dc0e8fc5d07386f88a12120b50b55\
    f4b088ec541881778ea5c301a04098bdad23f013604606f3269462c8ab9a09ff057e64d68c50885d2b4349ea\
    87f8e5d815688adfe10e6b67463375276bf465402fb723c80465ff2c01e0b1f57779cff850868a0fe24e3db1\
    de62e2f17dbc02507976b6b2cebf128e1b5294dc26b380e3755295680a64de8a1a70e0c3bcc2fa2adddf6ca4\
    7f8052b70c0a09724ef908fe4f1a52ef5d3e390f96f619c5003ec578caf9cc3ed244c64e8be435262e84fbda\
    794e7b3906db2841f0b344bafc95d32039133e48ce5414f886c0f6b9e55c0c9b2d5f2c96e5d09eb73b59b16e\
    9ed0eaee8861b9ed5aa52d8a2cc5fd093c47779cdbd240ff8034930e89b1f8f91c821528096972c2fcfcdf75\
    4a76de51efb2285c23b0d254b8730a0b901042590964ed8fef700b1bce14e2d032aed5f03d8160863c65ac8b\
    b0f6439c0a8cc2e279f8c145db0849540403be143a906cc21af60df982ec71678eccb7e76b9c63a5d050d152\
    e48a032d7685e41725d0329504b574b8e2f28d93688bc4af3ba4d74286eb921a3765f32755db495f41f04230\
    4d1d1a19863ba3ca51537e61b0bd943a747d63cb8deb24c655b57c6e85d2a2a6c2316258064e9c0e0f05584f\
    211901e06ba645e258f5e2a3294fb454b58977d4b2679f57c88913d513f080459543024d3a4ac6c4a3726c8e\
    3256758cdeaeca2d401f27090d88737c124d61b80cf4daf7c9e7f4aea922d3501cbab56d1535fbfad2d9c3c9\
    7e33867c418154ee66b969dcbe4c2f59737a09924fb9e8cb703b417746b8b9e185941f0851b89bff814ffaa5\
    bcb55096d2081f4bc4745ea4b1c9136443b52570f50b7ae35fcbc78bc4cdbd9008e7fb558110faa69dd041a7\
    2c97bd3d15da3d9a4bddc8f1e591c6d0c222059cce1f7b6666c54c99becf1789be95fc43d2c712a5b79ba434\
    1f4d9d85c33506a862398b23b91818846c348190aed67dda8da10069c39683fca2476ae902efc458f1721699\
    e40fd0db3abe1614977997065e62cb3ab95b3e40af6db04c9033c721855785eeb953a9cc1d3d0ad17cba1e0b\
    b7f628c3d1af66280381d95c4007b41be36965cbc6c77d45cf10a800e8be96f510578e44c2011fd31b4ad34e\
    3f0f18f942038cc6cfd5691adb3f79442f6efbc9643eaa21e576fad4dc93fd931e4725e272777f654ad674fb\
    a7c53fe9b23fa78af5dc959244cd5e95f9ae742a9ad78215328f29cde366c7257ef068a3acb5675baa7b6cb0\
    208ce0ac8ecd1e3898931d97168ab85eca55a700d281283a04a7413d2d11d7966305229c69f49f95e5a4001d\
    98a951cfa9df9923ab0a6286788046f4254899275eccd2e068d13fc9b1ce080abaabc8047b85e64dde28cda8\
    38fe3d2e2d53298b7d743d66ee7c7a099357d33861f0b654fcd5a1d50d704b21833ff9ea92f33489dae7f651\
    846087046013fcd35296c0b5be6e97ab29ec29a5074cdfbf26ab7738a70a9638f0f486ffa8ea26651874c72d\
    15100f5f7d2aa2b2dd9d35a3740ac50f24e02cedd4041f48f0ba4683e9993fa7664559c778565f559e75d42f\
    172fdafd28ba4600ae8d55dd25a7f1fc544a82fd3fd45af2f96f97af0c5817db1eaacfc1061d6d82da52fc0f\
    5471a5f4e306981a70782795709cd5c940a6fa7d5545cc9814a08c849232541b7823039d59f68af11b35827f\
    8ccf0c81d5fdc3f1f572da54e3bddd8408ca25f2654c488f3ffba05fd2eacaa34fd7a1cb9c3c41843d3c9383\
    f8a0b9e4514ca8056d589b5a966fa9a4ab370c98598b64c596e005c0304ecfc19b129a6303814819a80ffb64\
    7762469b04ee98c3cdc2f3655c9aa5fc020a26258bb8b6d5045cdc96eb23b102e3ddc71c928d9433f5b7c632\
    9f0994b46f93a499b48e1fe6919db2f8a1613bad2cf68a9489d28a594fcc5e9eeb27510e0fe5739950d66714\
    e02ff869325b4dac539047bbdf79f0dae10872174078e238615b6f2f1d95d5dc5f07fb9223027feaae4eea30\
    28a2e594352ca063e7a4a2ad798252a56b799cc49c0a9193331f4c795c778c17301f853dfef000d1cfcb8861\
    a5e893aa0ed059356fc5fa4dc93794cbbf96bb788ba953073f7815bce915596da21d17e9a7cb78c54c6249e8\
    e0925545de036da140709fda0e38e36958c798bfaf3644f8bf2c77a21f5329171baff9c70b9d12ecfd1aa335\
    02321c57f7a8dec3c281c6e87a804f2943323cf60ec8052d8d0926afdfac9414558fde9bd4556f5ecb589ad2\
    5f4ee43c0c03786920fc17a09e9386f02f0b9b5bc1a9f2d680d8a448b240239ce4fd28ed181d653a1ce20cd4\
    46b39a13cb8e3c630cbc27c460ab59fe060a635db33be3b5457506d6e57bd892545a583c3f024f20fa057599\
    ef4f23a22859ea72c1b74ef079ce81bc6b85148e71f91b6119ff91cc804caef80c95819ace3bcb32490c8904\
    3492284fe1f083014b7203cff43aeecdaeb32b202302b3e857632f5f33e805a40c74ec7ca7df5ee0936ec00b\
    c73b94f5b9c186cfbd3dfc645ae606f06dc58728532db667c2d827d577bf8aef97e29b7a2bacde96bf9345fe\
    8bef9052d1271a6a8cc84f4576b98e109b0d2229944e07f4d5c444178a894276c9c546c36152dda4fa980144\
    1eace224193349f18b4184f7e73efd2ed3421260a50f8200aea4586ec12d9b869706343fff69eb2a3d5364d7\
    2faa76e949110447de5bef13816b2779747d042c12d994033262a9b01f11d987db1c06caebba713530720d4c\
    2a7f0f47b1a99fb282c2ed8315c122915ecaec562c4bf952040b3f6b730b13b99e18a2c1a17adcb21994cce7\
    ebc5c4f8482fa483344af2543ac7b3a16d291e8793fd5b793bb7a578efaec58059ef42050722b100517bf41b\
    b7aa0e935902ec6aab60244fbc0b81d6ea26be8a84ab894b1dddcce92a0a7662663e426f27740bd4fc933e72\
    33d3ac519a3d6ea8bd78eab4bce85ed105204e2d13a03a495a2122ed2eaba9667b08c28373344a2e0e12caf6\
    7f25cc89e8f3922b803ec0dc228dd2438b23438ea5c992889c6b07700fdd5f0038128442645df4b61b7729ff\
    c9980c4108ed14b5d212809086735b01a81bf4e08465e56ae44cf28c92da1d317d02625820c3c32d8cbc7c26\
    16bea11488cba52a0e9b2c740090b4d212708179c990e1ec518a066a88080ad7e89e7a049dcf84a10e8a8df5\
    1700f9b9ff4f614f6e2a2198720cfa6d37e1ee487a25d3dd67e7b984e56a90320e918d772e236b0216a05fce\
    0d637eb70a0f9a93444ca12b68a018db5e6dd6449a5545db2cd20add96e8d129a9c39213ef68d05b6f53df43\
    c6dda0efa923374827213ed5e5cc92ab1bba4af75c8127e3be91831b742734a09c40d183a47f47e218b49144\
    f00e909ad244571e87304b7be5109d3aae77e5e035ed1d5a66faeb0c7e4799dfe364d6afe742dc62d9fefb92\
    76aebcdc63f88a3cd7014a1231a9ead13c9c5bdc0288eb7e2ac5d73906248cfb85c9ee9ec6d6c2659049a27a\
    0a79176468aabe86d986554399e33603b0c166a1e0874c485744daebb4d9d9749222df500938fee512d22067\
    03131aead1b2f51ae8f5bd82f9f7b4fd0acd64be730d902d42b7e39d031fda41b502feac28f36561719936dc\
    17df68892d133dc6194bd338b9899694cb7a05ee8af3f1667dd037d2e75d88f20a16cdc5609963753606d8d6\
    e5a42490af9bc747a822f48c40a83dffc94b48cda45e4d81bff4a117ab2b115fbe5f53865bddcde8e95f9ffa\
    a16f2943340db7a093a10e384bc78572587a89aadec09926fd1b1d5f501bf5f2e552a00d889bc285d6865678\
    635669f62884f468d5906b132e3daa41df5972bb4a1138de0d860cf258f34a6f5054e9457480d3c2300bf085\
    a34188a4aea5edab2d3ed2a1a11ce024d1b66561818a96f4f237ba34fdfe73ac09198ff5260c88e0f031b042\
    f4375343a71c618d166376598f5b233154b8870fb21c62bebb43ae8547eac038b74c50628facf0d9f61d6fc6\
    88404867d9e837356f7d60c9ae2b70d1aee50ffd3c8bf74295332a9e247c682545b50dfb3b08bf770ad75c74\
    2833db649ab7337ae96f66ec8e0c2970971ce8b42d961d02788e8a59f18eaeb072254454ff7ae1c5e5411f55\
    5863c5b4a12bd4f04e54194888d4fd54018f316c3b441819412a709d500f0c79dfb4d20233d203b335375ecc\
    a7429723749159ab1d794d5328d9bf7756782a1e452939664465ab96cb310042677c37838aee376bcc80258e\
    7444cfb64cafc804ed02c9c80e3bd20a36d22e21a73fc3e9db43d2c81e4c68efb02c9742a36ffcdd8bb420a7\
    f9277c4b71dbbc48ac18b6bad0f2a4c94800afedf30a2fe39adfc0002e06158d64c060bb8e0fcedd9dd80d1a\
    2a07431099d20837305c4c4b37bb92bb99609b1e2658d066932edc586f1cb83ac03c86aaae06aa384e7855bd\
    d0f986d24f9317679a3e0405e46fc4c33eac3187db74666e87fc0a4b0b10674230299a5a5de2a8fb81f88650\
    53521e6fbfea65db21373853ba99e860607c07164790b742042137aa5ea86431ed5656dedfa6ae75996eceee\
    5cea5c185254443089181177ba4a65e5190155bb3af1de6f1faf858b3e90b0ddfb17a9ba002b8de7dede1a55\
    f072f901a2f510b4f5fbd2d8524c84d3bc599b063ecb2bd6ffe420b0be9b22a458193c99a0fea0200423709f\
    8ab994151a3cbcf2b75848abb180559eedc70c78b01957282108ae307647ae274f6b43cd47665ca4da1d8bef\
    2618516bd78c7dda4410e47c7f1bffcf216340109636390c853f0051f62061fb9034caded0246f71c9f0d569\
    25dfa044197d94e79f2ab93fb4cf3aa18c01c1c3e16094425877a4a2f3705f35b158e13015df00db94dbb9de\
    bc530ad1e1a22610209842aa739817be14eb477357c0245aaefc0394c394a424005b76f541b22cec501eb2a4\
    6a22c0a3fd8a76854db9e5a1d52c513957e4ebe0630234a3d40d30b82f35c58eeb502cbb865089cea0af880b\
    2ce8916d94a9e725a51a17df0c99c814d781d096e3426ded04828993c9f391c6633456b2b923b2e922ff4189\
    272a6e504078bf9b3e2ff0830bd5f663a7666b84a435ae9c47703c08ceeac9a368f8b4ac9ced9668319ec61e\
    618dc315d08cca313d345cb7722d4c1336e6ce94aa7e59e6142729ca1b40ea26c296acd6cdb62e8e76ba2365\
    73ec9025b0e8900cad829175316df29e1661f957624b8a6456c823102bf9cb52b9a3e22b79c6558fd8248588\
    6b4aeee725ac781e10bd2d4c618dd2705492f58fcf56e140f7e6f5ce8ae5012164e42d435c0cc5d077e694fb\
    4ba32dab86166616b673714cbeca7f42897ea189647052d772700757d91f3e55c61834e92d83183476973b43\
    53c2940cf9c87be93988b288edf5441495b69a4b7f05ac97019788d145cd69b4df9c544274b61bd059f4e740\
    36515c0d8261ad08d2c970cba9268bf029683c7d1fef5f8c21ad54e84e542914e821a37103c228817b0e1ac7\
    f5dc4951fc5c8df1266e4272355471c704da406158d04d7a212e118a09e5bc8c04b6630d42f4d75794ac025e\
    73da2564f306684dcb7f84f0628a68c29ffc2eb70604ac8ba5121ff084b671e12a9f8c46ca2f04943b880570\
    e82a82252aba823d8a33b262237f68df52fb72e9b1af52af5cc2e6bd8dec560f5a308b3e2094897f3a837bd3\
    c43dd82c13878d94893d0b673d4a2687315b44ae721b67a47149dd89ed474a74231160ecd1eae16a59337460\
    9fdf60f42ac3c20138800934262223becec873fef05b6657bfd55e60dae3865cc650497e246c0b25aad922b5\
    4ce733073239db74c0242e874d6ee912595e96a6778e8728ea63d80d8168bf5b330da6d51321306b0390b0d0\
    dd342bdb290b61626f12b92b28309892219fe5571ea5006851fa20517ab33dc6953a2bf074a1a6bd05818f9b\
    2d4cf88128706ef35018b046b055c47c21707e85354bd7048c18b765c8b9eec21b1f86a5273be0a90692dc7c\
    0df03919c51b6efda12157cef2613b24591734eae810218260bd30149ede115e45af01e5521482aab6fbe08f\
    e99d672df7a9090809b1304c0e2ce8a327507a515e602b65aefdb571517a61e0babadc4b908f7802ca6a7e5b\
    4c304d9a32a7328f9275ecbab98fb972da00e04d2e7b14ca275ee3e41b8ca2b445132f8cc047b5ac14e29453\
    e3c25205e49be979ecf780ee92fd3b9c08ac2e79ed391d00a03d96e2cd0e1229d54aee85b8d66ff95b83538f\
    11ae8aa5f91421a2f605123d575519938679a48b64c394ce5b216fc425ef938b9359ea2c2855343c48beb57d\
    0e7f42ca41e821a9c85b1fc6359a719d568523c34f0d426019dddee730ec5002b10fa5acdc1ce57e47c90a6c\
    ed58b47762d99b2e3ccd04c0fea8acd88ad6915c5b33ad9e73096568752c54ce171ee4591dec7da7a6a51368\
    3ad1c7652401f00d4d595d542d9923a19a367e412ca44ae71f080a780e9d38673b8edf9832418bb21c39938e\
    15aed7bcd534bc688e642ecd0bcfa717484c6fc20c82e057c57ff0a128bf62db40a693f899b6c6b93037a6c4\
    c3a3148872bac819df9fc9b78ac1fb0676f78ff9987d2b1b4fe98f19366e4d1827a92d06f354efe326d8b261\
    74dd28e1feb93635eaaeb4e67563dd51cd062104f39d2099810ad590b74f1b8470f2c163859cd18239fc349e\
    8c47ac3eddf9ec53d66d3e2901ff4eb822cabd3b0af019bd0980d45ca4806e5f02dd9537d71da563232c7c65\
    3e7a3b64145513f8075f0d504580d5d7686e70fcb7308e0471dfb85b3fd4610175f5ed7d690010446815335f\
    511044c55fbf4abeacb02703df7b8c26bc0ad68b14e8dbb282b64f022e316be6ec2baf234d5b614dfbfd4837\
    84f9c1d9859c5bd634b983e7da3ddbd1a061607f1b88f2b10569c6dae217cac70a9a6a871a6a83572495b8f6\
    4b56560693f30dad12b17335a45fc58a3a5508d7729eb8a03c877d59bc5ec83d89207ae865265083f5c436a6\
    9efbf90c089de73196630797e99b05528aeb57a133d434ebf8e856a7e63093019ffb42b8d71d74d16ba7c4f5\
    d74994e53fda1ce190107b0acc652246238f02e6e287f0608fef55e6d3123d7d18c9094d59ed392e9343d068\
    f8d1d5aa77541a64dedf27720d0d10c86d862908535087d98151ff95674cae658aa631a701b1003d3ecdecd3\
    795db93b62b16badb7b8f4f59aec7a3d77fb57fe83716016e5c30e9e5f509f884f47cb0584922591573e481f\
    1191482a4c8e95e1f7253214102f252321db604068a5ce5e1fc5004e152089218eb27a1ef0615fc24816e732\
    88a8d1f802044513466de4c978e9366935c4c4888871df2b3a74a3b951355124d824139b2a602588d0ede4fe\
    447d8de052baf46fa1e05ae085c6c4af02f4250a19df3f54ff4deb23dcd36a068fdd2e74552a3e5943fe473d\
    0c292c68b745783f48ffaaa0cbf2e15d762fce6550a5b784a9a1bf2e4f29bd3dfe48dc36a1409b737e333fbf\
    d39b0a6803381263e6c3c8965fc6a5cea6bd79a6ad56349bf432801241d2d2950fa47a4cfc9c85d2c0cf3a11\
    e928e1240725de40abda24dd430752433ac04a6f0e127609914ebebe64c6fbc9c675306feb2d2c45f5a4c43b\
    44d347e0b62ded6c368c0f9cb9d9c9eb2ff311e4c2272d0c788e9ae3058a27f447be8019643e0b9192938603\
    7509ebca7c7e81c0853518c0b960faa0920349494627ee95fadf4214611eaaa589977c79fd1380eabce391e9\
    ba3957085ca12f272bcd2d15e0012f6a91c35ff717d59787a0732cf4908252e35d710d69989103390dcbf856\
    4eb9564753beb9058ba6b0f4f6696ef5e5920e203c84d441b2c3360d6791ffcb71ebf2823c6a61a438eca3bd\
    dd337b803933e2b5a4d6bf9e715a1e16c7dd21dae02ca461483bc12f84b85e477b8a6218e36aefbb6f56579d\
    f609bf19cf0a4702003dc6d272673c8847b5f8571e386f2406b20a4710e73a20078e03dd01028dde0d4d1596\
    e26621164f33dead452ec9a4edc160489909d440c72523f48046e22cec17a4b560d4ca355e81d8781b9065f4\
    4ef7d29c59ede88e75c0e31a1d8e44ec2f26c46914aa8de320d974de22dbb55f08da4ba0d06e61a42e944c5c\
    08949461cfa77fb58b66f1419246587237bcea342a11da4023b1e767fa9325ebf290c83769b6a182400a18d9\
    8204a8d257c48cbc62285c37ce89aca87e4176e947c910ddc38282e531050b3b0c31d049bcdf5aa18ae8e4a5\
    a031e10caca8d2ba72393d5479137e9a3e317fb49b558679ef3804ac9f1888493283f3b84e6e60423c97b556\
    a03f60b8c8da0ead4777828e82eace66a1019b0284edf2b11b7a10200aa5927b6047819b049b42c684ca3ae9\
    6509f2642bcec718734169a832b429be2ef9b0f2e7fa98bd7a49b9ed9ae2efc460dfdecbdcf63533a436b362\
    83e8054027f9aacd74f291f71445ff0b9dd6ecac34ef5911774c828baa2570999030acb6ec063b96ce6846e4\
    e14e31e36e05a5a1fa469d8c4204a4affc1bdb8af49c44d4182f7f8434707d4f9c233aa89f47b76e079a177a\
    f74f022f6940cffa6470d32351a133afb6c1cd79760bb9b7ab83f2474d45784cfc726fcd55497f39973b5667\
    763011ebc616615bf975309b81e036ad93c52e7e768c8216f4992079bb1ef8872fd0be1f6175a521759a9793\
    990f490197b51d8cfff58151a8a3e84f7a099a58d408619b4b1136865c7735db8ec8733388650227880715ed\
    800517fa52a08158a0a777aed78dcf9cc55a33d73ca11de7f673769fe57e75ab2e339fddc6ffc3db4064f8cd\
    abba3e461337eedd6ffcbf925146dca328d076a44e3efade1f314325dad467458edc2196aa1d3220a1ec0ed0\
    70a943b698a24b00b0b64421352ac63aec501a60834a653256d7d2e95de1c1e034620098bda9faace6695592\
    cdb1bdd539c69d518f6889cf62bd875eeba777a8c88975f824b5fe11380430ae0717a734f13aec07e72b0803\
    d380e795cda8ef922fb2212feb02acc3a5f8ea20e2fdb8399c2c4e80c1d91627f3a3b2160f45de37b8d9fd0e\
    0c78e255259c0580a7fb69a62b6ba53388eedd31d1dcf141644f404d351b5d91c891c9b43193a9cd2bbdaa8b\
    a2cdb199b118a763b23da32347d57c61fccc20609baf57403f5dc197568246172fe5080bde871ded515193b4\
    13394291a13f71fd221250c78935f9f0d2bc8c26cc767a42b28cf0f215f471bb5f61b5bc46b9c132ab37e5c6\
    fdf54317ccfdab871e38f9edb860165a47849f7906941efb545646813621cfab2f56fee5c1a157f88bac54ed\
    ca1f3c2604fc95840d90d16e3cb4ae18a79d73d83de35bc689494b8f1cc681a39c5404f165c69ad13a4f43c2\
    468bca7ab766840a69571a104587d4121133ba0df86aa64ef882e257c73a2c671971dee50b03a7a8270490c5\
    d0f169adbbabcedcb1bd4f4d4964d7564a1ebd5c5b2cdd21cf25a775818ff5a2a81e5f09b5e6e752334ad393\
    69ef4f096eda0e32324fd8226f1cbdfbda27619f69621d1fb6c6c3c51d10946b5831986e76b52add7280bb88\
    909e8725d733155d93fa01f5d5bfb0b462f7a00299efdb092c363ea8d9159e08918ecfcf41488c40efcf953a\
    45e4cf6655ac9dba053d26e6d862a4fa262be670147844277877c0a56262bfbf465696ed19dcdc9c998a4a00\
    7157fa4636752581ce5b9a6902a46ace6292bafd360c663c6de9ceb0aae985ba31e6d5cc0f8a3d6556374d58\
    4fa0682746212744f1053dcbc1726e34a48b1700e4cdae34c49b06710801828eb1d35295982d3b840a4b5f5e\
    452890746b7d1cc29b581b1070b89d5fd8468b8a4e84da061d3839d978f49159d33f472893c87c116fd10055\
    d4749b6e98ac0a7058df5d51dd07d76581274f0035ce56c3b7de3c3ede2043b9a51f8008aa6b760ef6557eef\
    f4e25238348405923fc98c180652a22cc74a353cca8fbcb788bdf304c0d1c93e355c68d6f4a53eb9d7462062\
    31617f4f4bb60fe61333aaaea92dfd34212ad41243c02e021be2b2edcc48769e6dfcd29c613307f79c18a747\
    79ed0eca727f88a827aa34af05dc8b7e783830261f45863170e99d48d50803d405f4d6d7d63fed33b6533e9f\
    b9e36c87b1fc2c2cf878d074553acf990c09155079fe7c73f1317386463c246289de5c510eeba569d7dc426b\
    be8bf78df3b900463cf00bab7627e08988d844dcf7538353ba2297fd76ec8c3ce209301ef2ecc89db3ad5c1c\
    268f8b26616876fe23322af49e84f170edc46a31883de9941d951ee046358546d6a995f50688a47a38986f60\
    b3cc295d2acc3669d3dbf95f1af41c9565f540b497fe7791e9ceb9a56748205eb5acd325ca07b9a307dc723d\
    1ff6e11791624a90d8b34b48a68d5bbfd0e71f11061bbcb9eb14a21fd926b86b9437eef89cdc7b630451ad40\
    2145c6d22403a9cc923208bda09b3d8c9a88daf117a558bf059335bc185deaae9302fcd52c3ab28db583491a\
    3cb199d1f8943dbadd1470e501c973f1d08fc325a6e3ae9a6a9ea4e6ef37023d02a44daa57cc00b40a8ac844\
    8941e24e8d107cb7259a241e279d12fe876bca87c5117ab56515ba04a11d0b90bf1440af11f7aa00ed7db7f4\
    1daf8ce7967504d1a4f40b397641f23bbe44e4db1c0e6f7bc5ab4412a08cb9f1a7ced84834c240276fa3a0c7\
    9effb0b94b135f857553165786eb1601066c020ebd47c46cc79f214aee3a8ae42700617fed2c3602dbd6641e\
    7a408e9850858a30bc6f4436280ff14413e9582df7763b9ca561dc0170fb152ba51d32847ff84af5fc63ff5a\
    116b469455e76f0340dd06b6dfc198a3c35e05bfe4bd4e5fd52e24c0b873fa02a0fd797f7894d439582e7a98\
    016342eeab9fbff9aa20f5ba0097db03a63be79993519d3822a4ffcab0b333e0ddac4fdcfae8dd7c10a30667\
    a5dddbfaacda737f976f58946ff0b51e303531510b3641fa9b4c2d112774613f1939f4690cbf10e80dd52719\
    49c61012aaf1db82bce58049fdc2da9150cf48582f8e2e39f9478fc2ecbe8947098ef7fb3ac2c58253cfdd72\
    2f0af8069676f86e723996395def9d417a06efd576120261ea1727fd5177b775290a9040600579b4c0301f47\
    2b97a7a884d5538ee52732ee1e7bdf723c05b1f281e015ef909ae01a435b20d217479f1b54271f3a78663ca9\
    13cbb780a10776a606a187a4879660af277aaa5b6bdb1891fc35fed40b2db2da1852f886e765ec6fba0dea12\
    806a15e3e2262d7bdf6159b080a509da02547c2c7e781a35dea06618144523fc52a20a043a63f4856e009051\
    3167c6870f087a5c7e3d157526268df1dd4bf6ef379515cfcc22a6ccf58efeb064a22b822f353595801c78df\
    f5326130d4525b239761cb72b3164b0b18de7200a83dda55497ec60400c6c402016886d7cf2772000452f27e\
    7260fb6b309e3e61d5be120630e661f3321af701cce9e8f30f18933f8984f17ee4517207";

fn mixed() -> Vec<u8> {
    let mut all = text(4000);
    all.extend(noise(3000));
    all.resize(12_000, 0);
    all
}

fn several() -> Vec<u8> {
    let mut all = text(60_000);
    let mut back = all.clone();
    back.reverse();
    all.extend(back);
    for _ in 0..20 {
        all.extend(noise(100));
    }
    all
}

#[test]
fn zstd_reads_text() {
    assert_eq!(decompress(&bytes(TEXT), 0), Ok(text(1500)));
    assert_eq!(decompress(&bytes(LONG), 0), Ok(text(20_000)));
}

#[test]
fn reads_mixed_blocks() {
    assert_eq!(decompress(&bytes(MIXED), 0), Ok(mixed()));
}

#[test]
fn reads_several_blocks() {
    assert_eq!(decompress(&bytes(SEVERAL), 0), Ok(several()));
}

#[test]
fn reads_without_a_checksum() {
    assert_eq!(decompress(&bytes(TINY), 0), Ok(b"tiny".to_vec()));
}

#[test]
fn frames_follow_one_another_and_others_are_skipped() {
    let mut raw = bytes(TINY);
    raw.extend_from_slice(&[0x50, 0x2a, 0x4d, 0x18, 3, 0, 0, 0, 1, 2, 3]);
    raw.extend(bytes(TEXT));
    let mut expected = b"tiny".to_vec();
    expected.extend(text(1500));
    assert_eq!(decompress(&raw, 0), Ok(expected));
}

#[test]
fn zstd_what_is_compressed_reads_back() {
    for data in [Vec::new(), b"x".to_vec(), text(5000), noise(3000), vec![1u8; 300_000], mixed(), several()] {
        for checksum in [false, true] {
            let packed = compress(&data, checksum).unwrap();
            assert_eq!(decompress(&packed, 0), Ok(data.clone()));
        }
        assert_eq!(decompress(&compress_at(&data, true, 2).unwrap(), 0), Ok(data));
    }
}

#[test]
fn zstd_text_gets_smaller() {
    assert!(compress(&text(5000), false).unwrap().len() < 2500);
}

#[test]
fn zstd_written_in_pieces_reads_back() {
    let data = several();
    let mut writer = Writer::new(vec![4, 2], true, 16).unwrap();
    for piece in data.chunks(10_007) {
        writer.push(piece);
    }
    let out = writer.finish();
    assert_eq!(out[..2], [4, 2]);
    assert_eq!(decompress(&out[2..], 0), Ok(data));
}

#[test]
fn zstd_read_in_pieces() {
    let mut r = Reader::new(bytes(LONG), 0);
    let mut out = Vec::new();
    let mut buf = [0u8; 777];
    loop {
        let n = r.read(&mut buf).unwrap();
        if n == 0 {
            break;
        }
        out.extend_from_slice(&buf[..n]);
    }
    assert_eq!(out, text(20_000));
}

#[test]
fn zstd_a_wrong_checksum_is_refused() {
    let mut raw = bytes(TEXT);
    let n = raw.len();
    raw[n - 1] ^= 1;
    assert_eq!(decompress(&raw, 0), Err(Error::Malformed));
}

#[test]
fn zstd_other_data_is_malformed() {
    assert_eq!(decompress(b"nothing here", 0), Err(Error::Malformed));
    let raw = bytes(TEXT);
    assert!(decompress(&raw[..raw.len() - 1], 0).is_err());
    assert!(decompress(&raw[..40], 0).is_err());
}

#[test]
fn a_table_of_counts() {
    let t = fse::Table::from_counts(&[16, 15, -1], 5).unwrap();
    assert_eq!(t.size(), 32);
    assert!(fse::Table::from_counts(&[16, 15, 2], 5).is_err());
}

#[test]
fn every_symbol_can_come_before_every_state() {
    let table = fse::Table::from_counts(&[16, 15, -1], 5).unwrap();
    let e = fse::EncTable::new(table).unwrap();
    for symbol in 0..3u8 {
        for state in 0..32usize {
            let mut at = state;
            let mut out = BitWriter::new();
            assert_eq!(e.encode(&mut at, symbol, &mut out), Ok(()));
            assert!(at < 32);
        }
    }
}

#[test]
fn the_format_tables_build() {
    assert!(Predefined::new().is_ok());
}

#[test]
fn frames_of_nothing_and_of_runs() {
    let nothing = vec![0x28, 0xB5, 0x2F, 0xFD, 0x20, 0x00, 0x01, 0x00, 0x00];
    assert_eq!(compress_at(b"", false, 32), Ok(nothing));
    let run = vec![0x28, 0xB5, 0x2F, 0xFD, 0x20, 0x04, 0x23, 0x00, 0x00, 0x61];
    assert_eq!(compress_at(b"aaaa", false, 32), Ok(run.clone()));
    assert_eq!(compress(b"aaaa", false), Ok(run));
}

#[test]
fn a_changed_checksum_of_a_frame_is_refused() {
    let raw = compress(b"something to check", true).unwrap();
    assert_eq!(decompress(&raw, 0), Ok(b"something to check".to_vec()));
    let n = raw.len();
    for k in 1..=4 {
        let mut changed = raw.clone();
        changed[n - k] ^= 0x40;
        assert_eq!(decompress(&changed, 0), Err(Error::Malformed));
    }
}

#[test]
fn cut_frames_are_refused() {
    let raw = [0x28, 0xB5, 0x2F, 0xFD, 0x20, 0x02, 0x11, 0x00, 0x00, 0x61, 0x62];
    assert_eq!(decompress(&raw, 0), Ok(b"ab".to_vec()));
    for k in 1..raw.len() {
        assert_eq!(decompress(&raw[..k], 0), Err(Error::Malformed));
    }
    let size = [0x28, 0xB5, 0x2F, 0xFD, 0x60, 0x00];
    assert_eq!(decompress(&size, 0), Err(Error::Malformed));
}

#[test]
fn bits_come_back_in_reverse() {
    let fields: [(u64, u32); 6] = [(5, 3), (0, 1), (0xABCDE, 20), (1, 1), (0x12_3456_789A, 40), (0, 7)];
    let mut w = BitWriter::new();
    for (value, count) in fields {
        w.add(value, count);
    }
    let raw = w.finish();
    let mut r = BackwardBits::new(&raw).unwrap();
    for (value, count) in fields.iter().rev() {
        assert_eq!(r.bits(*count), *value);
    }
    assert!(!r.is_exhausted());
    r.bits(1);
    assert!(r.is_exhausted());
}

#[test]
fn a_repeat_is_three_literals_and_a_match() {
    let data = b"abc".repeat(10);
    let expected = bytes("28b52ffd201e4d0000186162630100866e08");
    assert_eq!(compress(&data, false), Ok(expected.clone()));
    assert_eq!(compress_at(&data, false, 0), Ok(expected.clone()));
    assert_eq!(decompress(&expected, 0), Ok(data));
}

#[test]
fn a_block_that_does_not_shrink_is_kept() {
    let data = noise(40);
    let mut expected = bytes("28b52ffd2028410100");
    expected.extend_from_slice(&data);
    assert_eq!(compress(&data, false), Ok(expected));
}

#[test]
fn searching_deeper_is_no_longer_on_text() {
    let data = text(40_000);
    let shallow = compress_at(&data, false, 1).unwrap();
    let deep = compress_at(&data, false, 64).unwrap();
    assert!(deep.len() <= shallow.len() && shallow.len() < data.len() / 2);
    assert_eq!(compress_at(&data, false, 0), Ok(shallow));
    assert_eq!(compress_at(&data, false, 32), compress(&data, false));
}

#[test]
fn however_a_frame_is_cut_it_is_the_same() {
    let mut data = text(300_000);
    data.extend(noise(100_000));
    let mut once = Writer::new(Vec::new(), true, 8).unwrap();
    once.push(&data);
    let expected = once.finish();
    let mut often = Writer::new(Vec::new(), true, 8).unwrap();
    for piece in data.chunks(33_001) {
        often.push(piece);
    }
    assert_eq!(often.finish(), expected);
}

#[test]
fn two_frames_with_one_to_skip_between_them() {
    for (first, second) in [(false, false), (false, true), (true, false), (true, true)] {
        let mut raw = compress(&text(2000), first).unwrap();
        raw.extend_from_slice(&[0x50, 0x2a, 0x4d, 0x18, 2, 0, 0, 0, 9, 9]);
        raw.extend(compress(&noise(500), second).unwrap());
        let mut expected = text(2000);
        expected.extend(noise(500));
        assert_eq!(decompress(&raw, 0), Ok(expected));
    }
}

#[test]
fn what_frames_hold_before_a_fault_comes_out() {
    let mut raw = compress(b"sound", true).unwrap();
    let mut bad = compress(b"broken", true).unwrap();
    let n = bad.len();
    bad[n - 1] ^= 1;
    raw.extend(bad);
    let mut r = Reader::new(raw, 0);
    let mut buf = [0u8; 64];
    assert_eq!(r.read(&mut buf), Ok(5));
    assert_eq!(&buf[..5], b"sound");
    assert_eq!(r.read(&mut buf), Err(Error::Malformed));
}
