//! LZMA in its containers, and the filters that go with it.
use ttarchive::codecs::bcj;
use ttarchive::codecs::bcj::bcj2::Bcj2Decoder;
use ttarchive::codecs::bcj::Converter;
use ttarchive::codecs::lzip;
use ttarchive::codecs::lzma;
use ttarchive::codecs::lzma::alone;
use ttarchive::codecs::lzma::lzma2;
use ttarchive::codecs::lzma::syntax::Properties;
use ttarchive::codecs::xz;
use ttarchive::{Error, Level};

const WORDS: [&str; 12] = [
    "the ",
    "quick ",
    "brown ",
    "fox ",
    "jumps ",
    "over ",
    "lazy ",
    "dog ",
    "archive ",
    "stream ",
    "\n",
    "0123456789",
];

fn text(n: usize) -> Vec<u8> {
    let mut x: u32 = 12345;
    let mut out: Vec<u8> = Vec::new();
    while out.len() < n {
        x = x.wrapping_mul(1103515245).wrapping_add(12345);
        out.extend_from_slice(WORDS[((x >> 16) % 12) as usize].as_bytes());
    }
    out.truncate(n);
    out
}

fn noise(n: usize) -> Vec<u8> {
    let mut x: u32 = 1;
    let mut out: Vec<u8> = Vec::new();
    while out.len() < n {
        x = x.wrapping_mul(1103515245).wrapping_add(12345);
        out.push((x >> 16) as u8);
    }
    out
}

fn bytes(hex: &str) -> Vec<u8> {
    let digits: Vec<u32> = hex.chars().filter_map(|c| c.to_digit(16)).collect();
    digits.chunks(2).map(|pair| (pair[0] * 16 + pair[1]) as u8).collect()
}
const ALONE: &str = "\
    5d00008000ffffffffffffffff00309c888a1c4180a9792603fdce5e67dc6ece127cb3425a4f71c3e5c90b05\
    575d905d6abc4808f19f49eb2e7155ab5e331b48b5bd7887d13605d31255914d10ffee1a5e182199b04c3c03\
    5d83775ba7cf70dc021722ebea1e08c5b9627cd247f3c1ecdc171c0a10f092cd82fd52a16a5d2a90c8585088\
    c8509bfc56137d27eff056a5d6c3068b3b3cbebff1c0c0781a52e69d1c1a8d00ac1b170cb3f3e70513214aa8\
    d8654b8b515d03193198b5d909c5f56ec92ad93d3a9ef3ab2dd5c5267a40587760358de61054c65409ce0dac\
    a881316e4b9a3d7943883738528a55717eff41d955d716c172008f6ddedb608c5ccf38e5c23aad28247e0841\
    4478bef1ca37fd0ead1757b4a543cf3cb41261d4ed7ab2675ddbd0c201f2434100471b413c51be29c0d01d4c\
    81975b5f6dac60f8a7d5b851a517465098b2a39ec2d3825890ff013e3aac0d3ce6fd5d50902301b817fb2b44\
    e99ef7ebd2d6eb11d02063523f4ecf27e98f0f3729efe148349251ffff8215ed64";
const ENTRY: &str = "\
    091405005d0000800000309c888a1c4180a9792603fdce5e67dc6ece127cb3425a4f71c3e5c90b05575d905d\
    6abc4808f19f49eb2e7155ab5e331b48b5bd7887d13605d31255914d10ffee1a5e182199b04c3c035d83775b\
    a7cf70dc021722ebea1e08c5b9627cd247f3c1ecdc171c0a10f092cd82fd52a16a5d2a90c8585088c8509bfc\
    56137d27eff056a5d6c3068b3b3cbebff1c0c0781a52e69d1c1a8d00ac1b170cb3f3e70513214aa8d8654b8b\
    515d03193198b5d909c5f56ec92ad93d3a9ef3ab2dd5c5267a40587760358de61054c65409ce0daca881316e\
    4b9a3d7943883738528a55717eff41d955d716c172008f6ddedb608c5ccf38e5c23aad28247e08414478bef1\
    ca37fd0ead1757b4a543cf3cb41261d4ed7ab2675ddbd0c201f2434100471b413c51be29c0d01d4c81975b5f\
    6dac60f8a7d5b851a517465098b2a39ec2d3825890ff013e3aac0d3ce6fd5d50902301b817fb2b44e99ef7eb\
    d2d6eb11d02063523f4ecf27e98f0f3729efe148349251ffff8215ed64";
const LZMA2: &str = "\
    e005db016d5d00309c888a1c4180a9792603fdce5e67dc6ece127cb3425a4f71c3e5c90b05575d905d6abc48\
    08f19f49eb2e7155ab5e331b48b5bd7887d13605d31255914d10ffee1a5e182199b04c3c035d83775ba7cf70\
    dc021722ebea1e08c5b9627cd247f3c1ecdc171c0a10f092cd82fd52a16a5d2a90c8585088c8509bfc56137d\
    27eff056a5d6c3068b3b3cbebff1c0c0781a52e69d1c1a8d00ac1b170cb3f3e70513214aa8d8654b8b515d03\
    193198b5d909c5f56ec92ad93d3a9ef3ab2dd5c5267a40587760358de61054c65409ce0daca881316e4b9a3d\
    7943883738528a55717eff41d955d716c172008f6ddedb608c5ccf38e5c23aad28247e08414478bef1ca37fd\
    0ead1757b4a543cf3cb41261d4ed7ab2675ddbd0c201f2434100471b413c51be29c0d01d4c81975b5f6dac60\
    f8a7d5b851a517465098b2a39ec2d3825890ff013e3aac0d3ce6fd5d50902301b817fb2b44e99ef7ebd2d6eb\
    11d02063523f4ecf27e98f0f3729efe148009b1400";
const LZIP: &str = "\
    4c5a4950011700309c888a1c4180a9792603fdce5e67dc6ece127cb3425a4f71c3e5c90b05575d905d6abc48\
    08f19f49eb2e7155ab5e331b48b5bd7887d13605d31255914d10ffee1a5e182199b04c3c035d83775ba7cf70\
    dc021722ebea1e08c5b9627cd247f3c1ecdc171c0a10f092cd82fd52a16a5d2a90c8585088c8509bfc56137d\
    27eff056a5d6c3068b3b3cbebff1c0c0781a52e69d1c1a8d00ac1b170cb3f3e70513214aa8d8654b8b515d03\
    193198b5d909c5f56ec92ad93d3a9ef3ab2dd5c5267a40587760358de61054c65409ce0daca881316e4b9a3d\
    7943883738528a55717eff41d955d716c172008f6ddedb608c5ccf38e5c23aad28247e08414478bef1ca37fd\
    0ead1757b4a543cf3cb41261d4ed7ab2675ddbd0c201f2434100471b413c51be29c0d01d4c81975b5f6dac60\
    f8a7d5b851a517465098b2a39ec2d3825890ff013e3aac0d3ce6fd5d50902301b817fb2b44e99ef7ebd2d6eb\
    11d02063523f4ecf27e98f0f3729efe148349251ffff8215ed64330d7777dc050000000000008e0100000000\
    0000";
const XZ: &str = "\
    fd377a585a000004e6d6b4460200210116000000742fe5a3e005db016d5d00309c888a1c4180a9792603fdce\
    5e67dc6ece127cb3425a4f71c3e5c90b05575d905d6abc4808f19f49eb2e7155ab5e331b48b5bd7887d13605\
    d31255914d10ffee1a5e182199b04c3c035d83775ba7cf70dc021722ebea1e08c5b9627cd247f3c1ecdc171c\
    0a10f092cd82fd52a16a5d2a90c8585088c8509bfc56137d27eff056a5d6c3068b3b3cbebff1c0c0781a52e6\
    9d1c1a8d00ac1b170cb3f3e70513214aa8d8654b8b515d03193198b5d909c5f56ec92ad93d3a9ef3ab2dd5c5\
    267a40587760358de61054c65409ce0daca881316e4b9a3d7943883738528a55717eff41d955d716c172008f\
    6ddedb608c5ccf38e5c23aad28247e08414478bef1ca37fd0ead1757b4a543cf3cb41261d4ed7ab2675ddbd0\
    c201f2434100471b413c51be29c0d01d4c81975b5f6dac60f8a7d5b851a517465098b2a39ec2d3825890ff01\
    3e3aac0d3ce6fd5d50902301b817fb2b44e99ef7ebd2d6eb11d02063523f4ecf27e98f0f3729efe148009b14\
    000000003e4e9872769f810800018903dc0b0000dd029dddb1c467fb020000000004595a";
const XZ_CRC32: &str = "\
    fd377a585a0000016922de360200210116000000742fe5a3e0012b007d5d00309c888a1c4180a9792603fdce\
    5e67dc6ece127cb3425a4f71c3e5c90b05575d905d6abc4808f19f49eb2e7155ab5e331b48b5bd7887d13605\
    d31255914d10ffee1a5e182199b04c3c035d83775ba7cf70dc021722ebea1e08c5b9627cd247f3c1ecdc171c\
    0a10f092cd82fd52a16a5d2a90c8585088c83af07b73f43f00000000d4b91bb600019501ac0200004e08a7b7\
    3e300d8b020000000001595a";
const XZ_SHA256: &str = "\
    fd377a585a00000ae1fb0ca10200210116000000742fe5a3e0012b007d5d00309c888a1c4180a9792603fdce\
    5e67dc6ece127cb3425a4f71c3e5c90b05575d905d6abc4808f19f49eb2e7155ab5e331b48b5bd7887d13605\
    d31255914d10ffee1a5e182199b04c3c035d83775ba7cf70dc021722ebea1e08c5b9627cd247f3c1ecdc171c\
    0a10f092cd82fd52a16a5d2a90c8585088c83af07b73f43f00000000e83ab2c40ebe0b91448e34a43549b8a2\
    bbc4f7766befb9d7b9684311c7a04b8a0001b101ac0200006e4f9a2bb6e9df1c02000000000a595a";
const XZ_NO_CHECK: &str = "\
    fd377a585a000000ff12d9410200210116000000742fe5a3e0012b007d5d00309c888a1c4180a9792603fdce\
    5e67dc6ece127cb3425a4f71c3e5c90b05575d905d6abc4808f19f49eb2e7155ab5e331b48b5bd7887d13605\
    d31255914d10ffee1a5e182199b04c3c035d83775ba7cf70dc021722ebea1e08c5b9627cd247f3c1ecdc171c\
    0a10f092cd82fd52a16a5d2a90c8585088c83af07b73f43f0000000000019101ac020000584a362ca8000afc\
    020000000000595a";
const XZ_X86: &str = "\
    fd377a585a000004e6d6b44602010400210116000d86351fe0030001795d0074053fe00c1e2955a1e00b9165\
    2e644cf2a91999afe14f2d53d05d4b994ea15cf64a5c5232a6964b9509770841f5557383043ee8a1532d1788\
    c1d7fe67dc92ff2e10c6a12dfcea447e94522845c82dadb7c2821e4efd2accd71a875ae1713a546430bb85dd\
    5532768eafe3e8983ed4df7859596a7679b3be3e418ee175a86509f3fe9a0975b8f3a3d413128076bab70678\
    4548a65cb113ec49dfee2ea733fcefd334791ffa927d262ba0fb16d29272edfede6bdc059bdbd257961897b1\
    5f8644c3e0b24c0b56538ce84de64b4a77ca9d7904bb5530180f16588992df0684f16217b212130ab52dc58b\
    cd236f5b94850068b18dd65ccd05b31c4526cfb0107b5ae3093698814e80c729a33e2982601540982fd7730f\
    0c0feeb4fc5e7bd3f5fbe7fca5fea776690907b26e146557662b6af581f593352598b008bdd89e74ae581515\
    2415c877b5f858b42d02f1a522cd2002d224b2f0ec91dbf95bbd59fa5e2bf0d3f6e19c756e410ae21e8a383d\
    0f9ef2eb2e06bc9bb746200000000000f1214f84dee46d35000195038106000011843698b1c467fb02000000\
    0004595a";
const XZ_DELTA_ARM: &str = "\
    fd377a585a000004e6d6b446030203010207002101160000fe855f73e0030001e85d007403ffe17b7d49176f\
    cb9c930d161ed2f56522da32c03d0c7ccff10570c46f865a6c1ba12c760b79b0f420d6ac6bd8a193cfb86629\
    51a58be6225cc9f5f52ca2efd8400e388849b480dac2c162f088c494bd7a00ace8db420028a2537b17bba5dd\
    e11f8e0e050312362876a13d21b7cd25c166a7f51becfc61ce400f620c3d283871f84dabd5542a982e1b900b\
    7ee8a49355e1b8888457fc87214a13b63180816b48ecbd68441a0b7bc45770ab81c9c1ee0bc6c728659b0589\
    77a29dbd7d99c8666e650d499f7f561943a7d24e5f3b9bcf7d691b207786362809960419916d4ea27fb2cd45\
    5ab9ecb96ef83e53e2b93b88ec7e2f2406f251eb5a9eba022ead04e47a911e3c6ac9bcd2ff6143800d815c78\
    50928dd1c0fdf5206a8dea80a81592e24ab27cbc6bfe426acd124197c49b4fe89fd6695d4a3bee54ae487766\
    036f038310134df4d26a20aff5830b73b04a5ae7a05c119aa9d6519f32e6cc133d681bc2d62371ff17deafc4\
    0d26657ddc8b39d827b58067d0724b531674efb68e020f37c438f4931acd3c7ac360d7716c2cb30abf4e04cc\
    c185d266bcfe18441b4f36f2ea89efe9916ecc15ab8ed834477516ee1a50b802b791286832f0af03fb678ed2\
    1f6d30f53df63401ec89770bc97387f6827aa9f45814116c647a3bf31657548402fb4d6b8d837d00f1214f84\
    dee46d35000188048106000044495e95b1c467fb020000000004595a";
const CODE: &str = "\
    e810200000cccccc001000eb001000ebe810200000e90001ffff480100058d8de810200000001000ebe90001\
    ffff48010005e90001ffff2b00f012f8001000eb4000123448010005400012340101010148010005001000eb\
    e81020000040001234001000eb808080e90001ffff00f012f8001000eb48010005001000eb39393948010005\
    e90001ffff400012344000123448010005b6b6b6400012344000123440001234e81020000000f012f8dedede\
    00f012f8001000ebe810200000e810200000e90001ffffce40001234001000eb00f012f8e810200000e81020\
    00003d3d40001234e810200000400012344801000500f012f8a3a3a348010005e90001ffffe90001ffffe900\
    01ffff001000ebf0e810200000e90001ffffe8102000004000123400f012f822001000ebe90001ffff400012\
    34001000ebe90001ffff3c3c001000ebe810200000001000eb48010005e810200000a1a148010005001000eb\
    e81020000040001234e90001ffff4242e810200000001000ebe810200000e90001ffff00f012f8a8e90001ff\
    ff00f012f800f012f840001234001000eb78787800f012f840001234e810200000e90001ffffe81020000062\
    e90001ffff48010005e90001ffff48010005e90001ffffe9e90001ffff00f012f8e810200000400012344000\
    12341010001000eb4000123448010005001000ebe90001ffff56565648010005e90001ffff40001234e81020\
    0000e90001ffff54e8102000004801000548010005e81020000000f012f8dddd400012344000123448010005\
    e90001ffff001000eb969696001000ebe81020000000f012f848010005e90001ffff484840001234001000eb\
    00f012f8e90001ffff4000123486868600f012f8e8102000004801000500f012f8480100050f0f0fe8102000\
    004801000548010005e810200000480100054a4a001000ebe90001ffff4000123400f012f840001234353535\
    48010005e90001ffff00f012f800f012f8e810200000919100f012f8e810200000400012344000123400f012\
    f823232300f012f8e81020000048010005001000eb";
const CODE_X86: &str = "\
    e815200000cccccc001000eb001000ebe825200000e91a01ffff480100058d8de835200000001000ebe92e01\
    ffff48010005e93701ffff2b00f012f8001000eb4000123448010005400012340101010148010005001000eb\
    e86d20000040001234001000eb808080e96d01ffff00f012f8001000eb48010005001000eb39393948010005\
    e98901ffff400012344000123448010005b6b6b6400012344000123440001234e8b920000000f012f8dedede\
    00f012f8001000ebe8cd200000e8d2200000e9c701ffffce40001234001000eb00f012f8e8e9200000e8ee20\
    00003d3d40001234e8f9200000400012344801000500f012f8a3a3a348010005e90102ffffe90602ffffe90b\
    02ffff001000ebf0e825210000e91a02ffffe82f2100004000123400f012f822001000ebe93102ffff400012\
    34001000ebe93e02ffff3c3c001000ebe859210000001000eb48010005e866210000a1a148010005001000eb\
    e87521000040001234e96e02ffff4242e885210000001000ebe88e210000e98302ffff00f012f8a8e98d02ff\
    ff00f012f800f012f840001234001000eb78787800f012f840001234e8bd210000e9b202ffffe8c721000062\
    e9bd02ffff48010005e9c602ffff48010005e9cf02ffffe9bd0201ffff00f012f8e8ee210000400012344000\
    12341010001000eb4000123448010005001000ebe9fd02ffff56565648010005e90903ffff40001234e82222\
    0000e91703ffff54e82d2200004801000548010005e83a22000000f012f8dddd400012344000123448010005\
    e94103ffff001000eb969696001000ebe86122000000f012f848010005e95e03ffff484840001234001000eb\
    00f012f8e97103ffff4000123486868600f012f8e8912200004801000500f012f8480100050f0f0fe8a52200\
    004801000548010005e8b2220000480100054a4a001000ebe9b103ffff4000123400f012f840001234353535\
    48010005e9c903ffff00f012f800f012f8e8e6220000919100f012f8e8f1220000400012344000123400f012\
    f823232300f012f8e80923000048010005001000eb";
const CODE_POWERPC: &str = "\
    e810200000cccccc001000eb001000ebe810200000e90001ffff480100058d8de810200000001000ebe90001\
    ffff48010005e90001ffff2b00f012f8001000eb4000123448010049400012340101010148010055001000eb\
    e81020000040001234001000eb808080e90001ffff00f012f8001000eb48010005001000eb39393948010085\
    e90001ffff400012344000123448010005b6b6b6400012344000123440001234e81020000000f012f8dedede\
    00f012f8001000ebe810200000e810200000e90001ffffce40001234001000eb00f012f8e810200000e81020\
    00003d3d40001234e810200000400012344801000500f012f8a3a3a3480100fde90001ffffe90001ffffe900\
    01ffff001000ebf0e810200000e90001ffffe8102000004000123400f012f822001000ebe90001ffff400012\
    34001000ebe90001ffff3c3c001000ebe810200000001000eb48010005e810200000a1a14801015d001000eb\
    e81020000040001234e90001ffff4242e810200000001000ebe810200000e90001ffff00f012f8a8e90001ff\
    ff00f012f800f012f840001234001000eb78787800f012f840001234e810200000e90001ffffe81020000062\
    e90001ffff48010005e90001ffff48010005e90001ffffe9e90001ffff00f012f8e810200000400012344000\
    12341010001000eb40001234480101f5001000ebe90001ffff56565648010205e90001ffff40001234e81020\
    0000e90001ffff54e8102000004801000548010005e81020000000f012f8dddd40001234400012344801023d\
    e90001ffff001000eb969696001000ebe81020000000f012f848010005e90001ffff484840001234001000eb\
    00f012f8e90001ffff4000123486868600f012f8e8102000004801000500f012f8480100050f0f0fe8102000\
    004801000548010005e810200000480100054a4a001000ebe90001ffff4000123400f012f840001234353535\
    480102c5e90001ffff00f012f800f012f8e810200000919100f012f8e810200000400012344000123400f012\
    f823232300f012f8e81020000048010005001000eb";
const CODE_IA64: &str = "\
    e810200000cccccc001000eb001000ebe810200000e90001ffff480100058d8de810200000001000ebe90001\
    ffff48010005e90001ffff2b00f012f8001000eb4000123448010005400012340101010148010005001000eb\
    e81020000040001234001000eb808080e90001ffff00f012f8001000eb48010005001000eb39393948010005\
    e90001ffff400012344000123448010005b6b6b6400012344000123440001234e81020000000f012f8dedede\
    00f012f8001000ebe810200000e810200000e90001ffffce40001234001000eb00f012f8e810200000e81020\
    00003d3d40001234e810200000400012344801000500f012f8a3a3a348010005e90001ffffe90001ffffe900\
    01ffff001000ebf0e810200000e90001ffffe8102000004000123400f012f822001000ebe90001ffff400012\
    34001000ebe90001ffff3c3c001000ebe810200000001000eb48010005e810200000a1a148010005001000eb\
    e81020000040001234e90001ffff4242e810200000001000ebe810200000e90001ffff00f012f8a8e90001ff\
    ff00f012f800f012f840001234001000eb78787800f012f840001234e810200000e90001ffffe81020000062\
    e90001ffff48010005e90001ffff48010005e90001ffffe9e90001ffff00f012f8e810200000400012344000\
    12341010001000eb4000123448010005001000ebe90001ffff56565648010005e90001ffff40001234e81020\
    0000e90001ffff54e8102000004801000548010005e81020000000f012f8dddd400012344000123448010005\
    e90001ffff001000eb969696001000ebe81020000000f012f848010005e90001ffff484840001234001000eb\
    00f012f8e90001ffff4000123486868600f012f8e8102000004801000500f012f8480100050f0f0fe8102000\
    004801000548010005e810200000480100054a4a001000ebe90001ffff4000123400f012f840001234353535\
    48010005e90001ffff00f012f800f012f8e810200000919100f012f8e810200000400012344000123400f012\
    f823232300f012f8e81020000048010005001000eb";
const CODE_ARM: &str = "\
    e810200000cccccc041000eb051000ebe810200000e90001ffff480100058d8de810200000001000ebe90001\
    ffff48010005e90001ffff2b00f012f8111000eb4000123448010005400012340101010148010005171000eb\
    e81020000040001234001000eb808080e90001ffff00f012f8001000eb48010005001000eb39393948010005\
    e90001ffff400012344000123448010005b6b6b6400012344000123440001234e81020000000f012f8dedede\
    00f012f82f1000ebe810200000e810200000e90001ffffce40001234351000eb00f012f8e810200000e81020\
    00003d3d40001234e810200000400012344801000500f012f8a3a3a348010005e90001ffffe90001ffffe900\
    01ffff001000ebf0e810200000e90001ffffe8102000004000123400f012f8224c1000ebe90001ffff400012\
    34001000ebe90001ffff3c3c521000ebe810200000001000eb48010005e810200000a1a148010005591000eb\
    e81020000040001234e90001ffff4242e810200000001000ebe810200000e90001ffff00f012f8a8e90001ff\
    ff00f012f800f012f840001234001000eb78787800f012f840001234e810200000e90001ffffe81020000062\
    e90001ffff48010005e90001ffff48010005e90001ffffe9e90001ffff00f012f8e810200000400012344000\
    123410107c1000eb40001234480100057f1000ebe90001ffff56565648010005e90001ffff40001234e81020\
    0000e90001ffff54e8102000004801000548010005e81020000000f012f8dddd400012344000123448010005\
    e90001ffff001000eb969696941000ebe81020000000f012f848010005e90001ffff4848400012349b1000eb\
    00f012f8e90001ffff4000123486868600f012f8e8102000004801000500f012f8480100050f0f0fe8102000\
    004801000548010005e810200000480100054a4aac1000ebe90001ffff4000123400f012f840001234353535\
    48010005e90001ffff00f012f800f012f8e810200000919100f012f8e810200000400012344000123400f012\
    f823232300f012f8e81020000048010005001000eb";
const CODE_ARM_THUMB: &str = "\
    e810200000cccccc001000eb001000ebe810200000e90001ffff480100058d8de810200000001000ebe90001\
    ffff48010005e90001ffff2b00f030f8001000eb4000123448010005400012340101010148010005001000eb\
    e81020000040001234001000eb808080e90001ffff00f012f8001000eb48010005001000eb39393948010005\
    e90001ffff400012344000123448010005b6b6b6400012344000123440001234e81020000000f012f8dedede\
    00f06cf8001000ebe810200000e810200000e90001ffffce40001234001000eb00f07cf8e810200000e81020\
    00003d3d40001234e810200000400012344801000500f012f8a3a3a348010005e90001ffffe90001ffffe900\
    01ffff001000ebf0e810200000e90001ffffe8102000004000123400f012f822001000ebe90001ffff400012\
    34001000ebe90001ffff3c3c001000ebe810200000001000eb48010005e810200000a1a148010005001000eb\
    e81020000040001234e90001ffff4242e810200000001000ebe810200000e90001ffff00f012f8a8e90001ff\
    ff00f012f800f012f840001234001000eb78787800f0e4f840001234e810200000e90001ffffe81020000062\
    e90001ffff48010005e90001ffff48010005e90001ffffe9e90001ffff00f012f8e810200000400012344000\
    12341010001000eb4000123448010005001000ebe90001ffff56565648010005e90001ffff40001234e81020\
    0000e90001ffff54e8102000004801000548010005e81020000000f029f9dddd400012344000123448010005\
    e90001ffff001000eb969696001000ebe81020000000f012f848010005e90001ffff484840001234001000eb\
    00f048f9e90001ffff4000123486868600f050f9e8102000004801000500f012f8480100050f0f0fe8102000\
    004801000548010005e810200000480100054a4a001000ebe90001ffff4000123400f012f840001234353535\
    48010005e90001ffff00f012f800f012f8e810200000919100f080f9e810200000400012344000123400f012\
    f823232300f08cf9e81020000048010005001000eb";
const CODE_SPARC: &str = "\
    e810200000cccccc001000eb001000ebe810200000e90001ffff480100058d8de810200000001000ebe90001\
    ffff48010005e90001ffff2b00f012f8001000eb4000124448010005400012460101010148010005001000eb\
    e81020000040001234001000eb808080e90001ffff00f012f8001000eb48010005001000eb39393948010005\
    e90001ffff400012344000123448010005b6b6b64000125a4000125b4000125ce81020000000f012f8dedede\
    00f012f8001000ebe810200000e810200000e90001ffffce40001266001000eb00f012f8e810200000e81020\
    00003d3d4000126ce810200000400012344801000500f012f8a3a3a348010005e90001ffffe90001ffffe900\
    01ffff001000ebf0e810200000e90001ffffe8102000004000123400f012f822001000ebe90001ffff400012\
    34001000ebe90001ffff3c3c001000ebe810200000001000eb48010005e810200000a1a148010005001000eb\
    e81020000040001234e90001ffff4242e810200000001000ebe810200000e90001ffff00f012f8a8e90001ff\
    ff00f012f800f012f840001234001000eb78787800f012f84000129de810200000e90001ffffe81020000062\
    e90001ffff48010005e90001ffff48010005e90001ffffe9e90001ffff00f012f8e810200000400012344000\
    12341010001000eb400012af48010005001000ebe90001ffff56565648010005e90001ffff40001234e81020\
    0000e90001ffff54e8102000004801000548010005e81020000000f012f8dddd400012c0400012c148010005\
    e90001ffff001000eb969696001000ebe81020000000f012f848010005e90001ffff4848400012cc001000eb\
    00f012f8e90001ffff4000123486868600f012f8e8102000004801000500f012f8480100050f0f0fe8102000\
    004801000548010005e810200000480100054a4a001000ebe90001ffff4000123400f012f840001234353535\
    48010005e90001ffff00f012f800f012f8e810200000919100f012f8e810200000400012344000123400f012\
    f823232300f012f8e81020000048010005001000eb";
const CODE_DELTA: &str = "\
    e8102018f0accccc344434ebf01015ebd8103518f0c9000116ff470201bd8c8de3839318f0e01000ebd90016\
    16ff470201bde800fc16ff2a01f1e7f810fe08eb300027f448efccbd3f000df401efcd004700ffbdff10fbeb\
    d8103518f0200012f400fecceb70809569808116fffff113f810fe08eb380115bdff10fbeb29394e0fc8c7bd\
    e800fc16ff3f0113f440eedef448efccbdb5b6b18a4a5cf440eedef440eedef4e8feec18f0e0f012f8eecce6\
    221234f810fe08ebd8103518f0c8102018f0c9000116ffcd410144f400feccebf0f027f8f8fe2818f0c81020\
    18f01d3d40c3d5f4e8feec18f0200012f448efccbdfff00df8b391aba55e5dbde800fc16ffe8010216ffe801\
    0216ffff1101ebe0e8253018f0c9000116ffe7112118f0200012f400dedef832ee18deebd9001616ff3f0113\
    f400feccebd9001616ff3b3d01d4c4ebd8103518f0e01000eb380115bde7101b18f081a148605fbdff10fbeb\
    d8103518f0200012f4e9eecd16ff4143e9cede18f0e01000ebd8103518f0c9000116fffff113f8b8d7085916\
    fffff113f810de1af850ee1af400fecceb68788d88789af850ee1af4e8feec18f0c9000116ffe7112118f042\
    e9009f16ff470201bde800fc16ff470201bde800fc16ffe8ea011816fffff113f8f8fe2818f0200012f440ee\
    def410fecc00f0eb300027f448efccbdff10fbebd9001616ff555757f2abaabde800fc16ff3f0113f4e8feec\
    18f0c9000116ff53e911cc18f0280100bd4701fbbde7101b18f0e0f012f8edcb482335f440eedef448efccbd\
    e800fc16ffff1101eb8696ab6a7a6aebd8103518f0e0f012f858ef08bde800fc16ff474941b8caf400fecceb\
    f0f027f8f9ee0916ff3f0113f48674527a6a8cf8f8fe2818f0280100bdfff00df858ef08bd0e0f0ad9011118\
    f0280100bd4701fbbde7101b18f0280100bd494afbc6b6ebd9001616ff3f0113f400dedef850ee1af4352301\
    13cccbbde800fc16fffff113f810de1af8f8fe2818f07191005f81f8f8fe2818f0200012f440eedef400dede\
    f833112bddcdeff8f8fe2818f0280100bdff10fbeb";

fn properties() -> Properties {
    Properties { lc: 3, lp: 0, pb: 2, dict_size: 65_536 }
}

fn samples() -> Vec<Vec<u8>> {
    vec![Vec::new(), b"x".to_vec(), text(4000), noise(700), vec![0u8; 9000]]
}

#[test]
fn reads_a_lone_stream() {
    assert!(alone::is_alone(&bytes(ALONE)));
    assert_eq!(alone::decompress(&bytes(ALONE), 0), Ok(text(1500)));
}

#[test]
fn lone_streams_read_back() {
    for data in samples() {
        assert_eq!(alone::decompress(&alone::compress(&data, 32), 0), Ok(data.clone()));
        assert_eq!(alone::decompress(&alone::compress_at(&data, 8, Level::Fast), 0), Ok(data.clone()));
        let mut writer = alone::Writer::new(vec![5], 16, Level::Default);
        for piece in data.chunks(1234) {
            writer.push(piece);
        }
        let out = writer.finish();
        assert_eq!(out[0], 5);
        assert_eq!(alone::decompress(&out[1..], 0), Ok(data));
    }
}

#[test]
fn reads_a_zip_entry() {
    assert_eq!(lzma::decompress(&bytes(ENTRY), None), Ok(text(1500)));
    assert_eq!(lzma::decompress(&bytes(ENTRY), Some(1500)), Ok(text(1500)));
}

#[test]
fn reads_lzma2() {
    let mut r = lzma2::Lzma2Decoder::new(bytes(LZMA2), 1 << 23);
    assert_eq!(r.read_to_end(), Ok(text(1500)));
}

#[test]
fn lzma2_reads_back() {
    for data in samples() {
        let out = lzma2::compress(&data, properties(), 32);
        let mut r = lzma2::Lzma2Decoder::new(out, 65_536);
        assert_eq!(r.read_to_end(), Ok(data));
    }
}

#[test]
fn lzma2_dictionary_sizes() {
    assert_eq!(lzma2::dictionary_size(0), Ok(4096));
    assert_eq!(lzma2::dictionary_size(1), Ok(6144));
    assert_eq!(lzma2::dictionary_size(40), Ok(u32::MAX));
    assert!(lzma2::dictionary_size(41).is_err());
    for code in 0..=40u8 {
        assert_eq!(lzma2::dictionary_code(lzma2::dictionary_size(code).unwrap()), code);
    }
}

#[test]
fn reads_lzip() {
    assert!(lzip::is_lzip(&bytes(LZIP)));
    assert_eq!(lzip::decompress(&bytes(LZIP), 0), Ok(text(1500)));
}

#[test]
fn lzip_reads_back() {
    for data in samples() {
        assert_eq!(lzip::decompress(&lzip::compress_at(&data, 16, Level::Default), 0), Ok(data));
    }
}

#[test]
fn lzip_members_follow_one_another() {
    let mut raw = bytes(LZIP);
    raw.extend(lzip::compress_at(b"second", 8, Level::Fast));
    let mut expected = text(1500);
    expected.extend_from_slice(b"second");
    assert_eq!(lzip::decompress(&raw, 0), Ok(expected));
}

#[test]
fn lzip_checks_its_trailer() {
    let mut raw = bytes(LZIP);
    let n = raw.len();
    raw[n - 20] ^= 1;
    assert!(matches!(lzip::decompress(&raw, 0), Err(Error::ChecksumMismatch { .. })));
    assert_eq!(lzip::decompress(b"LZIP\x02\x0c", 0).is_err(), true);
}

#[test]
fn reads_xz_with_every_check() {
    assert_eq!(xz::decompress(&bytes(XZ), 0), Ok(text(1500)));
    for raw in [XZ_CRC32, XZ_SHA256, XZ_NO_CHECK] {
        assert_eq!(xz::decompress(&bytes(raw), 0), Ok(text(300)));
    }
}

#[test]
fn reads_xz_with_filters() {
    assert_eq!(xz::decompress(&bytes(XZ_X86), 0), Ok(bytes(CODE)));
    assert_eq!(xz::decompress(&bytes(XZ_DELTA_ARM), 0), Ok(bytes(CODE)));
}

#[test]
fn xz_reads_back() {
    for data in samples() {
        assert_eq!(xz::decompress(&xz::encode::compress_default(&data, 16), 0), Ok(data.clone()));
        assert_eq!(xz::decompress(&xz::encode::compress(&data, properties(), 8), 0), Ok(data.clone()));
        let mut writer = xz::encode::Writer::new(Vec::new(), 8, Level::Fast);
        for piece in data.chunks(777) {
            writer.push(piece);
        }
        assert_eq!(xz::decompress(&writer.finish(), 0), Ok(data));
    }
}

#[test]
fn xz_reads_in_pieces() {
    let mut r = xz::Reader::new(bytes(XZ), 0);
    let mut out = Vec::new();
    let mut buf = [0u8; 53];
    loop {
        let n = r.read(&mut buf).unwrap();
        if n == 0 {
            break;
        }
        out.extend_from_slice(&buf[..n]);
    }
    assert_eq!(out, text(1500));
}

#[test]
fn xz_changed_data_is_refused() {
    let whole = bytes(XZ);
    for at in [0usize, 7, 12, 60, whole.len() - 25, whole.len() - 1] {
        let mut raw = whole.clone();
        raw[at] ^= 1;
        let mut r = xz::Reader::new(raw, 0);
        let mut buf = [0u8; 4096];
        let refused = loop {
            match r.read(&mut buf) {
                Ok(0) => break false,
                Ok(_) => {}
                Err(_) => break true,
            }
        };
        assert!(refused);
    }
}

#[test]
fn branch_filters_convert_as_published() {
    for (id, filtered) in [
        (4, CODE_X86),
        (5, CODE_POWERPC),
        (6, CODE_IA64),
        (7, CODE_ARM),
        (8, CODE_ARM_THUMB),
        (9, CODE_SPARC),
    ] {
        let mut data = bytes(CODE);
        assert_eq!(bcj::encode(id, &[], &mut data), Ok(()));
        assert_eq!(data, bytes(filtered));
        assert_eq!(bcj::decode(id, &[], &mut data), Ok(()));
        assert_eq!(data, bytes(CODE));
        let mut again = bytes(filtered);
        if id == 6 {
            assert!(matches!(xz::filters::decode(id, &[], &mut again), Err(Error::Unsupported(_))));
        } else {
            assert_eq!(xz::filters::decode(id, &[], &mut again), Ok(()));
            assert_eq!(again, bytes(CODE));
        }
    }
}

#[test]
fn delta_filter_converts_as_published() {
    let mut data = bytes(CODE);
    assert_eq!(bcj::encode(3, &[2], &mut data), Ok(()));
    assert_eq!(data, bytes(CODE_DELTA));
    assert_eq!(bcj::decode(3, &[2], &mut data), Ok(()));
    assert_eq!(data, bytes(CODE));
    assert_eq!(bcj::decode(3, &[], &mut data), Err(Error::Malformed));
}

#[test]
fn filters_undo_themselves() {
    for id in 3..=11u64 {
        let props: &[u8] = if id == 3 { &[0] } else { &[] };
        for data in [bytes(CODE), noise(500), text(500)] {
            let mut work = data.clone();
            assert_eq!(bcj::encode(id, props, &mut work), Ok(()));
            assert_eq!(bcj::decode(id, props, &mut work), Ok(()));
            assert_eq!(work, data);
        }
    }
    assert!(bcj::decode(99, &[], &mut [0u8; 4]).is_err());
}

#[test]
fn bcj2_puts_branch_targets_back() {
    let main = vec![0x90, 0xe8, 0x90];
    let call = vec![0x00, 0x00, 0x10, 0x00];
    let mut buf = [0u8; 16];
    let set = vec![0x00, 0xff, 0xff, 0xff, 0xfe];
    let mut r = Bcj2Decoder::new(main.clone(), call.clone(), Vec::new(), set, 16).unwrap();
    assert_eq!(r.read(&mut buf), Ok(7));
    assert_eq!(buf[..7], [0x90, 0xe8, 0xfa, 0x0f, 0x00, 0x00, 0x90]);
    assert_eq!(r.read(&mut buf), Ok(0));
    let mut r = Bcj2Decoder::new(main.clone(), call, Vec::new(), vec![0; 5], 16).unwrap();
    assert_eq!(r.read(&mut buf), Ok(3));
    assert_eq!(buf[..3].to_vec(), main);
}

#[test]
fn a_converter_in_pieces_is_the_whole_filter() {
    for id in [4u64, 5, 6, 7, 8, 9, 10, 11] {
        let mut whole = bytes(CODE);
        bcj::encode(id, &[], &mut whole).unwrap();
        let mut c = Converter::encode(id, &[]).unwrap();
        let mut pending: Vec<u8> = Vec::new();
        let mut out: Vec<u8> = Vec::new();
        let data = bytes(CODE);
        let mut at = 0;
        while at < data.len() {
            let end = (at + 61).min(data.len());
            pending.extend_from_slice(&data[at..end]);
            at = end;
            let done = c.convert(&mut pending, at == data.len());
            out.extend_from_slice(&pending[..done]);
            pending.drain(..done);
        }
        out.extend_from_slice(&pending);
        assert_eq!(out, whole);
    }
}

#[test]
fn a_lone_stream_of_nothing() {
    let nothing = [0x5D, 0, 0, 1, 0, 0, 0, 0, 0, 0, 0, 0, 0, 0, 0, 0, 0, 0];
    assert_eq!(alone::compress(b"", 32), nothing);
    assert_eq!(alone::decompress(&nothing, 0), Ok(Vec::new()));
}

#[test]
fn lone_streams_start_with_their_parameters() {
    let raw = alone::compress(&text(1500), 32);
    assert_eq!(&raw[..13], &[0x5D, 0, 0, 1, 0, 0xDC, 5, 0, 0, 0, 0, 0, 0]);
    let mut writer = alone::Writer::new(Vec::new(), 16, Level::Default);
    writer.push(&text(1500));
    let raw = writer.finish();
    assert_eq!(&raw[..13], &[0x5D, 0, 0, 0x80, 0, 255, 255, 255, 255, 255, 255, 255, 255]);
}

#[test]
fn raw_streams_have_the_usual_parameters() {
    let odd = Properties { lc: 0, lp: 2, pb: 0, dict_size: 0x1_0000 };
    let data = text(1500);
    let raw = lzma::encode::compress_raw(&data, odd, 32);
    let usual = Properties { lc: 3, lp: 0, pb: 2, dict_size: 0x1_0000 };
    assert_eq!(raw, lzma::encode::compress_raw(&data, usual, 32));
    let mut decoder = lzma::decode::LzmaDecoder::new(raw, usual, Some(1500)).unwrap();
    assert_eq!(decoder.read_to_end(), Ok(data));
    assert_eq!(lzma::encode::compress_raw(b"", odd, 32), [0; 5]);
}

#[test]
fn however_a_lone_stream_is_cut_it_is_the_same() {
    let data = text(200_000);
    let mut once = alone::Writer::new(Vec::new(), 16, Level::Fast);
    once.push(&data);
    let expected = once.finish();
    let mut often = alone::Writer::new(Vec::new(), 16, Level::Fast);
    for piece in data.chunks(7_919) {
        often.push(piece);
    }
    assert_eq!(often.finish(), expected);
}

#[test]
fn a_changed_trailer_of_a_member_is_reported() {
    let raw = lzip::compress_at(b"content", 32, Level::Fast);
    let n = raw.len();
    let mut sum = raw.clone();
    sum[n - 20..n - 16].copy_from_slice(&[4, 3, 2, 1]);
    assert!(matches!(lzip::decompress(&sum, 0), Err(Error::ChecksumMismatch { expected: 0x0102_0304, .. })));
    let mut size = raw.clone();
    size[n - 16] = 9;
    assert_eq!(lzip::decompress(&size, 0), Err(Error::SizeMismatch { expected: 9, found: 7 }));
    assert_eq!(lzip::decompress(&raw[..n - 1], 0), Err(Error::Malformed));
}

#[test]
fn a_changed_check_of_a_block_is_refused() {
    let raw = xz::encode::compress_default(b"content", 32);
    let n = raw.len();
    // The index of one short block takes eight bytes, the footer twelve.
    let at = n - 12 - 8 - 8;
    let mut changed = raw.clone();
    changed[at] ^= 1;
    let mut reader = xz::Reader::new(changed, 0);
    let mut buf = [0u8; 64];
    let mut outcome = Ok(());
    for _ in 0..3 {
        if let Err(e) = reader.read(&mut buf) {
            outcome = Err(e);
            break;
        }
    }
    assert_eq!(outcome, Err(Error::Malformed));
    let mut reader = xz::Reader::new(raw, 0);
    assert_eq!(reader.read(&mut buf), Ok(7));
    assert_eq!(reader.read(&mut buf), Ok(0));
}

#[test]
fn a_converter_in_uneven_pieces() {
    for (id, props) in [(3u64, vec![4u8]), (4, vec![]), (8, vec![]), (11, vec![])] {
        let mut whole = bytes(CODE);
        bcj::decode(id, &props, &mut whole).unwrap();
        let mut c = Converter::decode(id, &props).unwrap();
        let mut held: Vec<u8> = Vec::new();
        let mut out: Vec<u8> = Vec::new();
        let data = bytes(CODE);
        let mut at = 0;
        let mut step = 1;
        while at < data.len() {
            let end = (at + step).min(data.len());
            held.extend_from_slice(&data[at..end]);
            at = end;
            step = step * 3 % 17 + 1;
            let done = c.convert(&mut held, false);
            out.extend_from_slice(&held[..done]);
            held.drain(..done);
        }
        let done = c.convert(&mut held, true);
        assert_eq!(done, held.len());
        out.extend_from_slice(&held);
        assert_eq!(out, whole);
    }
}

#[test]
fn however_a_member_is_cut_it_is_the_same() {
    let data = text(100_000);
    let expected = lzip::compress_at(&data, 16, Level::Default);
    let mut often = lzip::Writer::new(Vec::new(), 16, Level::Default);
    for piece in data.chunks(33_001) {
        often.push(piece);
    }
    assert_eq!(often.finish(), expected);
    assert_eq!(expected[5], 23);
}

#[test]
fn however_an_xz_stream_is_cut_it_is_the_same() {
    let data = text(150_000);
    let mut once = xz::encode::Writer::new(Vec::new(), 16, Level::Fast);
    once.push(&data);
    let expected = once.finish();
    let mut often = xz::encode::Writer::new(Vec::new(), 16, Level::Fast);
    for piece in data.chunks(10_007) {
        often.push(piece);
    }
    assert_eq!(often.finish(), expected);
    assert_eq!(xz::decompress(&expected, 0), Ok(data));
}

#[test]
fn nothing_of_a_filtered_block_comes_out() {
    let mut raw = xz::encode::compress_default(b"plain", 16);
    raw.extend(bytes(XZ_DELTA_ARM));
    let mut r = xz::Reader::new(raw, 0);
    let mut buf = [0u8; 4096];
    assert_eq!(r.read(&mut buf), Ok(5));
    assert_eq!(&buf[..5], b"plain");
    assert!(matches!(r.read(&mut buf), Err(Error::Unsupported(_))));
    let mut alone = xz::Reader::new(bytes(XZ_X86), 0);
    assert!(matches!(alone.read(&mut buf), Err(Error::Unsupported(_))));
}

#[test]
fn two_spans_are_one_stream() {
    let data = text(5000);
    let props = properties();
    for split in [0usize, 1, 2500, 5000] {
        let mut encoder = lzma::encode::Encoder::new(props);
        let mut finder = lzma::encode::Finder::new(data.len(), props.dict_size as usize, 16);
        let mut rc = lzma::range_encoder::RangeEncoder::new();
        let feed = ttarchive::codecs::sliding::Feed::whole(&data);
        encoder.encode_span(&feed, 0, split, &mut finder, &mut rc);
        encoder.encode_span(&feed, split, data.len(), &mut finder, &mut rc);
        let mut d = lzma::decode::LzmaDecoder::new(rc.finish(), props, Some(data.len() as u64)).unwrap();
        assert_eq!(d.read_to_end(), Ok(data.clone()));
    }
}

#[test]
fn what_members_hold_before_a_fault_comes_out() {
    let mut raw = lzip::compress_at(b"sound", 16, Level::Fast);
    raw.extend_from_slice(b"LZIP\x02");
    raw.extend_from_slice(&[12, 0, 0, 0]);
    let mut r = lzip::Reader::new(raw);
    let mut buf = [0u8; 64];
    assert_eq!(r.read(&mut buf), Ok(5));
    assert_eq!(&buf[..5], b"sound");
    assert!(matches!(r.read(&mut buf), Err(Error::Unsupported(_))));
}
