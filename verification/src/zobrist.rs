//! Zobrist hashing: fixed key tables drawn from a splitmix64 stream, and
//! the generator that produces them.

use vstd::prelude::*;

verus! {

/// Seed of the piece-key stream.
pub const PIECE_SEED: u64 = 0x0BAD_F00D_2026_0703;
/// Seed of the castling-key stream.
pub const CASTLE_SEED: u64 = 0x5EED_CA57;
/// Seed of the en-passant-file key stream.
pub const EP_SEED: u64 = 0x5EED_E9A5;
/// Key of "Black to move".
pub const STM_KEY: u64 = 0x9E3779B97F4A7C15;

/// Piece keys: [colour 2][piece type 1..=6 at index 0..6][square 64], flattened;
/// the splitmix64 stream of seed `PIECE_SEED` (see `build_keys`).
pub const PIECE_KEYS: [u64; 768] = [
    0x4f65a4eca2207972, 0xb8b90c3e7001fada, 0x76c8d494f173c00d, 0x917eaf8c127783a3,
    0x0627a5c0980f34da, 0x6d09115d8e29b216, 0x4f0ae593f32e7e2b, 0xbc4ffc5398089f6d,
    0xe62a993f468fa23a, 0xe96381324eab0e02, 0x505a4ab073368137, 0x930ba4b32b4b656d,
    0x3112939a80c31f7d, 0x527dccd2778b1c9d, 0x227342b3df06fa90, 0x25aa4caf751687b0,
    0x395d6d5de7b0ce27, 0x4f6efcfdca4c67a5, 0xf139a9bf281dc679, 0xa82920cd3e1af9c0,
    0x2967e4c8fd852df9, 0x39e4536a46bdcef3, 0xb6806ea337569df4, 0x3d60f7620accd194,
    0xebb4a14cadbc9cc5, 0x945e4555a60ba284, 0x7c247a0aa15f1f83, 0x70adfba9939f69de,
    0x05254811889235dd, 0x24a0308df0194377, 0xd8db33c95099ca31, 0x2c6513ea32e94a22,
    0x0969f3ba5229a304, 0xb131c7660c52b16f, 0x12468a28fc88b954, 0xe6e90ab5b2333211,
    0x9d2e8dbcb3e09dd9, 0xed6b6c2d909b3c9f, 0x5428c0590aedd8b0, 0xc433de0c2a9caa63,
    0x3bc214e800defec4, 0x5374bf8e86c5ec6c, 0xdffbffbdf40977e6, 0x250c5571f48afe9d,
    0xa7b43b924691ad00, 0x28997e6a832fa6d4, 0x4d9569634509d832, 0xa003bb34b70f7c37,
    0x8c86b42cc548e24b, 0x3f236269f300d711, 0x02dc2dce96bccacf, 0x30e45068db48ea5b,
    0xf4846c5f7857f0f9, 0x5c53edf4e73186bd, 0x45213b2e6cdbb9f6, 0x0be1ddf2ab269f6e,
    0x08ac4b9b9f4fc1d4, 0x93e2fb1068963168, 0x231412e4cfabdb41, 0xa17d188b6b515cb2,
    0xe4a116d148c8d573, 0x96e7564aa990fef0, 0xd3f6e671128aab6c, 0x7ce8e2d3a86422e7,
    0x500d30328996a00e, 0xd344d9ac9c332871, 0xe42e11b8b74f1d83, 0x014547b9af87fbd1,
    0x830015c5c7695fd9, 0x29a9ebc93e6ea03b, 0x013c86deae8c442a, 0x555b373a5a5cb91a,
    0xdc8aebc3048eb911, 0xcfdc8c55958b9a71, 0x7afc081bd2e65e3d, 0x15cbdbfeb7cffee0,
    0x53c2db5e4385640f, 0x1130a6f7fa44ab4e, 0x068a5f815471148e, 0x3cbfcba865926551,
    0xda9231ddb703bd09, 0x102020c5334d5fc8, 0xa5117663ba05b042, 0x15c2bf2b8eb97fb2,
    0xdcf60dc1c13b1dd5, 0xaf884cbc19654a71, 0x309a51336147ac27, 0x6b545a35a0475883,
    0xdfb1a0751181ea21, 0x0dbdb28998b471ae, 0xe0fbba3648b1e77d, 0x2451f8470134002d,
    0x8854903561070193, 0xd84c08e0b52b6112, 0x9293ebfd4b38dbf5, 0x546d56822c6078aa,
    0x7c9c46f202357fcb, 0x881c0f2fcb008c51, 0x67b8e51fd607d35b, 0xc4a00528e0e810af,
    0xf58013d2443403ac, 0x717533d4943099aa, 0x1ffd7cdc24f9b2ae, 0xc3e42d3f90c86f46,
    0x8754a30d10d68291, 0x25b8bfcf78c28bd9, 0x535db48fb7c191a0, 0x030865898cf72a91,
    0x677dc454ed0821b7, 0xe842792dcaa95ad4, 0xc0cadac6cdef8319, 0xb37d822dcdcf7e81,
    0xd2b059fb4d6548bf, 0x28b0f55c6806d0cd, 0x168c2e36d748da9d, 0x8ce08b00623bba09,
    0x749821ea7cb26c68, 0x8c826f82b3b457a2, 0x2aa42441347ceb5c, 0x542842e8d56c278f,
    0xe11149b686d5eff2, 0x9d768cc647266ec8, 0x675ca9457f8a8f68, 0x2aaf461a9e6d0e79,
    0x83c8f428085743bc, 0x05cafb99708cf225, 0x3d92f4de8c3a49f3, 0xa866b437f44e21ec,
    0x98abc6cf6170da9d, 0xe56581fc87d3d7ac, 0x6db6f9356a5585de, 0x6a7db202a7efe850,
    0xccd9022aa71e4f82, 0xd40c2be43a98b96c, 0x5df84b2312aca88e, 0xc6103a6633a790c7,
    0x86cb1bb5169887f0, 0x38e918bd74db2527, 0x5b44d6a714ea7b5b, 0xe0a2f25089903a63,
    0xdfc6d2267f67e7e5, 0x4644c1bed84f32e3, 0x261934b3f34f7ca3, 0x5b577c8bd95123f8,
    0xf6374c1ea4a8af1c, 0xf91a2c068d9a62c4, 0x251d99ce65a15007, 0x0c7389eb21906257,
    0xf8f79d2013b96f4f, 0x454718618f647111, 0x5b18fc48f09ecc86, 0x75cb33f81aeb2ed6,
    0x9891d16559d492c3, 0xdcf7bae1fa6748da, 0xf597ebe3d885c4d3, 0xd0c16cfd7da0c0e2,
    0xc1f7485701f2d88b, 0xb698693ee1a00521, 0x1b7cc4acf09040bd, 0x5bda8daaaf465355,
    0x9f8594d7420ddee0, 0xd7c86236875c7bf1, 0xe7c0f5c5e50d89c5, 0x40a3666d688555c9,
    0x769ef293681c80b6, 0x820a164596a082d2, 0x1c4d57157c352c44, 0x0336baca78fd286d,
    0x90d0bd24511ebc48, 0x09222a31e88081d8, 0xc750e1b81a6f4d1f, 0xa3528c7ffdcfa3d2,
    0x485eb872cf1e502e, 0xb151ee935e1b1ee5, 0x6aa416e078d0686c, 0x539032408bf4482d,
    0x375609cfae267cfb, 0x7cb4b1a322b0022d, 0x970d5cfe4b33f6f4, 0xd7b45d410ccc6756,
    0x06fdaf900dd5194c, 0x797ae92b3c10b29c, 0x335abef63766650c, 0xbc9d7342fcaeeefe,
    0xe9f5b3d350aa48b6, 0xa1a8a3d3e5dbdee0, 0xeb1fdccf821d2d5c, 0x560d1903ef011409,
    0x7ee7203ce8000d17, 0xa55b61f0eeec0476, 0x782cc1431d10181b, 0x17d284dfeac09dc3,
    0x927ac5fea79e4924, 0xd18a7ee14efb7a28, 0x84c6511afee91094, 0xb042f94affa23fd6,
    0x99f5969aafb7938d, 0xb4b64beea14ea939, 0x3e0ea283f71d2935, 0x94eb318c4d0004d4,
    0x55a7d0a9183ad584, 0x976b5bbbf01e6809, 0x7e2c4d8706542cea, 0x1c3e28a6a9b578f3,
    0xdda71f8735d02100, 0x04f86ecb29535b58, 0x35d18e98702cb2a0, 0x1e5cfe70b2e15a0f,
    0x9ef0e9c522d3c3c8, 0xa80557caba1bf85a, 0x5c0f997c497285dc, 0xdf90173c33b5a4df,
    0x2ad4969112800391, 0x283e7ef7a3d44f40, 0xa65941bd2d57cb58, 0x02d4ce105323c72f,
    0x311f14aa5b1b3bf0, 0x834311adeb5170d3, 0xd1ebfe46879c7384, 0x410c6f2dc8a2e016,
    0x1db3bbedd8d18966, 0x085c0ad77e71040f, 0x7e8284703fbef0e4, 0x1d39722f9ac33755,
    0x4103eeaf043301a4, 0x5095ac63cc22a121, 0xc540fd565949eb33, 0x5eb8b45e2cdd3d17,
    0x8110d43ba76b79b1, 0xab0f061c5f35cb3a, 0x7a14ab21fe85ce45, 0xd3df180046edc9e4,
    0x71200521a4c68523, 0xe2230d815eee5d04, 0xd2ec206988af34b4, 0xa022eb56df1a65b6,
    0x018fb7a2a010025c, 0x553d9b00c8af8d73, 0xd29842c104c29613, 0x4e31f945df8201dc,
    0xcc1301e71ebdb56d, 0x53487adc17c61f33, 0x55a9cdb455e67e19, 0x5f9a67ad86895683,
    0x9583ff5a4d65e343, 0x61c50f1662e05b94, 0x6bbbd7b5759bb17a, 0xd33cb75f3f56f0ca,
    0x9127a5aaf259c6a7, 0xa98644d545720514, 0x36e60076ededfe17, 0xe7978835d8b39f9b,
    0x7ceb430365a0cf11, 0x63720da382f9fb36, 0x869fda17e04ef2bc, 0xdf7decda98cb5250,
    0xbd5c7de1f354cb01, 0x775a4edb00d23cd7, 0x3cdb134f06c6d8bb, 0xf51b00c63d87322e,
    0xeb4b9f4797a19ee3, 0x3e28ce7ba27d2943, 0x2d45b8a2548393ee, 0x1a3780f325b9acb9,
    0xab74b4c31abb2d93, 0xec94835517d74545, 0x681433f8f82ae6b9, 0xa865d9ddfc699013,
    0xde78d0c03486fe87, 0x0da33afe6abbecac, 0xbcdb006f9816d98b, 0x6250602a226781d7,
    0xfb474e84f776df0e, 0xa7ec3658e0c63f31, 0xe08fdc89172a051f, 0xb49855e458afd6c7,
    0x0284136f0956d08b, 0x04c896d847c74ed4, 0x8e568f4c55ef6b12, 0x519df8c3c0ddd4a9,
    0xb7f979b970528bd4, 0xc40e267036fa9869, 0xeb3c58c1499c4268, 0x535976aaa95eedb8,
    0x6a447f7d5875e085, 0x735ac3d7b96bb24e, 0x5541d415ae5744b1, 0x0d5ac95945cf43b5,
    0x8e5e3a372bfe7d3c, 0x49077c12fa51c1ca, 0x7e6ed24e695f0b22, 0xd6550c218a400e4b,
    0x8d76dfe25209a5cd, 0x312639541e6d6bef, 0xefe12531e567f768, 0xf17cf41a9c4611bb,
    0x264bd5aca1aeb9ba, 0x5fee716972df7a4c, 0x1ae04d86321d6373, 0x35518a5848ae5a68,
    0x44375896a85893e0, 0x9eb4dbce125f5dbf, 0x31911881eff4c5cd, 0x1f2eb83939eaf57d,
    0x61c801a52d9e50b1, 0x50083a087c2fb0bb, 0x856052eeb018c2b1, 0xd7354f1cbde3fef4,
    0x295eec9ff4724ac2, 0xa97f0309571da8d5, 0x76eddfc8238dcaec, 0x80974e0fea73843d,
    0x1e91636fc83dc494, 0x1ed7f235791e20c9, 0x003273947b2f973c, 0xe54adf7d4d2300a3,
    0x2bf0b39c6d3b2eb6, 0xca66ae7aee826d28, 0x1aa0022551a77331, 0xb9330501bd53655c,
    0x7851cd187e35be22, 0x4e21a6999fd9b073, 0xd753f967d7dc5252, 0x14726d76de90e6fe,
    0x4901bf2e2a5957a5, 0x840eeaeb54b590f7, 0x57006e709f40829e, 0x7aeff7d77a4c5da2,
    0xf3b4de3b5df9fc6b, 0xd9c10cefc1a9f15a, 0x649ca66c65ef8ed3, 0xdc939759ac20a8c6,
    0xe42f7b5f114abe2f, 0xea248dd62a957c2d, 0xbd5c1b50bb2d2bbb, 0xc9701522a6a8abb4,
    0xf34bfd27eb120e06, 0x3e710f9e342389a0, 0x9ca1370016fcfac9, 0x3b34be6955ded8e4,
    0x661fd9573df0b46b, 0xefa50275b3c48bfe, 0x961c980ca25e2ef1, 0xe4f7e291853649d0,
    0x7e66e659c334808b, 0x3e9e94a1e28cf709, 0x9400363fc7f57dd6, 0x1b085b54c25c6d97,
    0xe3f77c8f2fec6359, 0x5d0bb438c386133e, 0x5254a037cbe4b32d, 0xe8b436dd80610b10,
    0xcce7fd6e0c4448bf, 0x4602a1ddcd147d99, 0x7232b2f0129afa1c, 0xfdc6c32a8d031d7d,
    0x9ad1edd07ce98816, 0x61d6dc6479660e69, 0x0e32ecbe2083394d, 0x5cb4867a23d5470c,
    0x8dbecaa60c6382aa, 0xb61ef56099e3f223, 0xf1645a103aa980e2, 0x98959b0ce452cad7,
    0x6740cbbf505a41be, 0x565c032fce3f3c95, 0xb1bd4b914c016127, 0x423ee9a489232e47,
    0x272fdbe5353fdb11, 0x45f45f2234ce4334, 0x43c4d5f8bd46b36c, 0x3ea17f0e3afa08dc,
    0x967446bb624646fd, 0x325243d0b93acdd2, 0x2f5a072d7b1f155a, 0xc7cdc4cf85363fee,
    0xbf8d6baf44faffb2, 0x3b5a2c2fd7ff95eb, 0xa65d6528d1834600, 0x10ffb6d4e68f13eb,
    0xef9ec0c2ff223284, 0x73aa4b39b475cf4a, 0x58beb4297ff51891, 0xecbcb05c53fd9161,
    0xdebaf175f8ba41d2, 0x0e112c98d1f6cca5, 0xf19b8dabf5cd7b6f, 0xa1fef69283f0275d,
    0xc11cfce423987df1, 0x08d0b6f0bd4de041, 0xc1cee538e01146a8, 0xae465aaccc28562c,
    0xc00b8e29062f4dee, 0x17dda2d4ae671479, 0x0a8c791b474222ff, 0x7a6556fa32375533,
    0xb720dfff0d4e8718, 0x9511ba17ce46e01a, 0x2ed2d7a0634be279, 0x8dc86ae2ca0a0f10,
    0xa192f6828faf9a5e, 0xafb83119f91de567, 0x5d7ce9543f75dbe3, 0xe4c85490693c3836,
    0x1c0ad41cc51327ce, 0x88e682b1b5f698c9, 0x1687eda7176a4120, 0xb33e9243f4e69a3f,
    0x34792e46d45f206e, 0x64e04e76e7b0a214, 0x1d388833dbafe88f, 0x89ec72ad9e5e59d9,
    0xb440caeb56dabfbe, 0xc2af281c1c3d4af4, 0x6f8e276fe4bac788, 0xddf9a8d10ce83df3,
    0x1cd3eb5935fac003, 0x9469b441a9c819c4, 0xc4e1197197fb538f, 0x76b93085bd69784c,
    0xe48323037de57620, 0xeebcd5707168e94d, 0x25da389051c34124, 0x91a9e32c3daf72c1,
    0x696cb658609e0cdf, 0x91e5cb8694943b48, 0xc64fa19b6ab8eb53, 0x2aabe946206bc252,
    0x9f70c568e414f28a, 0x895f537ee30f23c2, 0xa19b2c8d5051c5ef, 0x353e60ae2d61c10f,
    0x312bedd5a6bc139f, 0x4990cf0a13aca3f4, 0x0cf8c51a38c52032, 0xa7f669728cd6878a,
    0x9975bc99527495f3, 0x470d2946a786d457, 0xeacaa3a583e6f839, 0x1a67a55203e791d8,
    0xfa50dbe8afe27735, 0x0f1e8774569519b5, 0x82a948524b5390b4, 0xcb5d25dad024be60,
    0x12109caa563a8573, 0xb87d73fb63dee039, 0x111eb975dbdcd7e5, 0x73755e6e191e494b,
    0x0e8c8ee1859fa8f2, 0x597e9681b6189b38, 0x7686c4d2e3292eac, 0x37755f53ac6fc613,
    0x5d2b20a556a08526, 0xf94f1aceb70ca21e, 0x8a2a5490790e8bbe, 0xe1c67f652e5e7e8a,
    0xfd92db4f633afc07, 0x0c3f002b74514393, 0x9b89aaf32e643680, 0xeaf552e0740f4171,
    0xd9bf29f146298a87, 0x8a87bf3478bcac97, 0x72b6c88fd3d722a2, 0x47c54d830c10846f,
    0x95f3d879aa17d9f9, 0xa190f78c3131f7e7, 0x035f0306cf53c286, 0xd4a9d3c5925f4e5d,
    0x1e45cb8551a5c096, 0x57c46b73740b7fc0, 0x3e69a1d89d7e666d, 0x2b4c442f86f042ef,
    0x38c5ea902ea10110, 0xee0dc7edc370dd74, 0x8ee682732dbafdcf, 0xafd0ade7fbf5c069,
    0x3bdc65e1cd8759e0, 0xdcb7058b21e00274, 0x30526197d77185f2, 0x566d95abdbabfb4f,
    0x5295698429c2ba9f, 0xbe3fd3e0a15674fc, 0x2b5944c9a44b89b3, 0x8d04ec7f3132cd8a,
    0x9c7b88236f1b3c10, 0xc1389905366e3c27, 0x7f15888c6b92f23c, 0x6235c1f19fccf7b6,
    0xac1bb6ac9481a9a0, 0x7b5ff5a12910cb29, 0x952bb5827b82d43d, 0xd2ff886ed66bf764,
    0x28f17bf1520b515e, 0x1f84383eee51008a, 0x9e0bc0dc23f3bc21, 0xeeb18c3e2edaf741,
    0x65cb7d8e5e369f93, 0x8d4d1fb6c2499cf0, 0x418736431ccfc003, 0x8872e910ccafb433,
    0xcaf8b00e92d107c5, 0xf7f4fc37ca33cf2f, 0x633101d2aaed6686, 0x96c8e4bcc44e8e46,
    0x165403906f276aeb, 0x01fe681e9749e5cb, 0x09d2e14fca407514, 0x1189660c0a6a4a0c,
    0x3fde191ba3d4780e, 0x457bb1c9914c9895, 0x582c7bbe3230902c, 0x9d1e54f0979c46b7,
    0xbeae12533c13e4ce, 0x3e0e1a3cc594c11b, 0x73a551b94380bf6d, 0xdf2190051e8125f5,
    0xfc414d3c5276bb4a, 0x65ceac62a76f12e1, 0xb4782d7990a5fc32, 0x0c400e7602bb2c9a,
    0x36505a7cc702c7b8, 0xf208b4da28ceda94, 0x7d12fa2695fe80d4, 0x4b9b8c4c64c1b60d,
    0x921e473c401ae41a, 0x576e0f231f9a53e9, 0x07c4909d739515ba, 0x2bc544b5776d2417,
    0x6e76fcad7cc037cc, 0xeb5720b4c9200eec, 0xf185c591e42b581e, 0x95559a3fa6dd54d6,
    0x9b9e2bc8a051eb12, 0x3833b7b71aec988d, 0xd885aa5be23ef936, 0xc9deb6bd36333711,
    0x0a06755ccd6b4e91, 0x5690eca2980da056, 0x6ff8faf7d3b821f3, 0xdd0171c04f071e86,
    0xdfb9dc03f2a3fab6, 0x6547ef013a3f9251, 0x7aa645de41f6cc4c, 0x29d86be2aa1704c2,
    0xb5e2d11fd865ccc4, 0xed51033a87ef5c0c, 0xf2a253c5f56c2b17, 0xb3060a76aa8ec57e,
    0x0d5297100634506b, 0x1230e1604de9ceee, 0x8f1d8d84cae65d90, 0x03d82bdb705de96d,
    0x63fdbd38d1812743, 0xb152531657294a9c, 0x417f5cd1c2baa760, 0x4438513ca7619236,
    0xe52c46d0a4863f3b, 0xc8e71dd038201923, 0x45e83b4532c75d99, 0x777c8e39845b8f73,
    0x3bbaa6fa80ea0cba, 0x780f357a9475010f, 0x0c68b1505adb0575, 0x9ca5dfdb58570777,
    0xf87c660298561922, 0x7a3d365eef3dd5a8, 0x7e701fa71a8fed45, 0xeedb120fb33ef38d,
    0xa719d4b424c2efc7, 0x6e47c29ec365eeba, 0x29e03cb326b4e9b5, 0x7995f5c2d25f27dd,
    0xea13153284240343, 0x1adfdb14aaa3daa7, 0x376e9996a80f1f5b, 0x4e401e9da7b1bca5,
    0x95212ba7b0a3300d, 0x3d8b2d5a5448edf5, 0x204ee6054ff302a8, 0x66ead303239db161,
    0xd53fc26aeb8af836, 0xa277d28830ff0c1f, 0xdc9f42c603443c65, 0xaefe608d0b36b360,
    0x8e30ddc4445cdd18, 0x9e04b954139985e8, 0xca3a4c998d2bbcb0, 0x413349ac06ef339b,
    0x78f93d38b5791a19, 0xa5276b7d6bc20e59, 0x06e7820b563e010c, 0x30add7964d6c4c6f,
    0xe18b32cdb4648e79, 0xdbdeb827c9020bbb, 0xa55b0e5f46904bc7, 0xf575f0984604653a,
    0x92270eb0802e549b, 0x1279d0eafa5307c8, 0x11f875b5953a08a7, 0xe2207d02cc87f2d9,
    0xee3b36a99b23fce9, 0x92c8ec9ecda785b8, 0x1aa01fe955f096e7, 0x35df4cf90d890885,
    0xc3aef86382d07394, 0xf84f004324e95481, 0xf471d903cc0864f0, 0xf2849f306bb83ee7,
    0x180d1f05c1563e3e, 0x8e1bbb5b702e7900, 0x094c366d3340433d, 0x5402818e6d3b2eb4,
    0x800dabcbefb48823, 0x0a9bdee812a50168, 0x3938d3027b253d26, 0x7f7689bc0d0175a4,
    0x6b3679d8848f8d43, 0xc9b455f4b663065b, 0x7fc6abb7e5d84651, 0xf4eb37b81044df4a,
    0xd847af6941958529, 0x883f32dff8d9c6f5, 0xe4e3a81453ae796d, 0x02cd6d6caa4cd188,
    0x8917d2300b45f7e4, 0xaa3a25ad8235a214, 0xb51812d81f917e19, 0x55ed99f2decb604d,
    0xe71f1f558de40fad, 0x475467ba790f179b, 0x926867ca83903109, 0x53db38ffe0ef546b,
    0x145583a715403af1, 0x39eaa2a84e64b09b, 0xc064db85e7933d5e, 0x9138e0652d7b3fbb,
    0xf650b1ba5d075130, 0xc5837bc5c94cb9b6, 0x3be88ba136031fe6, 0xca2dae77b1cdca6b,
    0x83aca618b26e66f9, 0x08a47dead3d0328c, 0x80f75190eeab47b6, 0xf81ed6f4dc67368c,
    0xf2aa9f2d60076a32, 0x3cb5343ab052ba29, 0x9e4c404d1edd21ea, 0xca7ab4ea671354c5,
    0xd5cee2710086a643, 0xc02d340d3f0b2dab, 0xba5b14d9927ffbfb, 0xd63437fd0aab3894,
    0xd0329dd2d8ef0117, 0x0e7210793ce5d67a, 0x5506f3fc73259860, 0x97ab740945fa1a95,
    0x0e16263efbd6c582, 0xa4ccc11ca46a7d1f, 0xb27f4da2b7379cb4, 0x20cbdbb73c27a239,
    0x538eaa88ac2e2ff5, 0xdbac6ea2a63c098d, 0x80e306fa5e912e68, 0xa10d33c538c58603,
    0xd344ce24d37b05d6, 0x0dce76fe59f9e81b, 0xa7bfb3aef4c62048, 0x6f7415d66d218cc6,
    0x99269eeb7c89ad3d, 0x5acbb8671e615d83, 0xbda264dfc69892ec, 0x440516586ee9f836,
    0xb69ee9f4cdf8095d, 0x3de86e9bb60ae96a, 0x6638dfc955f802a1, 0xcb1da951a81ec683,
    0xd50ac0649177c11f, 0x58effdb18b57e48e, 0x06fc741ef0d7cba7, 0x1966a6cbc6678ff9,
    0xa07a5fb9ffd1b9cc, 0xacd34291d5be7391, 0xb464a5c1bdcbce5a, 0x012f251662eca730,
    0x07d61493cee1e952, 0xd9b254d398e079c0, 0x664c011f2a23a3fc, 0x85217c4890075c27,
    0xff25832a80bca51c, 0x0fae3b5e1b53c2e5, 0x345a645de54cb363, 0xd6cc42041838ce98,
    0x69d828320e5b8161, 0xb2d4cefd2852e53d, 0x7c2d5805d1b2f004, 0xa1cacb7246f6e4e5,
    0xfff6ed455903a624, 0x6cbefc3d7b11483f, 0xabfb8076bce5d3e0, 0x24b4e1152be5e646,
    0xb3728d25d58494dc, 0xd5fc8ea24f57165a, 0xc2529fd346af06e8, 0x1e040682fd38a7fe,
    0xf456e36e1f57c8e7, 0xd9267f4999a981d1, 0x222e12e657387c25, 0xe8645c14c3ee5396,
    0x06941c7aa2171eec, 0x6d8cb0c2f50c9da5, 0xd85c8ad81ee1c8ae, 0xa15b55c2348a4810,
    0x37c625058dcac591, 0xfccd41d761f50636, 0xe07d5c2197570352, 0xe21dba7366178de9,
    0xefe447505ace548c, 0x050d6a7937474de7, 0x4a3ca1cc5e9b3851, 0x88e732c96ddaf0fe,
    0xdda1a08920a8cf73, 0x41d68f40ae2f29a2, 0xce1f06e01d221ee3, 0x858782a834549a1a,
    0xc12ce4d6bac9ddb8, 0xe4955bbd7e711eeb, 0xb5bfe6710edeb34d, 0x7cc10b44245ae525,
    0xbefa86c31ed1ce51, 0x77d5220df1f69af4, 0x0dc8bb1f98605031, 0xcef6a00a97674b7a,
    0x90295a253eb5f259, 0x8492183d8969b540, 0x6b6ff48d8652f628, 0x63153abbea6f459e,
    0x33a65b6d2cb85f61, 0xc9c1509d76d63a05, 0x0255e0f917aa90a3, 0xcc83d2e6df02c86d,
    0xc2c67b491ef09ebb, 0x960216f77dd68653, 0x9536ce99ce89e9ef, 0x94b690042e9f5305,
    0x5576215113a00dcc, 0xfea756a48a5da08a, 0x4818cbba9a843e9c, 0x518ad427a5b8fa23,
    0x741848a1a088fede, 0x012fcaf324359a24, 0xce9a22174cec6a1f, 0x673e79b2f408ffc9,
    0xdc6c48bfb99c8b97, 0x8ef695513bf77055, 0x50325e94ff1c3edf, 0xce88afa6a6e9591a,
    0x6e7f7817d85f4975, 0xf6a2e8d5a3f1c8b6, 0xec3f87d2b482ad1a, 0x6b8557d3d87cd3cf,
    0x4d7ca40a8c16aba7, 0xfe15b8af7f67fbf5, 0xec52f3a3d6607444, 0xf0324b8d0f7c4c16,
    0xa6b266776112c920, 0x033e9a253e6a95b1, 0x6bb4edfd3e0a7b2b, 0x650748d4f5e90940,
];

/// One key per castling-rights value, the stream of seed `CASTLE_SEED`.
pub const CASTLE_KEYS: [u64; 16] = [
    0x7a7035fce5ebf19f, 0xc45a647bd2729a7f, 0x723fadae16f2d48c, 0xb121e23e9cf9e167,
    0x0c8e2a61a946ae2d, 0x15e7edbaa7554e37, 0xa5a4186f3593ba7a, 0x6ae1f57f64c7dbe6,
    0x6229937c3a5d148a, 0x0b3a81b747ee4e7e, 0xae686196ba9aab61, 0x4ec54a25309a6e46,
    0x505703352f2cfb9b, 0xf4f9b0a0fc5a43f1, 0x8a42071929aee1ec, 0x492df1362c300589,
];

/// One key per en-passant file, the stream of seed `EP_SEED`.
pub const EP_FILE_KEYS: [u64; 8] = [
    0xfe09b131b55d6b3d, 0xbffcf97d0ca992de, 0x00a0a72d6ef771f0, 0xe37c6882a42c4b26,
    0x197403c0a7587a3b, 0x0a8c2bea09b0e5f3, 0x3b35c028cf2b33ca, 0x8d761ca68e84e673,
];

/// One step of splitmix64: (output, next state).
pub open spec fn spec_splitmix(state: u64) -> (u64, u64) {
    let s = vstd::wrapping::u64_specs::wrapping_add(state, 0x9E3779B97F4A7C15u64);
    let z1 = vstd::wrapping::u64_specs::wrapping_mul(s ^ (s >> 30u64), 0xBF58476D1CE4E5B9u64);
    let z2 = vstd::wrapping::u64_specs::wrapping_mul(z1 ^ (z1 >> 27u64), 0x94D049BB133111EBu64);
    (z2 ^ (z2 >> 31u64), s)
}

/// State of the stream of `seed` after `i` steps.
pub open spec fn stream_state(seed: u64, i: nat) -> u64
    decreases i,
{
    if i == 0 {
        seed
    } else {
        spec_splitmix(stream_state(seed, (i - 1) as nat)).1
    }
}

/// The `i`-th key of the stream of `seed`.
pub open spec fn stream_key(seed: u64, i: nat) -> u64 {
    spec_splitmix(stream_state(seed, i)).0
}

pub fn splitmix(state: u64) -> (r: (u64, u64))
    ensures
        r == spec_splitmix(state),
{
    let s = state.wrapping_add(0x9E3779B97F4A7C15);
    let mut z = s;
    z = (z ^ (z >> 30)).wrapping_mul(0xBF58476D1CE4E5B9);
    z = (z ^ (z >> 27)).wrapping_mul(0x94D049BB133111EB);
    (z ^ (z >> 31), s)
}

/// The first `n` keys of the stream of `seed`.
pub fn build_keys(seed: u64, n: usize) -> (out: Vec<u64>)
    ensures
        out@.len() == n,
        forall|i: int| 0 <= i < n ==> out@[i] == stream_key(seed, i as nat),
{
    let mut out: Vec<u64> = Vec::with_capacity(n);
    let mut state = seed;
    let mut i: usize = 0;
    while i < n
        invariant
            i <= n,
            out@.len() == i,
            state == stream_state(seed, i as nat),
            forall|j: int| 0 <= j < i ==> out@[j] == stream_key(seed, j as nat),
        decreases n - i,
    {
        let (k, s) = splitmix(state);
        out.push(k);
        state = s;
        i = i + 1;
    }
    out
}

/// Key of a piece of colour `color` and type `pt` on square `sq`.
pub closed spec fn spec_piece_key(color: int, pt: int, sq: int) -> u64 {
    PIECE_KEYS[(color * 6 + pt - 1) * 64 + sq]
}

/// Key of the castling-rights value `c`.
pub closed spec fn spec_castle_key(c: int) -> u64 {
    CASTLE_KEYS[c]
}

/// Key of en-passant file `f`.
pub closed spec fn spec_ep_key(f: int) -> u64 {
    EP_FILE_KEYS[f]
}

/// Key of the castling-rights value `c`: entry `c` of `CASTLE_KEYS`.
pub fn castle_key(c: u8) -> (r: u64)
    requires
        c < 16,
    ensures
        r == spec_castle_key(c as int),
        r == CASTLE_KEYS[c as int],
{
    CASTLE_KEYS[c as usize]
}

/// Key of en-passant file `f`: entry `f` of `EP_FILE_KEYS`.
pub fn ep_file_key(f: u8) -> (r: u64)
    requires
        f < 8,
    ensures
        r == spec_ep_key(f as int),
        r == EP_FILE_KEYS[f as int],
{
    EP_FILE_KEYS[f as usize]
}

/// Key of a piece of colour `color` and type `pt` on `sq`: entry
/// `(color * 6 + pt - 1) * 64 + sq` of `PIECE_KEYS` (each triple its own
/// entry).
pub fn piece_key(color: u8, pt: u8, sq: u8) -> (r: u64)
    requires
        color <= 1,
        1 <= pt <= 6,
        sq < 64,
    ensures
        r == spec_piece_key(color as int, pt as int, sq as int),
        r == PIECE_KEYS[(color * 6 + pt - 1) * 64 + sq],
{
    PIECE_KEYS[((color as usize) * 6 + (pt as usize - 1)) * 64 + sq as usize]
}

} // verus!
