//! Gear hash: the rolling hash behind content-defined chunking.
//!
//! Each byte value maps to a 64-bit entry of [`GEAR_TABLE`]; the hash state is
//! updated by `h' = (h << 1) + GEAR_TABLE[byte]` (wrapping). Entry `b` of the
//! table is the SplitMix64 finalizer applied to `b + GEAR_SEED_OFFSET`.
//!
//! The cut-point search scans forward from a fresh (zero) hash state and stops
//! just past the first byte at which `hash & mask == 0`.
use vstd::prelude::*;
use vstd::arithmetic::div_mod::{lemma_add_mod_noop, lemma_add_mod_noop_right, lemma_mod_multiples_vanish, lemma_mul_mod_noop_right, lemma_small_mod};
use vstd::arithmetic::power2::{pow2, lemma2_to64, lemma_pow2_adds};

verus! {

/// Offset added to each byte value before mixing (fractional bits of the square root of 2).
pub const GEAR_SEED_OFFSET: u64 = 0x6a09e667f3bcc908;

/// The SplitMix64 finalizer.
pub open spec fn spec_splitmix64(seed: u64) -> u64 {
    let x = seed.wrapping_add(0x9e3779b97f4a7c15u64);
    let x = (x ^ (x >> 30u64)).wrapping_mul(0xbf58476d1ce4e5b9u64);
    let x = (x ^ (x >> 27u64)).wrapping_mul(0x94d049bb133111ebu64);
    x ^ (x >> 31u64)
}

/// The seed from which the gear entry of byte `b` is mixed.
pub open spec fn gear_seed(b: u8) -> u64 {
    (b as u64).wrapping_add(GEAR_SEED_OFFSET)
}

/// The gear value of byte `b`.
pub open spec fn gear(b: u8) -> u64 {
    spec_splitmix64(gear_seed(b))
}

/// One step of the rolling hash.
pub open spec fn spec_update_hash(hash: u64, byte: u8) -> u64 {
    (hash << 1u64).wrapping_add(gear(byte))
}

/// The hash state reached from `h` after reading the bytes of `s` in order.
pub open spec fn roll(h: u64, s: Seq<u8>) -> u64
    decreases s.len(),
{
    if s.len() == 0 {
        h
    } else {
        spec_update_hash(roll(h, s.drop_last()), s.last())
    }
}

/// The hash of `data[start..end)` read from a fresh state.
pub open spec fn window_hash(data: Seq<u8>, start: int, end: int) -> u64 {
    roll(0, data.subrange(start, end))
}

/// Scanning from `start`, position `p` (just past byte `p - 1`) is a cut-point for `mask`.
pub open spec fn is_cut(data: Seq<u8>, start: int, p: int, mask: u64) -> bool {
    window_hash(data, start, p) & mask == 0
}

/// Some position in `(start, end]` is a cut-point.
pub open spec fn has_cut(data: Seq<u8>, start: int, end: int, mask: u64) -> bool {
    exists|p: int| start < p <= end && #[trigger] is_cut(data, start, p, mask)
}

/// The first cut-point `p` with `lo <= p <= hi` for a scan begun at `start`.
pub open spec fn first_cut(data: Seq<u8>, start: int, lo: int, hi: int, mask: u64) -> Option<int>
    decreases hi + 1 - lo,
{
    if lo > hi {
        None
    } else if is_cut(data, start, lo, mask) {
        Some(lo)
    } else {
        first_cut(data, start, lo + 1, hi, mask)
    }
}

/// The result of a cut-point search over `[start, max)`: the position just past the
/// first byte at which the hash meets `mask`, with the hash there; or `max` and the hash
/// of the whole range when there is none. An empty range gives `(max, 0)`.
pub open spec fn spec_cutpoint(data: Seq<u8>, start: int, max: int, mask: u64) -> (int, u64) {
    if start >= max {
        (max, 0)
    } else {
        match first_cut(data, start, start + 1, max, mask) {
            Some(p) => (p, window_hash(data, start, p)),
            None => (max, window_hash(data, start, max)),
        }
    }
}

/// The inputs on which a cut-point search reads only bytes of `data`: either the range
/// lies inside `data`, or a cut-point occurs before the end of `data`.
pub open spec fn cutpoint_in_bounds(data: Seq<u8>, start: int, max: int, mask: u64) -> bool {
    start >= max || max <= data.len() || has_cut(data, start, data.len() as int, mask)
}

/// Pre-computed gear table: entry `b` is `splitmix64(b + GEAR_SEED_OFFSET)`.
pub const GEAR_TABLE: [u64; 256] = [
    0x1ac046dda8e86e2a,
    0x63cfc62a2b097592,
    0x15f3d5ce8accaf75,
    0x22ba8126b83056e0,
    0x30e1f4aca1257f9f,
    0x631217c2fa2cc3fe,
    0xde18ba9e4bc6ec06,
    0xd6905161b54e1926,
    0x9a90df7d5431cd80,
    0xdf19ceae3f47314c,
    0x4dbdbb887724dc8e,
    0x9a7534d2dfe08821,
    0x6d63e662843a7b11,
    0xc0f43a8658493eac,
    0xe3f977ceec58b732,
    0xcf72808842402c30,
    0xf3fb1b1bc29ec55b,
    0x51eea7e59ba168be,
    0xbf70f2791455b722,
    0x35591cb085b9aff2,
    0x5e1c87b402dc5045,
    0xa97189be322e7312,
    0x1cb3fdc4c517bed2,
    0xf2e17a9dbcb8b5fc,
    0xec851a3f8cec1a87,
    0x1b46c98a56400fe9,
    0x35e9741e764e9985,
    0xd86e1008eac15bc5,
    0xeef6007871e4de48,
    0xf91f0f9ed144accb,
    0x541106654da41375,
    0x78361825a20eeedb,
    0xb2fbf5938b7c1b07,
    0x5f941b4c060a9c17,
    0x8ef07f4d2a8b639c,
    0x5a6882f443833af9,
    0x3f623790668d52da,
    0x5d903b53d7c7c058,
    0x5a1d847e9a0df091,
    0x89a023eb9c95a0b7,
    0x415547f6b6b36485,
    0x41d0c33204a8e14a,
    0xaf9fb5a9fc86e5c1,
    0x9533f6c0a8845a26,
    0xed53dfddc0b6a521,
    0x1664e648286ef2d2,
    0xdc3e6007860f815c,
    0x1e83d46c47c10aa7,
    0xaa2e13d7c7ba285d,
    0xb020bb9aa0a48867,
    0x6f2164ebb9292561,
    0xb0bc70b34a90948a,
    0x85c52c603bd361bf,
    0xd5655f87e81b5977,
    0x027b2418cae0aebe,
    0xa8cbdcf01ebd9f52,
    0x4e89d33c009d308e,
    0xf1bf441d05e883f0,
    0xc019459bab480a9e,
    0x67f6c3b0fce03cdb,
    0x51abb04cee08656c,
    0xec8c967efa87fb9a,
    0x81ae1277b002a26f,
    0xf1b2277160780dec,
    0x1a031ddd7f476814,
    0xde5b59bd5f02ec93,
    0x15469e53235cf097,
    0x22f55faa21af3660,
    0xa8d5e778a2ddb660,
    0x7f681bb7cac461c3,
    0x50acb191c6a34c44,
    0xb6255fb3fe3ac53c,
    0x8e3a16ba6d1ae5f3,
    0x61cc025203393cbe,
    0x877041b5e98603e5,
    0xd05a8617c4cb2f85,
    0x60baab40280d66f3,
    0x6c8f8ac6cb096faa,
    0x09df03838aad8b32,
    0xfb78a7a8eef7a788,
    0x1f3c6bf3a558162b,
    0x47069120798c1b8d,
    0xef95a24b9c920fd7,
    0x87116493da980a17,
    0x11f8aaac71c11d79,
    0x1ee559c809a41d0f,
    0x89cc746e7cf985f6,
    0xa7e5ddf6441b9899,
    0x81138d1c2bc1be49,
    0xb51a441454654b32,
    0xaf0fc645da77684f,
    0xa4bd4d7e7db5ff71,
    0x1bc718097e1c20ca,
    0x05c474d02e792ec8,
    0xb3090ac7bc8a528a,
    0xd562c380235f5acb,
    0xf6a0c948bfb4e16d,
    0x46db4b19d5eb53c3,
    0xea166b7ffa7daaf1,
    0x42d3e1086121ade6,
    0xd09ab215446fda79,
    0x6cf215fb57034fa7,
    0xaac8ee675bc66123,
    0x4e38ec67889ac6fe,
    0xca3397acbdef9d58,
    0x6e91f2badeaafaea,
    0x308123992f53ae67,
    0x9805b791c0fe96b1,
    0x47a1322dca6caa45,
    0xf7bba87ac2b028af,
    0xf89ec1035175a1a7,
    0xd63f61c0e827832f,
    0x7c83c233e2e7dc5f,
    0x4c2ce4bba7f9fdc9,
    0xbda26257bd936a5d,
    0xbadd95ee64a9656b,
    0x7d608aa2c3ac0a7a,
    0x356989d39feba5c5,
    0x9ecd9fdfb05bf32c,
    0x5f80018c5072ab97,
    0xf8748e3d03367509,
    0xcf82b13623a7baf4,
    0xadbac479f3883166,
    0x852bf2e0c76482bd,
    0x60b749a20482a298,
    0xf54626d9a588fb4b,
    0x883074d9c55dd305,
    0x299f26716227c7f9,
    0x3918a26471d8aae4,
    0x7302c7c86d04aafd,
    0xf8804199e8910b4a,
    0xae105a4b7a486826,
    0x6c2ad7ff10385d7b,
    0x6e937eab3996e723,
    0x67f3f429ffa36081,
    0x7e427c7f3f22dd93,
    0xdd991c2b2bcc7a66,
    0xe8532415be1ab18d,
    0xac9d34736b6ce755,
    0x17e9b746ab09e9a2,
    0x5d208308d510e573,
    0xa4a6a7ef7320f851,
    0xdf7a7a06d5debdc8,
    0x37c9376c02366f11,
    0x5d62d77ca3b68cd2,
    0x928bd7af3f387fda,
    0xd5128d9fb67e8451,
    0xac41514024a8593a,
    0x34ffe021c3466bb1,
    0x4257359467f64658,
    0x811a27cd219ca45d,
    0x74938a6722ff35a5,
    0xffd5ca5d5e0d25f8,
    0x7817147197fc4335,
    0xd6ca9cb1d5f930a8,
    0xbc864713f385e3b8,
    0xcd6d81c21df5f6d1,
    0x8fa415e8c3ccd249,
    0x17199a575c4d4956,
    0x28ca10572be3c579,
    0x59533a9b38f17c8f,
    0x52362953830fb02e,
    0x883043136ab1089b,
    0x833785dfce2c392b,
    0x07590dbbd5149bc2,
    0x5ca6fe3bd54f5755,
    0x48885b2a2f2b62d2,
    0xc3f76f66de71fd36,
    0x8e2c9156994778e0,
    0x8571470bfbc68bc4,
    0xffb1058c3f09fc99,
    0xcde99ac80ab26b60,
    0x06b89f31cc93319f,
    0xf0bb6f62452b239b,
    0xabf4f630f9c6ec88,
    0x928c246fc85ae079,
    0xea85a516f3025278,
    0x37de45cce22038db,
    0xbd53d76d9eb52e20,
    0x94757fe266bd14fa,
    0xc0a8a4d0d94147c9,
    0x1af5c8ead4ee1fc0,
    0xbfac0b82c2912d99,
    0x838ec23a40d19377,
    0xe767a23476bb3556,
    0xc88d0ec9ead5b5f3,
    0xa11a2dd155156844,
    0xad0e58ea2d3826d7,
    0x2b32c1534e22209c,
    0xf225ba78f20769ac,
    0xea4f65ac48689d66,
    0xce6e2b42c6bf8f14,
    0xc7cf3bfd5016a98d,
    0x4d444951f4f105ad,
    0x619f1a0d27969bf0,
    0x8251206c24f802a0,
    0x7a52af8f76d25466,
    0x63e17c44e005982f,
    0xbb86114277d23186,
    0x7d3cc37d1eec9ee4,
    0xba3f7e2a73cc363d,
    0x57d19907708db5cf,
    0xda8900bbeea08c0a,
    0xa5101a2c9c8e6f95,
    0x8ff39bea1a7d5a56,
    0xcfa894460c67524f,
    0xae21be5b037e5f7b,
    0x00f007e7805c840f,
    0x133eae5475e8dc2f,
    0xf5da5d1b6a3bcc9c,
    0xdf1dff99b6e53f85,
    0x9d9e32b463cf1741,
    0x7d8c4b0d095821a4,
    0x7d9be7a57a58f272,
    0xe5e0e3fac4effde4,
    0x101ccd477064d693,
    0x0fb5c373c6220f29,
    0x8b3289c16e226a0a,
    0x32d2406677e5f8cc,
    0x9328794f1e053a88,
    0x63023af117e5307d,
    0xc37eb9a3e129cc79,
    0x39bf509c6e416ff9,
    0xf6ce2e1045183d2d,
    0x7b6107675dcdc48a,
    0x0720bc9e9a151b16,
    0xa73c728fc9449101,
    0xa6020de2fad4f82d,
    0x74e88eae2764c994,
    0x29c47d3b3f7fc041,
    0x2ab1a2b23eb4acd4,
    0xba893e8ddd0aa3d6,
    0x23b06238afa6c7ca,
    0xdd0cf66fb90f75e1,
    0x1b416c517c72a1cc,
    0xf20a0192a9f66c51,
    0xcc6ed43ae094c9e6,
    0x1f25744fb8be1e6f,
    0x566d7fe105aaa07c,
    0x41e32bc8883d6e00,
    0x304ed93d48429338,
    0xc048fe0c1ff82e82,
    0xec78f178e9fd0597,
    0xa1c2ba6e80cff08f,
    0x43d6ff0baf85edb9,
    0xe745941842f0a79a,
    0x607196cbd17f6e34,
    0x1d4189ce354b96f1,
    0x0f6bd642644273ba,
    0x4cb6311a2d70820f,
    0x0ea9f4971d46257e,
    0x5ef2149f4057fd3b,
    0xb7ce796f6e980e92,
    0x0ec7120eb599afff,
    0x5ac8dcead3a44b05,
    0x3156db5ae5c8aa4b
];

/// The SplitMix64 finalizer.
pub fn splitmix64(seed: u64) -> (r: u64)
    ensures
        r == spec_splitmix64(seed),
{
    let mut x = seed.wrapping_add(0x9e3779b97f4a7c15);
    x = (x ^ (x >> 30)).wrapping_mul(0xbf58476d1ce4e5b9);
    x = (x ^ (x >> 27)).wrapping_mul(0x94d049bb133111eb);
    x ^ (x >> 31)
}

/// Builds the gear table by mixing each byte value.
pub fn generate_gear_table() -> (table: [u64; 256])
    ensures
        forall|i: int| 0 <= i < 256 ==> #[trigger] table@[i] == gear(i as u8),
        table@ == GEAR_TABLE@,
{
    let mut table = [0u64; 256];
    let mut i: usize = 0;
    while i < 256
        invariant
            i <= 256,
            forall|j: int| 0 <= j < i ==> #[trigger] table@[j] == gear(j as u8),
        decreases 256 - i,
    {
        table[i] = splitmix64((i as u64).wrapping_add(GEAR_SEED_OFFSET));
        i += 1;
    }
    proof {
        assert forall|j: int| 0 <= j < 256 implies table@[j] == GEAR_TABLE@[j] by {
            lemma_gear_table_entry(j as u8);
        }
        assert(table@ =~= GEAR_TABLE@);
    }
    table
}

/// Updates the rolling gear hash with a single byte.
pub fn update_hash(hash: u64, byte: u8) -> (r: u64)
    ensures
        r == spec_update_hash(hash, byte),
{
    proof {
        lemma_gear_table_entry(byte);
    }
    (hash << 1).wrapping_add(GEAR_TABLE[byte as usize])
}

/// The SplitMix64 values of the 256 gear seeds.
proof fn lemma_gear_values()
    by (bit_vector)
    ensures
        spec_splitmix64(0x6a09e667f3bcc908u64) == 0x1ac046dda8e86e2au64,
        spec_splitmix64(0x6a09e667f3bcc909u64) == 0x63cfc62a2b097592u64,
        spec_splitmix64(0x6a09e667f3bcc90au64) == 0x15f3d5ce8accaf75u64,
        spec_splitmix64(0x6a09e667f3bcc90bu64) == 0x22ba8126b83056e0u64,
        spec_splitmix64(0x6a09e667f3bcc90cu64) == 0x30e1f4aca1257f9fu64,
        spec_splitmix64(0x6a09e667f3bcc90du64) == 0x631217c2fa2cc3feu64,
        spec_splitmix64(0x6a09e667f3bcc90eu64) == 0xde18ba9e4bc6ec06u64,
        spec_splitmix64(0x6a09e667f3bcc90fu64) == 0xd6905161b54e1926u64,
        spec_splitmix64(0x6a09e667f3bcc910u64) == 0x9a90df7d5431cd80u64,
        spec_splitmix64(0x6a09e667f3bcc911u64) == 0xdf19ceae3f47314cu64,
        spec_splitmix64(0x6a09e667f3bcc912u64) == 0x4dbdbb887724dc8eu64,
        spec_splitmix64(0x6a09e667f3bcc913u64) == 0x9a7534d2dfe08821u64,
        spec_splitmix64(0x6a09e667f3bcc914u64) == 0x6d63e662843a7b11u64,
        spec_splitmix64(0x6a09e667f3bcc915u64) == 0xc0f43a8658493eacu64,
        spec_splitmix64(0x6a09e667f3bcc916u64) == 0xe3f977ceec58b732u64,
        spec_splitmix64(0x6a09e667f3bcc917u64) == 0xcf72808842402c30u64,
        spec_splitmix64(0x6a09e667f3bcc918u64) == 0xf3fb1b1bc29ec55bu64,
        spec_splitmix64(0x6a09e667f3bcc919u64) == 0x51eea7e59ba168beu64,
        spec_splitmix64(0x6a09e667f3bcc91au64) == 0xbf70f2791455b722u64,
        spec_splitmix64(0x6a09e667f3bcc91bu64) == 0x35591cb085b9aff2u64,
        spec_splitmix64(0x6a09e667f3bcc91cu64) == 0x5e1c87b402dc5045u64,
        spec_splitmix64(0x6a09e667f3bcc91du64) == 0xa97189be322e7312u64,
        spec_splitmix64(0x6a09e667f3bcc91eu64) == 0x1cb3fdc4c517bed2u64,
        spec_splitmix64(0x6a09e667f3bcc91fu64) == 0xf2e17a9dbcb8b5fcu64,
        spec_splitmix64(0x6a09e667f3bcc920u64) == 0xec851a3f8cec1a87u64,
        spec_splitmix64(0x6a09e667f3bcc921u64) == 0x1b46c98a56400fe9u64,
        spec_splitmix64(0x6a09e667f3bcc922u64) == 0x35e9741e764e9985u64,
        spec_splitmix64(0x6a09e667f3bcc923u64) == 0xd86e1008eac15bc5u64,
        spec_splitmix64(0x6a09e667f3bcc924u64) == 0xeef6007871e4de48u64,
        spec_splitmix64(0x6a09e667f3bcc925u64) == 0xf91f0f9ed144accbu64,
        spec_splitmix64(0x6a09e667f3bcc926u64) == 0x541106654da41375u64,
        spec_splitmix64(0x6a09e667f3bcc927u64) == 0x78361825a20eeedbu64,
        spec_splitmix64(0x6a09e667f3bcc928u64) == 0xb2fbf5938b7c1b07u64,
        spec_splitmix64(0x6a09e667f3bcc929u64) == 0x5f941b4c060a9c17u64,
        spec_splitmix64(0x6a09e667f3bcc92au64) == 0x8ef07f4d2a8b639cu64,
        spec_splitmix64(0x6a09e667f3bcc92bu64) == 0x5a6882f443833af9u64,
        spec_splitmix64(0x6a09e667f3bcc92cu64) == 0x3f623790668d52dau64,
        spec_splitmix64(0x6a09e667f3bcc92du64) == 0x5d903b53d7c7c058u64,
        spec_splitmix64(0x6a09e667f3bcc92eu64) == 0x5a1d847e9a0df091u64,
        spec_splitmix64(0x6a09e667f3bcc92fu64) == 0x89a023eb9c95a0b7u64,
        spec_splitmix64(0x6a09e667f3bcc930u64) == 0x415547f6b6b36485u64,
        spec_splitmix64(0x6a09e667f3bcc931u64) == 0x41d0c33204a8e14au64,
        spec_splitmix64(0x6a09e667f3bcc932u64) == 0xaf9fb5a9fc86e5c1u64,
        spec_splitmix64(0x6a09e667f3bcc933u64) == 0x9533f6c0a8845a26u64,
        spec_splitmix64(0x6a09e667f3bcc934u64) == 0xed53dfddc0b6a521u64,
        spec_splitmix64(0x6a09e667f3bcc935u64) == 0x1664e648286ef2d2u64,
        spec_splitmix64(0x6a09e667f3bcc936u64) == 0xdc3e6007860f815cu64,
        spec_splitmix64(0x6a09e667f3bcc937u64) == 0x1e83d46c47c10aa7u64,
        spec_splitmix64(0x6a09e667f3bcc938u64) == 0xaa2e13d7c7ba285du64,
        spec_splitmix64(0x6a09e667f3bcc939u64) == 0xb020bb9aa0a48867u64,
        spec_splitmix64(0x6a09e667f3bcc93au64) == 0x6f2164ebb9292561u64,
        spec_splitmix64(0x6a09e667f3bcc93bu64) == 0xb0bc70b34a90948au64,
        spec_splitmix64(0x6a09e667f3bcc93cu64) == 0x85c52c603bd361bfu64,
        spec_splitmix64(0x6a09e667f3bcc93du64) == 0xd5655f87e81b5977u64,
        spec_splitmix64(0x6a09e667f3bcc93eu64) == 0x027b2418cae0aebeu64,
        spec_splitmix64(0x6a09e667f3bcc93fu64) == 0xa8cbdcf01ebd9f52u64,
        spec_splitmix64(0x6a09e667f3bcc940u64) == 0x4e89d33c009d308eu64,
        spec_splitmix64(0x6a09e667f3bcc941u64) == 0xf1bf441d05e883f0u64,
        spec_splitmix64(0x6a09e667f3bcc942u64) == 0xc019459bab480a9eu64,
        spec_splitmix64(0x6a09e667f3bcc943u64) == 0x67f6c3b0fce03cdbu64,
        spec_splitmix64(0x6a09e667f3bcc944u64) == 0x51abb04cee08656cu64,
        spec_splitmix64(0x6a09e667f3bcc945u64) == 0xec8c967efa87fb9au64,
        spec_splitmix64(0x6a09e667f3bcc946u64) == 0x81ae1277b002a26fu64,
        spec_splitmix64(0x6a09e667f3bcc947u64) == 0xf1b2277160780decu64,
        spec_splitmix64(0x6a09e667f3bcc948u64) == 0x1a031ddd7f476814u64,
        spec_splitmix64(0x6a09e667f3bcc949u64) == 0xde5b59bd5f02ec93u64,
        spec_splitmix64(0x6a09e667f3bcc94au64) == 0x15469e53235cf097u64,
        spec_splitmix64(0x6a09e667f3bcc94bu64) == 0x22f55faa21af3660u64,
        spec_splitmix64(0x6a09e667f3bcc94cu64) == 0xa8d5e778a2ddb660u64,
        spec_splitmix64(0x6a09e667f3bcc94du64) == 0x7f681bb7cac461c3u64,
        spec_splitmix64(0x6a09e667f3bcc94eu64) == 0x50acb191c6a34c44u64,
        spec_splitmix64(0x6a09e667f3bcc94fu64) == 0xb6255fb3fe3ac53cu64,
        spec_splitmix64(0x6a09e667f3bcc950u64) == 0x8e3a16ba6d1ae5f3u64,
        spec_splitmix64(0x6a09e667f3bcc951u64) == 0x61cc025203393cbeu64,
        spec_splitmix64(0x6a09e667f3bcc952u64) == 0x877041b5e98603e5u64,
        spec_splitmix64(0x6a09e667f3bcc953u64) == 0xd05a8617c4cb2f85u64,
        spec_splitmix64(0x6a09e667f3bcc954u64) == 0x60baab40280d66f3u64,
        spec_splitmix64(0x6a09e667f3bcc955u64) == 0x6c8f8ac6cb096faau64,
        spec_splitmix64(0x6a09e667f3bcc956u64) == 0x09df03838aad8b32u64,
        spec_splitmix64(0x6a09e667f3bcc957u64) == 0xfb78a7a8eef7a788u64,
        spec_splitmix64(0x6a09e667f3bcc958u64) == 0x1f3c6bf3a558162bu64,
        spec_splitmix64(0x6a09e667f3bcc959u64) == 0x47069120798c1b8du64,
        spec_splitmix64(0x6a09e667f3bcc95au64) == 0xef95a24b9c920fd7u64,
        spec_splitmix64(0x6a09e667f3bcc95bu64) == 0x87116493da980a17u64,
        spec_splitmix64(0x6a09e667f3bcc95cu64) == 0x11f8aaac71c11d79u64,
        spec_splitmix64(0x6a09e667f3bcc95du64) == 0x1ee559c809a41d0fu64,
        spec_splitmix64(0x6a09e667f3bcc95eu64) == 0x89cc746e7cf985f6u64,
        spec_splitmix64(0x6a09e667f3bcc95fu64) == 0xa7e5ddf6441b9899u64,
        spec_splitmix64(0x6a09e667f3bcc960u64) == 0x81138d1c2bc1be49u64,
        spec_splitmix64(0x6a09e667f3bcc961u64) == 0xb51a441454654b32u64,
        spec_splitmix64(0x6a09e667f3bcc962u64) == 0xaf0fc645da77684fu64,
        spec_splitmix64(0x6a09e667f3bcc963u64) == 0xa4bd4d7e7db5ff71u64,
        spec_splitmix64(0x6a09e667f3bcc964u64) == 0x1bc718097e1c20cau64,
        spec_splitmix64(0x6a09e667f3bcc965u64) == 0x05c474d02e792ec8u64,
        spec_splitmix64(0x6a09e667f3bcc966u64) == 0xb3090ac7bc8a528au64,
        spec_splitmix64(0x6a09e667f3bcc967u64) == 0xd562c380235f5acbu64,
        spec_splitmix64(0x6a09e667f3bcc968u64) == 0xf6a0c948bfb4e16du64,
        spec_splitmix64(0x6a09e667f3bcc969u64) == 0x46db4b19d5eb53c3u64,
        spec_splitmix64(0x6a09e667f3bcc96au64) == 0xea166b7ffa7daaf1u64,
        spec_splitmix64(0x6a09e667f3bcc96bu64) == 0x42d3e1086121ade6u64,
        spec_splitmix64(0x6a09e667f3bcc96cu64) == 0xd09ab215446fda79u64,
        spec_splitmix64(0x6a09e667f3bcc96du64) == 0x6cf215fb57034fa7u64,
        spec_splitmix64(0x6a09e667f3bcc96eu64) == 0xaac8ee675bc66123u64,
        spec_splitmix64(0x6a09e667f3bcc96fu64) == 0x4e38ec67889ac6feu64,
        spec_splitmix64(0x6a09e667f3bcc970u64) == 0xca3397acbdef9d58u64,
        spec_splitmix64(0x6a09e667f3bcc971u64) == 0x6e91f2badeaafaeau64,
        spec_splitmix64(0x6a09e667f3bcc972u64) == 0x308123992f53ae67u64,
        spec_splitmix64(0x6a09e667f3bcc973u64) == 0x9805b791c0fe96b1u64,
        spec_splitmix64(0x6a09e667f3bcc974u64) == 0x47a1322dca6caa45u64,
        spec_splitmix64(0x6a09e667f3bcc975u64) == 0xf7bba87ac2b028afu64,
        spec_splitmix64(0x6a09e667f3bcc976u64) == 0xf89ec1035175a1a7u64,
        spec_splitmix64(0x6a09e667f3bcc977u64) == 0xd63f61c0e827832fu64,
        spec_splitmix64(0x6a09e667f3bcc978u64) == 0x7c83c233e2e7dc5fu64,
        spec_splitmix64(0x6a09e667f3bcc979u64) == 0x4c2ce4bba7f9fdc9u64,
        spec_splitmix64(0x6a09e667f3bcc97au64) == 0xbda26257bd936a5du64,
        spec_splitmix64(0x6a09e667f3bcc97bu64) == 0xbadd95ee64a9656bu64,
        spec_splitmix64(0x6a09e667f3bcc97cu64) == 0x7d608aa2c3ac0a7au64,
        spec_splitmix64(0x6a09e667f3bcc97du64) == 0x356989d39feba5c5u64,
        spec_splitmix64(0x6a09e667f3bcc97eu64) == 0x9ecd9fdfb05bf32cu64,
        spec_splitmix64(0x6a09e667f3bcc97fu64) == 0x5f80018c5072ab97u64,
        spec_splitmix64(0x6a09e667f3bcc980u64) == 0xf8748e3d03367509u64,
        spec_splitmix64(0x6a09e667f3bcc981u64) == 0xcf82b13623a7baf4u64,
        spec_splitmix64(0x6a09e667f3bcc982u64) == 0xadbac479f3883166u64,
        spec_splitmix64(0x6a09e667f3bcc983u64) == 0x852bf2e0c76482bdu64,
        spec_splitmix64(0x6a09e667f3bcc984u64) == 0x60b749a20482a298u64,
        spec_splitmix64(0x6a09e667f3bcc985u64) == 0xf54626d9a588fb4bu64,
        spec_splitmix64(0x6a09e667f3bcc986u64) == 0x883074d9c55dd305u64,
        spec_splitmix64(0x6a09e667f3bcc987u64) == 0x299f26716227c7f9u64,
        spec_splitmix64(0x6a09e667f3bcc988u64) == 0x3918a26471d8aae4u64,
        spec_splitmix64(0x6a09e667f3bcc989u64) == 0x7302c7c86d04aafdu64,
        spec_splitmix64(0x6a09e667f3bcc98au64) == 0xf8804199e8910b4au64,
        spec_splitmix64(0x6a09e667f3bcc98bu64) == 0xae105a4b7a486826u64,
        spec_splitmix64(0x6a09e667f3bcc98cu64) == 0x6c2ad7ff10385d7bu64,
        spec_splitmix64(0x6a09e667f3bcc98du64) == 0x6e937eab3996e723u64,
        spec_splitmix64(0x6a09e667f3bcc98eu64) == 0x67f3f429ffa36081u64,
        spec_splitmix64(0x6a09e667f3bcc98fu64) == 0x7e427c7f3f22dd93u64,
        spec_splitmix64(0x6a09e667f3bcc990u64) == 0xdd991c2b2bcc7a66u64,
        spec_splitmix64(0x6a09e667f3bcc991u64) == 0xe8532415be1ab18du64,
        spec_splitmix64(0x6a09e667f3bcc992u64) == 0xac9d34736b6ce755u64,
        spec_splitmix64(0x6a09e667f3bcc993u64) == 0x17e9b746ab09e9a2u64,
        spec_splitmix64(0x6a09e667f3bcc994u64) == 0x5d208308d510e573u64,
        spec_splitmix64(0x6a09e667f3bcc995u64) == 0xa4a6a7ef7320f851u64,
        spec_splitmix64(0x6a09e667f3bcc996u64) == 0xdf7a7a06d5debdc8u64,
        spec_splitmix64(0x6a09e667f3bcc997u64) == 0x37c9376c02366f11u64,
        spec_splitmix64(0x6a09e667f3bcc998u64) == 0x5d62d77ca3b68cd2u64,
        spec_splitmix64(0x6a09e667f3bcc999u64) == 0x928bd7af3f387fdau64,
        spec_splitmix64(0x6a09e667f3bcc99au64) == 0xd5128d9fb67e8451u64,
        spec_splitmix64(0x6a09e667f3bcc99bu64) == 0xac41514024a8593au64,
        spec_splitmix64(0x6a09e667f3bcc99cu64) == 0x34ffe021c3466bb1u64,
        spec_splitmix64(0x6a09e667f3bcc99du64) == 0x4257359467f64658u64,
        spec_splitmix64(0x6a09e667f3bcc99eu64) == 0x811a27cd219ca45du64,
        spec_splitmix64(0x6a09e667f3bcc99fu64) == 0x74938a6722ff35a5u64,
        spec_splitmix64(0x6a09e667f3bcc9a0u64) == 0xffd5ca5d5e0d25f8u64,
        spec_splitmix64(0x6a09e667f3bcc9a1u64) == 0x7817147197fc4335u64,
        spec_splitmix64(0x6a09e667f3bcc9a2u64) == 0xd6ca9cb1d5f930a8u64,
        spec_splitmix64(0x6a09e667f3bcc9a3u64) == 0xbc864713f385e3b8u64,
        spec_splitmix64(0x6a09e667f3bcc9a4u64) == 0xcd6d81c21df5f6d1u64,
        spec_splitmix64(0x6a09e667f3bcc9a5u64) == 0x8fa415e8c3ccd249u64,
        spec_splitmix64(0x6a09e667f3bcc9a6u64) == 0x17199a575c4d4956u64,
        spec_splitmix64(0x6a09e667f3bcc9a7u64) == 0x28ca10572be3c579u64,
        spec_splitmix64(0x6a09e667f3bcc9a8u64) == 0x59533a9b38f17c8fu64,
        spec_splitmix64(0x6a09e667f3bcc9a9u64) == 0x52362953830fb02eu64,
        spec_splitmix64(0x6a09e667f3bcc9aau64) == 0x883043136ab1089bu64,
        spec_splitmix64(0x6a09e667f3bcc9abu64) == 0x833785dfce2c392bu64,
        spec_splitmix64(0x6a09e667f3bcc9acu64) == 0x07590dbbd5149bc2u64,
        spec_splitmix64(0x6a09e667f3bcc9adu64) == 0x5ca6fe3bd54f5755u64,
        spec_splitmix64(0x6a09e667f3bcc9aeu64) == 0x48885b2a2f2b62d2u64,
        spec_splitmix64(0x6a09e667f3bcc9afu64) == 0xc3f76f66de71fd36u64,
        spec_splitmix64(0x6a09e667f3bcc9b0u64) == 0x8e2c9156994778e0u64,
        spec_splitmix64(0x6a09e667f3bcc9b1u64) == 0x8571470bfbc68bc4u64,
        spec_splitmix64(0x6a09e667f3bcc9b2u64) == 0xffb1058c3f09fc99u64,
        spec_splitmix64(0x6a09e667f3bcc9b3u64) == 0xcde99ac80ab26b60u64,
        spec_splitmix64(0x6a09e667f3bcc9b4u64) == 0x06b89f31cc93319fu64,
        spec_splitmix64(0x6a09e667f3bcc9b5u64) == 0xf0bb6f62452b239bu64,
        spec_splitmix64(0x6a09e667f3bcc9b6u64) == 0xabf4f630f9c6ec88u64,
        spec_splitmix64(0x6a09e667f3bcc9b7u64) == 0x928c246fc85ae079u64,
        spec_splitmix64(0x6a09e667f3bcc9b8u64) == 0xea85a516f3025278u64,
        spec_splitmix64(0x6a09e667f3bcc9b9u64) == 0x37de45cce22038dbu64,
        spec_splitmix64(0x6a09e667f3bcc9bau64) == 0xbd53d76d9eb52e20u64,
        spec_splitmix64(0x6a09e667f3bcc9bbu64) == 0x94757fe266bd14fau64,
        spec_splitmix64(0x6a09e667f3bcc9bcu64) == 0xc0a8a4d0d94147c9u64,
        spec_splitmix64(0x6a09e667f3bcc9bdu64) == 0x1af5c8ead4ee1fc0u64,
        spec_splitmix64(0x6a09e667f3bcc9beu64) == 0xbfac0b82c2912d99u64,
        spec_splitmix64(0x6a09e667f3bcc9bfu64) == 0x838ec23a40d19377u64,
        spec_splitmix64(0x6a09e667f3bcc9c0u64) == 0xe767a23476bb3556u64,
        spec_splitmix64(0x6a09e667f3bcc9c1u64) == 0xc88d0ec9ead5b5f3u64,
        spec_splitmix64(0x6a09e667f3bcc9c2u64) == 0xa11a2dd155156844u64,
        spec_splitmix64(0x6a09e667f3bcc9c3u64) == 0xad0e58ea2d3826d7u64,
        spec_splitmix64(0x6a09e667f3bcc9c4u64) == 0x2b32c1534e22209cu64,
        spec_splitmix64(0x6a09e667f3bcc9c5u64) == 0xf225ba78f20769acu64,
        spec_splitmix64(0x6a09e667f3bcc9c6u64) == 0xea4f65ac48689d66u64,
        spec_splitmix64(0x6a09e667f3bcc9c7u64) == 0xce6e2b42c6bf8f14u64,
        spec_splitmix64(0x6a09e667f3bcc9c8u64) == 0xc7cf3bfd5016a98du64,
        spec_splitmix64(0x6a09e667f3bcc9c9u64) == 0x4d444951f4f105adu64,
        spec_splitmix64(0x6a09e667f3bcc9cau64) == 0x619f1a0d27969bf0u64,
        spec_splitmix64(0x6a09e667f3bcc9cbu64) == 0x8251206c24f802a0u64,
        spec_splitmix64(0x6a09e667f3bcc9ccu64) == 0x7a52af8f76d25466u64,
        spec_splitmix64(0x6a09e667f3bcc9cdu64) == 0x63e17c44e005982fu64,
        spec_splitmix64(0x6a09e667f3bcc9ceu64) == 0xbb86114277d23186u64,
        spec_splitmix64(0x6a09e667f3bcc9cfu64) == 0x7d3cc37d1eec9ee4u64,
        spec_splitmix64(0x6a09e667f3bcc9d0u64) == 0xba3f7e2a73cc363du64,
        spec_splitmix64(0x6a09e667f3bcc9d1u64) == 0x57d19907708db5cfu64,
        spec_splitmix64(0x6a09e667f3bcc9d2u64) == 0xda8900bbeea08c0au64,
        spec_splitmix64(0x6a09e667f3bcc9d3u64) == 0xa5101a2c9c8e6f95u64,
        spec_splitmix64(0x6a09e667f3bcc9d4u64) == 0x8ff39bea1a7d5a56u64,
        spec_splitmix64(0x6a09e667f3bcc9d5u64) == 0xcfa894460c67524fu64,
        spec_splitmix64(0x6a09e667f3bcc9d6u64) == 0xae21be5b037e5f7bu64,
        spec_splitmix64(0x6a09e667f3bcc9d7u64) == 0x00f007e7805c840fu64,
        spec_splitmix64(0x6a09e667f3bcc9d8u64) == 0x133eae5475e8dc2fu64,
        spec_splitmix64(0x6a09e667f3bcc9d9u64) == 0xf5da5d1b6a3bcc9cu64,
        spec_splitmix64(0x6a09e667f3bcc9dau64) == 0xdf1dff99b6e53f85u64,
        spec_splitmix64(0x6a09e667f3bcc9dbu64) == 0x9d9e32b463cf1741u64,
        spec_splitmix64(0x6a09e667f3bcc9dcu64) == 0x7d8c4b0d095821a4u64,
        spec_splitmix64(0x6a09e667f3bcc9ddu64) == 0x7d9be7a57a58f272u64,
        spec_splitmix64(0x6a09e667f3bcc9deu64) == 0xe5e0e3fac4effde4u64,
        spec_splitmix64(0x6a09e667f3bcc9dfu64) == 0x101ccd477064d693u64,
        spec_splitmix64(0x6a09e667f3bcc9e0u64) == 0x0fb5c373c6220f29u64,
        spec_splitmix64(0x6a09e667f3bcc9e1u64) == 0x8b3289c16e226a0au64,
        spec_splitmix64(0x6a09e667f3bcc9e2u64) == 0x32d2406677e5f8ccu64,
        spec_splitmix64(0x6a09e667f3bcc9e3u64) == 0x9328794f1e053a88u64,
        spec_splitmix64(0x6a09e667f3bcc9e4u64) == 0x63023af117e5307du64,
        spec_splitmix64(0x6a09e667f3bcc9e5u64) == 0xc37eb9a3e129cc79u64,
        spec_splitmix64(0x6a09e667f3bcc9e6u64) == 0x39bf509c6e416ff9u64,
        spec_splitmix64(0x6a09e667f3bcc9e7u64) == 0xf6ce2e1045183d2du64,
        spec_splitmix64(0x6a09e667f3bcc9e8u64) == 0x7b6107675dcdc48au64,
        spec_splitmix64(0x6a09e667f3bcc9e9u64) == 0x0720bc9e9a151b16u64,
        spec_splitmix64(0x6a09e667f3bcc9eau64) == 0xa73c728fc9449101u64,
        spec_splitmix64(0x6a09e667f3bcc9ebu64) == 0xa6020de2fad4f82du64,
        spec_splitmix64(0x6a09e667f3bcc9ecu64) == 0x74e88eae2764c994u64,
        spec_splitmix64(0x6a09e667f3bcc9edu64) == 0x29c47d3b3f7fc041u64,
        spec_splitmix64(0x6a09e667f3bcc9eeu64) == 0x2ab1a2b23eb4acd4u64,
        spec_splitmix64(0x6a09e667f3bcc9efu64) == 0xba893e8ddd0aa3d6u64,
        spec_splitmix64(0x6a09e667f3bcc9f0u64) == 0x23b06238afa6c7cau64,
        spec_splitmix64(0x6a09e667f3bcc9f1u64) == 0xdd0cf66fb90f75e1u64,
        spec_splitmix64(0x6a09e667f3bcc9f2u64) == 0x1b416c517c72a1ccu64,
        spec_splitmix64(0x6a09e667f3bcc9f3u64) == 0xf20a0192a9f66c51u64,
        spec_splitmix64(0x6a09e667f3bcc9f4u64) == 0xcc6ed43ae094c9e6u64,
        spec_splitmix64(0x6a09e667f3bcc9f5u64) == 0x1f25744fb8be1e6fu64,
        spec_splitmix64(0x6a09e667f3bcc9f6u64) == 0x566d7fe105aaa07cu64,
        spec_splitmix64(0x6a09e667f3bcc9f7u64) == 0x41e32bc8883d6e00u64,
        spec_splitmix64(0x6a09e667f3bcc9f8u64) == 0x304ed93d48429338u64,
        spec_splitmix64(0x6a09e667f3bcc9f9u64) == 0xc048fe0c1ff82e82u64,
        spec_splitmix64(0x6a09e667f3bcc9fau64) == 0xec78f178e9fd0597u64,
        spec_splitmix64(0x6a09e667f3bcc9fbu64) == 0xa1c2ba6e80cff08fu64,
        spec_splitmix64(0x6a09e667f3bcc9fcu64) == 0x43d6ff0baf85edb9u64,
        spec_splitmix64(0x6a09e667f3bcc9fdu64) == 0xe745941842f0a79au64,
        spec_splitmix64(0x6a09e667f3bcc9feu64) == 0x607196cbd17f6e34u64,
        spec_splitmix64(0x6a09e667f3bcc9ffu64) == 0x1d4189ce354b96f1u64,
        spec_splitmix64(0x6a09e667f3bcca00u64) == 0x0f6bd642644273bau64,
        spec_splitmix64(0x6a09e667f3bcca01u64) == 0x4cb6311a2d70820fu64,
        spec_splitmix64(0x6a09e667f3bcca02u64) == 0x0ea9f4971d46257eu64,
        spec_splitmix64(0x6a09e667f3bcca03u64) == 0x5ef2149f4057fd3bu64,
        spec_splitmix64(0x6a09e667f3bcca04u64) == 0xb7ce796f6e980e92u64,
        spec_splitmix64(0x6a09e667f3bcca05u64) == 0x0ec7120eb599afffu64,
        spec_splitmix64(0x6a09e667f3bcca06u64) == 0x5ac8dcead3a44b05u64,
        spec_splitmix64(0x6a09e667f3bcca07u64) == 0x3156db5ae5c8aa4bu64,
{
}

/// Entry `b` of [`GEAR_TABLE`] is the gear value of `b`.
pub proof fn lemma_gear_table_entry(b: u8)
    ensures
        GEAR_TABLE@[b as int] == gear(b),
{
    lemma_gear_values();
    assert(gear_seed(b) == b + GEAR_SEED_OFFSET);
    if b == 0 {
    } else if b == 1 {
    } else if b == 2 {
    } else if b == 3 {
    } else if b == 4 {
    } else if b == 5 {
    } else if b == 6 {
    } else if b == 7 {
    } else if b == 8 {
    } else if b == 9 {
    } else if b == 10 {
    } else if b == 11 {
    } else if b == 12 {
    } else if b == 13 {
    } else if b == 14 {
    } else if b == 15 {
    } else if b == 16 {
    } else if b == 17 {
    } else if b == 18 {
    } else if b == 19 {
    } else if b == 20 {
    } else if b == 21 {
    } else if b == 22 {
    } else if b == 23 {
    } else if b == 24 {
    } else if b == 25 {
    } else if b == 26 {
    } else if b == 27 {
    } else if b == 28 {
    } else if b == 29 {
    } else if b == 30 {
    } else if b == 31 {
    } else if b == 32 {
    } else if b == 33 {
    } else if b == 34 {
    } else if b == 35 {
    } else if b == 36 {
    } else if b == 37 {
    } else if b == 38 {
    } else if b == 39 {
    } else if b == 40 {
    } else if b == 41 {
    } else if b == 42 {
    } else if b == 43 {
    } else if b == 44 {
    } else if b == 45 {
    } else if b == 46 {
    } else if b == 47 {
    } else if b == 48 {
    } else if b == 49 {
    } else if b == 50 {
    } else if b == 51 {
    } else if b == 52 {
    } else if b == 53 {
    } else if b == 54 {
    } else if b == 55 {
    } else if b == 56 {
    } else if b == 57 {
    } else if b == 58 {
    } else if b == 59 {
    } else if b == 60 {
    } else if b == 61 {
    } else if b == 62 {
    } else if b == 63 {
    } else if b == 64 {
    } else if b == 65 {
    } else if b == 66 {
    } else if b == 67 {
    } else if b == 68 {
    } else if b == 69 {
    } else if b == 70 {
    } else if b == 71 {
    } else if b == 72 {
    } else if b == 73 {
    } else if b == 74 {
    } else if b == 75 {
    } else if b == 76 {
    } else if b == 77 {
    } else if b == 78 {
    } else if b == 79 {
    } else if b == 80 {
    } else if b == 81 {
    } else if b == 82 {
    } else if b == 83 {
    } else if b == 84 {
    } else if b == 85 {
    } else if b == 86 {
    } else if b == 87 {
    } else if b == 88 {
    } else if b == 89 {
    } else if b == 90 {
    } else if b == 91 {
    } else if b == 92 {
    } else if b == 93 {
    } else if b == 94 {
    } else if b == 95 {
    } else if b == 96 {
    } else if b == 97 {
    } else if b == 98 {
    } else if b == 99 {
    } else if b == 100 {
    } else if b == 101 {
    } else if b == 102 {
    } else if b == 103 {
    } else if b == 104 {
    } else if b == 105 {
    } else if b == 106 {
    } else if b == 107 {
    } else if b == 108 {
    } else if b == 109 {
    } else if b == 110 {
    } else if b == 111 {
    } else if b == 112 {
    } else if b == 113 {
    } else if b == 114 {
    } else if b == 115 {
    } else if b == 116 {
    } else if b == 117 {
    } else if b == 118 {
    } else if b == 119 {
    } else if b == 120 {
    } else if b == 121 {
    } else if b == 122 {
    } else if b == 123 {
    } else if b == 124 {
    } else if b == 125 {
    } else if b == 126 {
    } else if b == 127 {
    } else if b == 128 {
    } else if b == 129 {
    } else if b == 130 {
    } else if b == 131 {
    } else if b == 132 {
    } else if b == 133 {
    } else if b == 134 {
    } else if b == 135 {
    } else if b == 136 {
    } else if b == 137 {
    } else if b == 138 {
    } else if b == 139 {
    } else if b == 140 {
    } else if b == 141 {
    } else if b == 142 {
    } else if b == 143 {
    } else if b == 144 {
    } else if b == 145 {
    } else if b == 146 {
    } else if b == 147 {
    } else if b == 148 {
    } else if b == 149 {
    } else if b == 150 {
    } else if b == 151 {
    } else if b == 152 {
    } else if b == 153 {
    } else if b == 154 {
    } else if b == 155 {
    } else if b == 156 {
    } else if b == 157 {
    } else if b == 158 {
    } else if b == 159 {
    } else if b == 160 {
    } else if b == 161 {
    } else if b == 162 {
    } else if b == 163 {
    } else if b == 164 {
    } else if b == 165 {
    } else if b == 166 {
    } else if b == 167 {
    } else if b == 168 {
    } else if b == 169 {
    } else if b == 170 {
    } else if b == 171 {
    } else if b == 172 {
    } else if b == 173 {
    } else if b == 174 {
    } else if b == 175 {
    } else if b == 176 {
    } else if b == 177 {
    } else if b == 178 {
    } else if b == 179 {
    } else if b == 180 {
    } else if b == 181 {
    } else if b == 182 {
    } else if b == 183 {
    } else if b == 184 {
    } else if b == 185 {
    } else if b == 186 {
    } else if b == 187 {
    } else if b == 188 {
    } else if b == 189 {
    } else if b == 190 {
    } else if b == 191 {
    } else if b == 192 {
    } else if b == 193 {
    } else if b == 194 {
    } else if b == 195 {
    } else if b == 196 {
    } else if b == 197 {
    } else if b == 198 {
    } else if b == 199 {
    } else if b == 200 {
    } else if b == 201 {
    } else if b == 202 {
    } else if b == 203 {
    } else if b == 204 {
    } else if b == 205 {
    } else if b == 206 {
    } else if b == 207 {
    } else if b == 208 {
    } else if b == 209 {
    } else if b == 210 {
    } else if b == 211 {
    } else if b == 212 {
    } else if b == 213 {
    } else if b == 214 {
    } else if b == 215 {
    } else if b == 216 {
    } else if b == 217 {
    } else if b == 218 {
    } else if b == 219 {
    } else if b == 220 {
    } else if b == 221 {
    } else if b == 222 {
    } else if b == 223 {
    } else if b == 224 {
    } else if b == 225 {
    } else if b == 226 {
    } else if b == 227 {
    } else if b == 228 {
    } else if b == 229 {
    } else if b == 230 {
    } else if b == 231 {
    } else if b == 232 {
    } else if b == 233 {
    } else if b == 234 {
    } else if b == 235 {
    } else if b == 236 {
    } else if b == 237 {
    } else if b == 238 {
    } else if b == 239 {
    } else if b == 240 {
    } else if b == 241 {
    } else if b == 242 {
    } else if b == 243 {
    } else if b == 244 {
    } else if b == 245 {
    } else if b == 246 {
    } else if b == 247 {
    } else if b == 248 {
    } else if b == 249 {
    } else if b == 250 {
    } else if b == 251 {
    } else if b == 252 {
    } else if b == 253 {
    } else if b == 254 {
    } else {
        assert(b == 255);
    }
}


/// Reading one more byte extends the window hash by one update step.
pub proof fn lemma_window_step(data: Seq<u8>, start: int, p: int)
    requires
        0 <= start <= p < data.len(),
    ensures
        window_hash(data, start, p + 1) == spec_update_hash(window_hash(data, start, p), data[p]),
{
    let s = data.subrange(start, p + 1);
    assert(s.drop_last() =~= data.subrange(start, p));
    assert(s.last() == data[p]);
}

/// An empty window hashes to the fresh state.
pub proof fn lemma_window_empty(data: Seq<u8>, start: int)
    requires
        0 <= start <= data.len(),
    ensures
        window_hash(data, start, start) == 0,
{
    assert(data.subrange(start, start).len() == 0);
}

/// Reading the byte at `pos` either completes a cut-point at `pos + 1` or leaves the
/// first cut-point from `pos + 1` on equal to the first one from `pos + 2` on.
pub proof fn lemma_search_step(data: Seq<u8>, start: int, pos: int, hi: int, mask: u64, hash: u64)
    requires
        0 <= start <= pos < data.len(),
        pos + 1 <= hi,
        hash == window_hash(data, start, pos),
    ensures
        ({
            let h = spec_update_hash(hash, data[pos]);
            &&& h == window_hash(data, start, pos + 1)
            &&& (h & mask == 0) ==> first_cut(data, start, pos + 1, hi, mask) == Some(pos + 1)
            &&& (h & mask != 0) ==> first_cut(data, start, pos + 1, hi, mask) == first_cut(
                data,
                start,
                pos + 2,
                hi,
                mask,
            )
        }),
{
    lemma_window_step(data, start, pos);
}

/// The state of a cut-point search that has read `data[start..pos)` without finding a cut.
spec fn scan_state(data: Seq<u8>, start: int, max: int, mask: u64, pos: int, hash: u64) -> bool {
    &&& 0 <= start <= pos <= max
    &&& pos <= data.len()
    &&& hash == window_hash(data, start, pos)
    &&& forall|q: int| start < q <= pos ==> !#[trigger] is_cut(data, start, q, mask)
    &&& first_cut(data, start, start + 1, max, mask) == first_cut(data, start, pos + 1, max, mask)
}

proof fn lemma_scan_init(data: Seq<u8>, start: int, max: int, mask: u64)
    requires
        0 <= start < max,
        start <= data.len(),
    ensures
        scan_state(data, start, max, mask, start, 0),
{
    lemma_window_empty(data, start);
}

/// One byte read at `pos` takes the search either to a cut at `pos + 1` or to the next state.
proof fn lemma_scan_step(data: Seq<u8>, start: int, max: int, mask: u64, pos: int, hash: u64)
    requires
        scan_state(data, start, max, mask, pos, hash),
        pos < max,
        pos < data.len(),
    ensures
        ({
            let h = spec_update_hash(hash, data[pos]);
            &&& h == window_hash(data, start, pos + 1)
            &&& (h & mask == 0) ==> spec_cutpoint(data, start, max, mask) == (pos + 1, h)
            &&& (h & mask != 0) ==> scan_state(data, start, max, mask, pos + 1, h)
        }),
{
    lemma_window_step(data, start, pos);
    let h = spec_update_hash(hash, data[pos]);
    assert(is_cut(data, start, pos + 1, mask) == (h & mask == 0));
    if h & mask == 0 {
        assert(first_cut(data, start, pos + 1, max, mask) == Some(pos + 1));
    } else {
        assert(first_cut(data, start, pos + 1, max, mask) == first_cut(data, start, pos + 2, max, mask));
        assert forall|q: int| start < q <= pos + 1 implies !#[trigger] is_cut(data, start, q, mask) by {
            if q <= pos {
            }
        }
    }
}

/// A search that has read up to `max` without a cut ends at `max`.
proof fn lemma_scan_done(data: Seq<u8>, start: int, max: int, mask: u64, pos: int, hash: u64)
    requires
        scan_state(data, start, max, mask, pos, hash),
        start < max,
        pos >= max,
    ensures
        spec_cutpoint(data, start, max, mask) == (max, hash),
{
    assert(first_cut(data, start, max + 1, max, mask) == None::<int>);
}

/// Under `cutpoint_in_bounds`, a search that has not yet found a cut is still inside `data`.
proof fn lemma_scan_in_bounds(data: Seq<u8>, start: int, max: int, mask: u64, pos: int, hash: u64)
    requires
        scan_state(data, start, max, mask, pos, hash),
        cutpoint_in_bounds(data, start, max, mask),
        pos < max,
    ensures
        pos < data.len(),
{
    if max > data.len() {
        let p0 = choose|p: int| start < p <= data.len() && #[trigger] is_cut(data, start, p, mask);
        if p0 <= pos {
            assert(!is_cut(data, start, p0, mask));
        }
    }
}

/// Portable cut-point search: reads `data[start..max)` one byte at a time.
///
/// Returns `(position, hash)` where `position` is the first byte past the
/// cut-point, or `max` if no cut-point was found in the `[start, max)` range.
pub fn find_cutpoint_scalar(data: &[u8], start: usize, max: usize, mask: u64) -> (r: (usize, u64))
    requires
        cutpoint_in_bounds(data@, start as int, max as int, mask),
    ensures
        (r.0 as int, r.1) == spec_cutpoint(data@, start as int, max as int, mask),
{
    let mut hash = 0u64;
    let mut pos = start;
    if pos >= max {
        return (max, hash);
    }
    proof {
        lemma_scan_init(data@, start as int, max as int, mask);
    }
    while pos < max
        invariant
            scan_state(data@, start as int, max as int, mask, pos as int, hash),
            cutpoint_in_bounds(data@, start as int, max as int, mask),
        decreases max - pos,
    {
        proof {
            lemma_scan_in_bounds(data@, start as int, max as int, mask, pos as int, hash);
            lemma_scan_step(data@, start as int, max as int, mask, pos as int, hash);
        }
        hash = update_hash(hash, data[pos]);
        if (hash & mask) == 0 {
            return (pos + 1, hash);
        }
        pos += 1;
    }
    proof {
        lemma_scan_done(data@, start as int, max as int, mask, pos as int, hash);
    }
    (max, hash)
}


/// Cut-point search that reads four bytes per step, then finishes the remaining
/// zero to three bytes one at a time. Gives the same result as
/// [`find_cutpoint_scalar`] on every input.
pub fn find_cutpoint_avx2(data: &[u8], start: usize, max: usize, mask: u64) -> (r: (usize, u64))
    requires
        cutpoint_in_bounds(data@, start as int, max as int, mask),
    ensures
        (r.0 as int, r.1) == spec_cutpoint(data@, start as int, max as int, mask),
{
    let mut hash = 0u64;
    let mut pos = start;
    if pos >= max {
        return (max, hash);
    }
    proof {
        lemma_scan_init(data@, start as int, max as int, mask);
    }
    while max - pos >= 4
        invariant
            scan_state(data@, start as int, max as int, mask, pos as int, hash),
            cutpoint_in_bounds(data@, start as int, max as int, mask),
        decreases max - pos,
    {
        proof {
            lemma_scan_in_bounds(data@, start as int, max as int, mask, pos as int, hash);
            lemma_scan_step(data@, start as int, max as int, mask, pos as int, hash);
        }
        hash = update_hash(hash, data[pos]);
        if (hash & mask) == 0 {
            return (pos + 1, hash);
        }
        proof {
            lemma_scan_in_bounds(data@, start as int, max as int, mask, pos + 1, hash);
            lemma_scan_step(data@, start as int, max as int, mask, pos + 1, hash);
        }
        hash = update_hash(hash, data[pos + 1]);
        if (hash & mask) == 0 {
            return (pos + 2, hash);
        }
        proof {
            lemma_scan_in_bounds(data@, start as int, max as int, mask, pos + 2, hash);
            lemma_scan_step(data@, start as int, max as int, mask, pos + 2, hash);
        }
        hash = update_hash(hash, data[pos + 2]);
        if (hash & mask) == 0 {
            return (pos + 3, hash);
        }
        proof {
            lemma_scan_in_bounds(data@, start as int, max as int, mask, pos + 3, hash);
            lemma_scan_step(data@, start as int, max as int, mask, pos + 3, hash);
        }
        hash = update_hash(hash, data[pos + 3]);
        if (hash & mask) == 0 {
            return (pos + 4, hash);
        }
        pos += 4;
    }
    while pos < max
        invariant
            scan_state(data@, start as int, max as int, mask, pos as int, hash),
            cutpoint_in_bounds(data@, start as int, max as int, mask),
        decreases max - pos,
    {
        proof {
            lemma_scan_in_bounds(data@, start as int, max as int, mask, pos as int, hash);
            lemma_scan_step(data@, start as int, max as int, mask, pos as int, hash);
        }
        hash = update_hash(hash, data[pos]);
        if (hash & mask) == 0 {
            return (pos + 1, hash);
        }
        pos += 1;
    }
    proof {
        lemma_scan_done(data@, start as int, max as int, mask, pos as int, hash);
    }
    (max, hash)
}

/// Cut-point search. Uses the four-bytes-per-step search, which returns the same
/// `(position, hash)` as the byte-at-a-time search.
///
/// Returns `(position, hash)` where `position` is the first byte past the
/// cut-point, or `max` if no cut-point was found in the `[start, max)` range.
pub fn find_cutpoint(data: &[u8], start: usize, max: usize, mask: u64) -> (r: (usize, u64))
    requires
        cutpoint_in_bounds(data@, start as int, max as int, mask),
    ensures
        (r.0 as int, r.1) == spec_cutpoint(data@, start as int, max as int, mask),
{
    find_cutpoint_avx2(data, start, max, mask)
}


// ---------------------------------------------------------------------------
// Laws of the gear hash
// ---------------------------------------------------------------------------

/// The search result is the first cut-point: it lies in `(start, max]`, no position
/// strictly between `start` and it is a cut-point, it is a cut-point unless it is `max`,
/// and the hash returned is the hash of the bytes read.
pub proof fn lemma_cutpoint_is_first_cut(data: Seq<u8>, start: int, max: int, mask: u64)
    requires
        start < max,
    ensures
        ({
            let (p, h) = spec_cutpoint(data, start, max, mask);
            &&& start < p <= max
            &&& h == window_hash(data, start, p)
            &&& forall|q: int| start < q < p ==> !#[trigger] is_cut(data, start, q, mask)
            &&& p < max ==> is_cut(data, start, p, mask)
        }),
{
    lemma_first_cut_bounds(data, start, start + 1, max, mask);
}

/// A first cut-point found in `[lo, hi]` lies there and no earlier position of the range is
/// a cut-point; when none is found, no position of the range is a cut-point.
pub proof fn lemma_first_cut_bounds(data: Seq<u8>, start: int, lo: int, hi: int, mask: u64)
    ensures
        match first_cut(data, start, lo, hi, mask) {
            Some(p) => {
                &&& lo <= p <= hi
                &&& is_cut(data, start, p, mask)
                &&& forall|q: int| lo <= q < p ==> !#[trigger] is_cut(data, start, q, mask)
            },
            None => forall|q: int| lo <= q <= hi ==> !#[trigger] is_cut(data, start, q, mask),
        },
    decreases hi + 1 - lo,
{
    if lo <= hi && !is_cut(data, start, lo, mask) {
        lemma_first_cut_bounds(data, start, lo + 1, hi, mask);
    }
}

/// Shifting left by one doubles modulo 2^64.
proof fn lemma_shl_one(x: u64)
    ensures
        (x << 1u64) as int == (2 * x as int) % 0x1_0000_0000_0000_0000,
{
    assert((x << 1u64) == ((2 * x) % 0x1_0000_0000_0000_0000) as u64) by (bit_vector);
    lemma_small_mod(((2 * x as int) % 0x1_0000_0000_0000_0000) as nat, 0x1_0000_0000_0000_0000);
}

/// Wrapping addition is addition modulo 2^64.
proof fn lemma_wrapping_add_mod(a: u64, b: u64)
    ensures
        a.wrapping_add(b) as int == (a as int + b as int) % 0x1_0000_0000_0000_0000,
{
    let m: int = 0x1_0000_0000_0000_0000;
    if a as int + b as int > u64::MAX {
        lemma_mod_multiples_vanish(1, a as int + b as int - m, m);
        lemma_small_mod((a as int + b as int - m) as nat, m as nat);
    } else {
        lemma_small_mod((a as int + b as int) as nat, m as nat);
    }
}

/// Reading `s` from state `h` gives the state reached from zero plus `h` shifted left
/// by `s.len()` bits, modulo 2^64.
pub proof fn lemma_roll_from_state(h: u64, s: Seq<u8>)
    ensures
        roll(h, s) as int == (h as int * pow2(s.len()) as int + roll(0, s) as int) % 0x1_0000_0000_0000_0000,
    decreases s.len(),
{
    let m: int = 0x1_0000_0000_0000_0000;
    lemma2_to64();
    if s.len() == 0 {
        lemma_small_mod(h as nat, m as nat);
    } else {
        let s0 = s.drop_last();
        let b = s.last();
        let n = s0.len();
        lemma_roll_from_state(h, s0);
        let a = roll(h, s0);
        let r = roll(0, s0);
        let g = gear(b);
        let p = pow2(n) as int;
        let x = h as int * p + r as int;
        lemma_pow2_adds(1, n);
        assert(pow2(s.len()) == 2 * p);
        // roll(h, s) == (2 * a + g) % m
        lemma_shl_one(a);
        lemma_wrapping_add_mod(a << 1u64, g);
        lemma_add_mod_noop(2 * a as int, g as int, m);
        lemma_small_mod(g as nat, m as nat);
        // 2 * a == 2 * (x % m), so (2 * a + g) % m == (2 * x + g) % m
        lemma_mul_mod_noop_right(2, x, m);
        lemma_add_mod_noop(2 * (x % m), g as int, m);
        lemma_add_mod_noop(2 * x, g as int, m);
        // roll(0, s) == (2 * r + g) % m
        lemma_shl_one(r);
        lemma_wrapping_add_mod(r << 1u64, g);
        lemma_add_mod_noop(2 * r as int, g as int, m);
        lemma_small_mod(r as nat, m as nat);
        let y = 2 * r as int + g as int;
        assert(h as int * (2 * p) == 2 * (h as int * p)) by (nonlinear_arith);
        lemma_add_mod_noop(h as int * (2 * p), y, m);
        lemma_small_mod((y % m) as nat, m as nat);
        lemma_add_mod_noop_right(h as int * (2 * p), y, m);
    }
}

/// A left shift by `n < 64` bits multiplies by `2^n` modulo 2^64.
proof fn lemma_shl_as_mul(h: u64, n: u64)
    requires
        n < 64,
    ensures
        (h << n) as int == (h as int * pow2(n as nat) as int) % 0x1_0000_0000_0000_0000,
    decreases n,
{
    let m: int = 0x1_0000_0000_0000_0000;
    lemma2_to64();
    if n == 0 {
        assert(h << 0u64 == h) by (bit_vector);
        lemma_small_mod(h as nat, m as nat);
    } else {
        let k = (n - 1) as u64;
        lemma_shl_as_mul(h, k);
        assert(h << n == (h << k) << 1u64) by (bit_vector)
            requires
                k < 63,
                n == k + 1,
        ;
        lemma_shl_one(h << k);
        let p = pow2(k as nat) as int;
        lemma_pow2_adds(1, k as nat);
        assert(pow2(n as nat) == 2 * p);
        lemma_mul_mod_noop_right(2, h as int * p, m);
        assert(2 * (h as int * p) == h as int * (2 * p)) by (nonlinear_arith);
    }
}

/// The rolling hash from state `h` is the hash from zero plus `h` shifted left by the
/// number of bytes read (nothing once 64 or more bytes are read), with wrapping addition.
pub proof fn lemma_roll_shift_form(h: u64, s: Seq<u8>)
    ensures
        roll(h, s) == (if s.len() >= 64 {
            0u64
        } else {
            h << (s.len() as u64)
        }).wrapping_add(roll(0, s)),
{
    let m: int = 0x1_0000_0000_0000_0000;
    if s.len() >= 64 {
        lemma_gear_window(h, 0, s);
        lemma_roll_from_state(0, s);
        lemma_wrapping_add_mod(0, roll(0, s));
        lemma_small_mod(roll(0, s) as nat, m as nat);
        lemma_roll_from_state(h, s);
    } else {
        let n = s.len() as u64;
        lemma_roll_from_state(h, s);
        lemma_shl_as_mul(h, n);
        let x = h as int * pow2(n as nat) as int;
        lemma_wrapping_add_mod(h << n, roll(0, s));
        lemma_add_mod_noop(x, roll(0, s) as int, m);
        lemma_small_mod(roll(0, s) as nat, m as nat);
        assert((h << n) as int == x % m);
        assert(((x % m) + (roll(0, s) as int % m)) % m == (x + roll(0, s) as int) % m);
    }
}

/// The gear hash is a 64-byte sliding window: after reading the same 64 or more
/// bytes, any two starting states reach the same state.
pub proof fn lemma_gear_window(h1: u64, h2: u64, s: Seq<u8>)
    requires
        s.len() >= 64,
    ensures
        roll(h1, s) == roll(h2, s),
{
    let m: int = 0x1_0000_0000_0000_0000;
    lemma_roll_from_state(h1, s);
    lemma_roll_from_state(h2, s);
    lemma2_to64();
    lemma_pow2_adds(64, (s.len() - 64) as nat);
    let k = pow2((s.len() - 64) as nat) as int;
    assert(pow2(s.len()) as int == m * k);
    assert(h1 as int * (m * k) == m * (h1 as int * k)) by (nonlinear_arith);
    assert(h2 as int * (m * k) == m * (h2 as int * k)) by (nonlinear_arith);
    lemma_mod_multiples_vanish(h1 as int * k, roll(0, s) as int, m);
    lemma_mod_multiples_vanish(h2 as int * k, roll(0, s) as int, m);
}


proof fn lemma_xorshift30_injective(x: u64, y: u64)
    by (bit_vector)
    requires
        x ^ (x >> 30u64) == y ^ (y >> 30u64),
    ensures
        x == y,
{
}

proof fn lemma_xorshift27_injective(x: u64, y: u64)
    by (bit_vector)
    requires
        x ^ (x >> 27u64) == y ^ (y >> 27u64),
    ensures
        x == y,
{
}

proof fn lemma_xorshift31_injective(x: u64, y: u64)
    by (bit_vector)
    requires
        x ^ (x >> 31u64) == y ^ (y >> 31u64),
    ensures
        x == y,
{
}

/// Multiplication by the first SplitMix64 constant is undone by its inverse modulo 2^64.
proof fn lemma_mul1_inverse(x: u64)
    by (bit_vector)
    ensures
        x.wrapping_mul(0xbf58476d1ce4e5b9u64).wrapping_mul(0x96de1b173f119089u64) == x,
{
}

/// Multiplication by the second SplitMix64 constant is undone by its inverse modulo 2^64.
proof fn lemma_mul2_inverse(x: u64)
    by (bit_vector)
    ensures
        x.wrapping_mul(0x94d049bb133111ebu64).wrapping_mul(0x319642b2d24d8ec3u64) == x,
{
}

proof fn lemma_add_offset_injective(x: u64, y: u64)
    by (bit_vector)
    requires
        x.wrapping_add(0x9e3779b97f4a7c15u64) == y.wrapping_add(0x9e3779b97f4a7c15u64),
    ensures
        x == y,
{
}

/// SplitMix64 is a bijection on 64-bit values: distinct seeds give distinct outputs.
pub proof fn lemma_splitmix64_injective(x: u64, y: u64)
    requires
        spec_splitmix64(x) == spec_splitmix64(y),
    ensures
        x == y,
{
    let x1 = x.wrapping_add(0x9e3779b97f4a7c15u64);
    let y1 = y.wrapping_add(0x9e3779b97f4a7c15u64);
    let x2 = (x1 ^ (x1 >> 30u64)).wrapping_mul(0xbf58476d1ce4e5b9u64);
    let y2 = (y1 ^ (y1 >> 30u64)).wrapping_mul(0xbf58476d1ce4e5b9u64);
    let x3 = (x2 ^ (x2 >> 27u64)).wrapping_mul(0x94d049bb133111ebu64);
    let y3 = (y2 ^ (y2 >> 27u64)).wrapping_mul(0x94d049bb133111ebu64);
    lemma_xorshift31_injective(x3, y3);
    lemma_mul2_inverse(x2 ^ (x2 >> 27u64));
    lemma_mul2_inverse(y2 ^ (y2 >> 27u64));
    lemma_xorshift27_injective(x2, y2);
    lemma_mul1_inverse(x1 ^ (x1 >> 30u64));
    lemma_mul1_inverse(y1 ^ (y1 >> 30u64));
    lemma_xorshift30_injective(x1, y1);
    lemma_add_offset_injective(x, y);
}

/// All 256 entries of the gear table are distinct.
pub proof fn lemma_gear_table_distinct(i: u8, j: u8)
    requires
        i != j,
    ensures
        GEAR_TABLE@[i as int] != GEAR_TABLE@[j as int],
{
    lemma_gear_table_entry(i);
    lemma_gear_table_entry(j);
    assert(gear_seed(i) == i + GEAR_SEED_OFFSET);
    assert(gear_seed(j) == j + GEAR_SEED_OFFSET);
    if gear(i) == gear(j) {
        lemma_splitmix64_injective(gear_seed(i), gear_seed(j));
    }
}


/// Reading `a` and then `b` reaches the state that reading `a + b` reaches.
pub proof fn lemma_roll_append(h: u64, a: Seq<u8>, b: Seq<u8>)
    ensures
        roll(h, a + b) == roll(roll(h, a), b),
    decreases b.len(),
{
    if b.len() == 0 {
        assert(a + b =~= a);
    } else {
        lemma_roll_append(h, a, b.drop_last());
        assert((a + b).drop_last() =~= a + b.drop_last());
        assert((a + b).last() == b.last());
    }
}

/// Cut decisions are local: once a scan has read at least 64 bytes, its hash depends
/// only on the last 64 bytes read. Two scans, in any data and from any start, whose
/// last 64 bytes agree have the same hash, and so agree on whether they are at a
/// cut-point.
pub proof fn lemma_window_hash_local(
    data1: Seq<u8>,
    start1: int,
    end1: int,
    data2: Seq<u8>,
    start2: int,
    end2: int,
)
    requires
        0 <= start1 && start1 + 64 <= end1 <= data1.len(),
        0 <= start2 && start2 + 64 <= end2 <= data2.len(),
        data1.subrange(end1 - 64, end1) == data2.subrange(end2 - 64, end2),
    ensures
        window_hash(data1, start1, end1) == window_hash(data2, start2, end2),
{
    let w = data1.subrange(end1 - 64, end1);
    let a1 = data1.subrange(start1, end1 - 64);
    let a2 = data2.subrange(start2, end2 - 64);
    assert(data1.subrange(start1, end1) =~= a1 + w);
    assert(data2.subrange(start2, end2) =~= a2 + w);
    lemma_roll_append(0, a1, w);
    lemma_roll_append(0, a2, w);
    lemma_gear_window(roll(0, a1), roll(0, a2), w);
}


/// Scans over equal bytes see equal hashes, wherever those bytes lie.
pub proof fn lemma_window_hash_shift(d1: Seq<u8>, s1: int, d2: Seq<u8>, s2: int, n: int, k: int)
    requires
        0 <= s1 && s1 + n <= d1.len(),
        0 <= s2 && s2 + n <= d2.len(),
        d1.subrange(s1, s1 + n) == d2.subrange(s2, s2 + n),
        0 <= k <= n,
    ensures
        window_hash(d1, s1, s1 + k) == window_hash(d2, s2, s2 + k),
{
    assert(d1.subrange(s1, s1 + k) =~= d1.subrange(s1, s1 + n).subrange(0, k));
    assert(d2.subrange(s2, s2 + k) =~= d2.subrange(s2, s2 + n).subrange(0, k));
}

/// Over equal bytes, the first cut-points from the same offset agree up to the shift.
pub proof fn lemma_first_cut_shift(d1: Seq<u8>, s1: int, d2: Seq<u8>, s2: int, n: int, k: int, mask: u64)
    requires
        0 <= s1 && s1 + n <= d1.len(),
        0 <= s2 && s2 + n <= d2.len(),
        d1.subrange(s1, s1 + n) == d2.subrange(s2, s2 + n),
        0 <= k,
    ensures
        match (first_cut(d1, s1, s1 + k, s1 + n, mask), first_cut(d2, s2, s2 + k, s2 + n, mask)) {
            (None, None) => true,
            (Some(p), Some(q)) => p - s1 == q - s2,
            _ => false,
        },
    decreases n + 1 - k,
{
    if k <= n {
        lemma_window_hash_shift(d1, s1, d2, s2, n, k);
        assert(s1 + k + 1 == s1 + (k + 1));
        assert(s2 + k + 1 == s2 + (k + 1));
        lemma_first_cut_shift(d1, s1, d2, s2, n, k + 1, mask);
    }
}

/// A cut-point search depends only on the bytes of its range: over equal bytes, two
/// searches stop at the same distance from their starts with the same hash. In
/// particular searching `data[start..max)` on its own gives the same result shifted by
/// `start`, and bytes outside the range do not matter.
pub proof fn lemma_cutpoint_local(d1: Seq<u8>, s1: int, d2: Seq<u8>, s2: int, n: int, mask: u64)
    requires
        0 <= s1 && s1 + n <= d1.len(),
        0 <= s2 && s2 + n <= d2.len(),
        d1.subrange(s1, s1 + n) == d2.subrange(s2, s2 + n),
    ensures
        spec_cutpoint(d1, s1, s1 + n, mask).0 - s1 == spec_cutpoint(d2, s2, s2 + n, mask).0 - s2,
        spec_cutpoint(d1, s1, s1 + n, mask).1 == spec_cutpoint(d2, s2, s2 + n, mask).1,
{
    if n > 0 {
        lemma_first_cut_shift(d1, s1, d2, s2, n, 1, mask);
        lemma_first_cut_bounds(d1, s1, s1 + 1, s1 + n, mask);
        match first_cut(d1, s1, s1 + 1, s1 + n, mask) {
            Some(p) => {
                let q = p - s1 + s2;
                lemma_window_hash_shift(d1, s1, d2, s2, n, p - s1);
                assert(s2 + (p - s1) == q);
            },
            None => {
                lemma_window_hash_shift(d1, s1, d2, s2, n, n);
            },
        }
    }
}

} // verus!
