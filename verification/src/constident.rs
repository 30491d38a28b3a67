//! Recognizes the constants that identify well-known algorithms.

use vstd::prelude::*;
use vstd::string::StringExecFns;

use crate::ctx::text_of;
use crate::text::{dec, decimal, hexadecimal, spell, zero_padded};

verus! {

/// A recognized constant.
#[derive(Clone, Debug, PartialEq, Eq)]
pub struct ConstMatch {
    /// The constant in hexadecimal, in the width it is defined at.
    pub value: String,
    pub decimal: String,
    /// The family that it belongs to.
    pub algorithm: String,
    /// What it is within the algorithm.
    pub role: String,
    /// What the algorithm computes.
    pub formula: Option<String>,
    /// Who uses it, and what it pairs with.
    pub note: Option<String>,
    /// The width that it is defined at, in bits.
    pub width: u8,
}

/// A constant that identifies an algorithm.
#[derive(Clone, Copy, Debug, PartialEq, Eq)]
pub struct Fingerprint {
    pub value: u64,
    pub width: u8,
    pub algorithm: &'static str,
    pub role: &'static str,
    pub formula: Option<&'static str>,
    pub note: Option<&'static str>,
}

/// A recognized constant, by contents.
pub ghost struct MatchNode {
    pub value: Seq<char>,
    pub decimal: Seq<char>,
    pub algorithm: Seq<char>,
    pub role: Seq<char>,
    pub formula: Option<Seq<char>>,
    pub note: Option<Seq<char>>,
    pub width: u8,
}

pub open spec fn match_node(m: ConstMatch) -> MatchNode {
    MatchNode {
        value: m.value@,
        decimal: m.decimal@,
        algorithm: m.algorithm@,
        role: m.role@,
        formula: text_of(m.formula),
        note: text_of(m.note),
        width: m.width,
    }
}

pub open spec fn match_nodes(v: Seq<ConstMatch>) -> Seq<MatchNode> {
    v.map_values(|m: ConstMatch| match_node(m))
}

/// The constants: of linear congruential and other generators, of the Murmur
/// and FNV hashes, of CRC-32, of xxHash, and the golden ratio.
pub open spec fn fingerprints() -> Seq<Fingerprint> {
    seq![
        Fingerprint {
            value: 1_664_525,
            width: 32,
            algorithm: "LCG",
            role: "multiplier a",
            formula: Some("s' = s*1664525 + 1013904223 (mod 2^32)"),
            note: Some("Numerical Recipes — observed live in a Bitsquid/Stingray-engine game's combo RNG — pairs with c=1013904223"),
        },
        Fingerprint {
            value: 1_013_904_223,
            width: 32,
            algorithm: "LCG",
            role: "increment c",
            formula: Some("s' = s*1664525 + 1013904223 (mod 2^32)"),
            note: Some("Numerical Recipes — pairs with a=1664525"),
        },
        Fingerprint {
            value: 214_013,
            width: 32,
            algorithm: "LCG",
            role: "multiplier a",
            formula: Some("s' = s*214013 + 2531011 (mod 2^31)"),
            note: Some("MSVC rand() — pairs with c=2531011"),
        },
        Fingerprint {
            value: 2_531_011,
            width: 32,
            algorithm: "LCG",
            role: "increment c",
            formula: Some("s' = s*214013 + 2531011"),
            note: Some("MSVC rand()"),
        },
        Fingerprint {
            value: 1_103_515_245,
            width: 32,
            algorithm: "LCG",
            role: "multiplier a",
            formula: Some("s' = s*1103515245 + 12345"),
            note: Some("glibc / ANSI C rand() — pairs with c=12345"),
        },
        Fingerprint {
            value: 12_345,
            width: 32,
            algorithm: "LCG",
            role: "increment c",
            formula: Some("s' = s*1103515245 + 12345"),
            note: Some("glibc / ANSI C rand()"),
        },
        Fingerprint {
            value: 22_695_477,
            width: 32,
            algorithm: "LCG",
            role: "multiplier a",
            formula: Some("s' = s*22695477 + 1"),
            note: Some("Borland C/C++ rand()"),
        },
        Fingerprint {
            value: 69_069,
            width: 32,
            algorithm: "LCG",
            role: "multiplier a",
            formula: Some("s' = s*69069 + c"),
            note: Some("Marsaglia 'super-duper' / VAX MTH$RANDOM"),
        },
        Fingerprint {
            value: 6_364_136_223_846_793_005,
            width: 64,
            algorithm: "LCG",
            role: "multiplier a",
            formula: Some("s' = s*6364136223846793005 + inc"),
            note: Some("PCG / Knuth MMIX 64-bit LCG multiplier"),
        },
        Fingerprint {
            value: 1_442_695_040_888_963_407,
            width: 64,
            algorithm: "LCG",
            role: "increment c",
            formula: Some("s' = s*a + 1442695040888963407"),
            note: Some("PCG default stream / Knuth MMIX increment"),
        },
        Fingerprint {
            value: 2_862_933_555_777_941_757,
            width: 64,
            algorithm: "LCG",
            role: "multiplier a",
            formula: Some("s' = s*2862933555777941757 + c"),
            note: Some("Knuth/Lavaux–Janssens 64-bit LCG"),
        },
        Fingerprint {
            value: 0x2545_f491_4f6c_dd1d,
            width: 64,
            algorithm: "xorshift*",
            role: "multiplier",
            formula: Some("x ^= x>>12; x ^= x<<25; x ^= x>>27; return x*0x2545F4914F6CDD1D"),
            note: Some("Marsaglia xorshift64*"),
        },
        Fingerprint {
            value: 0x9e37_79b9_7f4a_7c15,
            width: 64,
            algorithm: "SplitMix64",
            role: "golden-ratio increment",
            formula: Some("z = (s += 0x9E3779B97F4A7C15); mix..."),
            note: Some("SplitMix64 / fibonacci-hash 64-bit golden ratio (2^64/φ)"),
        },
        Fingerprint {
            value: 0x5bd1_e995,
            width: 32,
            algorithm: "MurmurHash2",
            role: "mixing constant m",
            formula: Some("h ^= h>>r; h *= 0x5bd1e995 (r=24)"),
            note: Some("MurmurHash2 32-bit — the classic 'this is a hashmap lookup' tell"),
        },
        Fingerprint {
            value: 0xcc9e_2d51,
            width: 32,
            algorithm: "MurmurHash3",
            role: "constant c1",
            formula: Some("k *= c1; k = rotl(k,15); k *= c2"),
            note: Some("MurmurHash3 x86_32 c1"),
        },
        Fingerprint {
            value: 0x1b87_3593,
            width: 32,
            algorithm: "MurmurHash3",
            role: "constant c2",
            formula: Some("k *= c1; k = rotl(k,15); k *= c2"),
            note: Some("MurmurHash3 x86_32 c2"),
        },
        Fingerprint {
            value: 0xe654_6b64,
            width: 32,
            algorithm: "MurmurHash3",
            role: "round add constant",
            formula: Some("h = rotl(h,13); h = h*5 + 0xe6546b64"),
            note: Some("MurmurHash3 round mix"),
        },
        Fingerprint {
            value: 0x85eb_ca6b,
            width: 32,
            algorithm: "MurmurHash3",
            role: "fmix constant",
            formula: Some("h ^= h>>16; h *= 0x85ebca6b; ..."),
            note: Some("MurmurHash3 x86_32 finalizer"),
        },
        Fingerprint {
            value: 0xc2b2_ae35,
            width: 32,
            algorithm: "MurmurHash3",
            role: "fmix constant",
            formula: Some("...; h *= 0xc2b2ae35; h ^= h>>16"),
            note: Some("MurmurHash3 x86_32 finalizer"),
        },
        Fingerprint {
            value: 0xff51_afd7_ed55_8ccd,
            width: 64,
            algorithm: "MurmurHash3",
            role: "fmix64 constant",
            formula: Some("k ^= k>>33; k *= 0xff51afd7ed558ccd; ..."),
            note: Some("MurmurHash3 x64_128 finalizer"),
        },
        Fingerprint {
            value: 0xc4ce_b9fe_1a85_ec53,
            width: 64,
            algorithm: "MurmurHash3",
            role: "fmix64 constant",
            formula: Some("...; k *= 0xc4ceb9fe1a85ec53; k ^= k>>33"),
            note: Some("MurmurHash3 x64_128 finalizer"),
        },
        Fingerprint {
            value: 2_166_136_261,
            width: 32,
            algorithm: "FNV",
            role: "offset basis (32-bit)",
            formula: Some("h = 2166136261; for b: h ^= b; h *= 16777619 (FNV-1a)"),
            note: Some("FNV-1/1a 32-bit offset basis = 0x811c9dc5"),
        },
        Fingerprint {
            value: 16_777_619,
            width: 32,
            algorithm: "FNV",
            role: "prime (32-bit)",
            formula: Some("h *= 16777619"),
            note: Some("FNV 32-bit prime = 0x01000193"),
        },
        Fingerprint {
            value: 0xcbf2_9ce4_8422_2325,
            width: 64,
            algorithm: "FNV",
            role: "offset basis (64-bit)",
            formula: Some("h = 0xcbf29ce484222325; ... h *= 0x100000001b3"),
            note: Some("FNV-1/1a 64-bit offset basis"),
        },
        Fingerprint {
            value: 1_099_511_628_211,
            width: 64,
            algorithm: "FNV",
            role: "prime (64-bit)",
            formula: Some("h *= 1099511628211"),
            note: Some("FNV 64-bit prime = 0x100000001b3"),
        },
        Fingerprint {
            value: 0xedb8_8320,
            width: 32,
            algorithm: "CRC-32",
            role: "reversed polynomial",
            formula: Some("crc = (crc>>1) ^ (0xEDB88320 & -(crc&1))"),
            note: Some("zlib/PNG/Ethernet CRC-32, reflected form"),
        },
        Fingerprint {
            value: 0x04c1_1db7,
            width: 32,
            algorithm: "CRC-32",
            role: "normal polynomial",
            formula: Some("crc = (crc<<1) ^ (0x04C11DB7 & ...)"),
            note: Some("IEEE 802.3 CRC-32, MSB-first form"),
        },
        Fingerprint {
            value: 0x82f6_3b78,
            width: 32,
            algorithm: "CRC-32C",
            role: "reversed polynomial",
            formula: Some("Castagnoli CRC-32C, reflected"),
            note: Some("SSE4.2 crc32 instruction / iSCSI / ext4"),
        },
        Fingerprint {
            value: 0x1edc_6f41,
            width: 32,
            algorithm: "CRC-32C",
            role: "normal polynomial",
            formula: Some("Castagnoli CRC-32C, MSB-first"),
            note: None,
        },
        Fingerprint {
            value: 0x9e37_79b1,
            width: 32,
            algorithm: "xxHash",
            role: "PRIME32_1",
            formula: Some("acc = rotl(acc + lane*PRIME32_2, 13) * PRIME32_1"),
            note: Some("xxHash32 — near golden ratio 0x9E3779B9"),
        },
        Fingerprint {
            value: 0x85eb_ca77,
            width: 32,
            algorithm: "xxHash",
            role: "PRIME32_2",
            formula: None,
            note: None,
        },
        Fingerprint {
            value: 0xc2b2_ae3d,
            width: 32,
            algorithm: "xxHash",
            role: "PRIME32_3",
            formula: None,
            note: None,
        },
        Fingerprint {
            value: 0x27d4_eb2f,
            width: 32,
            algorithm: "xxHash",
            role: "PRIME32_4",
            formula: None,
            note: None,
        },
        Fingerprint {
            value: 0x1656_67b1,
            width: 32,
            algorithm: "xxHash",
            role: "PRIME32_5",
            formula: None,
            note: None,
        },
        Fingerprint {
            value: 0x9e37_79b1_85eb_ca87,
            width: 64,
            algorithm: "xxHash",
            role: "PRIME64_1",
            formula: None,
            note: Some("xxHash64"),
        },
        Fingerprint {
            value: 0xc2b2_ae3d_27d4_eb4f,
            width: 64,
            algorithm: "xxHash",
            role: "PRIME64_2",
            formula: None,
            note: Some("xxHash64"),
        },
        Fingerprint {
            value: 0x1656_67b1_9e37_79f9,
            width: 64,
            algorithm: "xxHash",
            role: "PRIME64_3",
            formula: None,
            note: Some("xxHash64"),
        },
        Fingerprint {
            value: 0x27d4_eb2f_1656_67c5,
            width: 64,
            algorithm: "xxHash",
            role: "PRIME64_4",
            formula: None,
            note: Some("xxHash64"),
        },
        Fingerprint {
            value: 0x60ea_27ee_adc0_b5d6,
            width: 64,
            algorithm: "xxHash",
            role: "PRIME64_5",
            formula: None,
            note: Some("xxHash64"),
        },
        Fingerprint {
            value: 0x9e37_79b9,
            width: 32,
            algorithm: "golden-ratio",
            role: "2^32 / φ",
            formula: Some("hash = (key * 0x9E3779B9) >> (32 - bits)"),
            note: Some("Fibonacci hashing / TEA 'delta' / Boost hash_combine 32-bit"),
        },
    ]
}

fn table() -> (v: Vec<Fingerprint>)
    ensures
        v@ == fingerprints(),
{
    let mut v: Vec<Fingerprint> = Vec::new();
    v.push(
        Fingerprint {
            value: 1_664_525,
            width: 32,
            algorithm: "LCG",
            role: "multiplier a",
            formula: Some("s' = s*1664525 + 1013904223 (mod 2^32)"),
            note: Some("Numerical Recipes — observed live in a Bitsquid/Stingray-engine game's combo RNG — pairs with c=1013904223"),
        },
    );
    v.push(
        Fingerprint {
            value: 1_013_904_223,
            width: 32,
            algorithm: "LCG",
            role: "increment c",
            formula: Some("s' = s*1664525 + 1013904223 (mod 2^32)"),
            note: Some("Numerical Recipes — pairs with a=1664525"),
        },
    );
    v.push(
        Fingerprint {
            value: 214_013,
            width: 32,
            algorithm: "LCG",
            role: "multiplier a",
            formula: Some("s' = s*214013 + 2531011 (mod 2^31)"),
            note: Some("MSVC rand() — pairs with c=2531011"),
        },
    );
    v.push(
        Fingerprint {
            value: 2_531_011,
            width: 32,
            algorithm: "LCG",
            role: "increment c",
            formula: Some("s' = s*214013 + 2531011"),
            note: Some("MSVC rand()"),
        },
    );
    v.push(
        Fingerprint {
            value: 1_103_515_245,
            width: 32,
            algorithm: "LCG",
            role: "multiplier a",
            formula: Some("s' = s*1103515245 + 12345"),
            note: Some("glibc / ANSI C rand() — pairs with c=12345"),
        },
    );
    v.push(
        Fingerprint {
            value: 12_345,
            width: 32,
            algorithm: "LCG",
            role: "increment c",
            formula: Some("s' = s*1103515245 + 12345"),
            note: Some("glibc / ANSI C rand()"),
        },
    );
    v.push(
        Fingerprint {
            value: 22_695_477,
            width: 32,
            algorithm: "LCG",
            role: "multiplier a",
            formula: Some("s' = s*22695477 + 1"),
            note: Some("Borland C/C++ rand()"),
        },
    );
    v.push(
        Fingerprint {
            value: 69_069,
            width: 32,
            algorithm: "LCG",
            role: "multiplier a",
            formula: Some("s' = s*69069 + c"),
            note: Some("Marsaglia 'super-duper' / VAX MTH$RANDOM"),
        },
    );
    v.push(
        Fingerprint {
            value: 6_364_136_223_846_793_005,
            width: 64,
            algorithm: "LCG",
            role: "multiplier a",
            formula: Some("s' = s*6364136223846793005 + inc"),
            note: Some("PCG / Knuth MMIX 64-bit LCG multiplier"),
        },
    );
    v.push(
        Fingerprint {
            value: 1_442_695_040_888_963_407,
            width: 64,
            algorithm: "LCG",
            role: "increment c",
            formula: Some("s' = s*a + 1442695040888963407"),
            note: Some("PCG default stream / Knuth MMIX increment"),
        },
    );
    v.push(
        Fingerprint {
            value: 2_862_933_555_777_941_757,
            width: 64,
            algorithm: "LCG",
            role: "multiplier a",
            formula: Some("s' = s*2862933555777941757 + c"),
            note: Some("Knuth/Lavaux–Janssens 64-bit LCG"),
        },
    );
    v.push(
        Fingerprint {
            value: 0x2545_f491_4f6c_dd1d,
            width: 64,
            algorithm: "xorshift*",
            role: "multiplier",
            formula: Some("x ^= x>>12; x ^= x<<25; x ^= x>>27; return x*0x2545F4914F6CDD1D"),
            note: Some("Marsaglia xorshift64*"),
        },
    );
    v.push(
        Fingerprint {
            value: 0x9e37_79b9_7f4a_7c15,
            width: 64,
            algorithm: "SplitMix64",
            role: "golden-ratio increment",
            formula: Some("z = (s += 0x9E3779B97F4A7C15); mix..."),
            note: Some("SplitMix64 / fibonacci-hash 64-bit golden ratio (2^64/φ)"),
        },
    );
    v.push(
        Fingerprint {
            value: 0x5bd1_e995,
            width: 32,
            algorithm: "MurmurHash2",
            role: "mixing constant m",
            formula: Some("h ^= h>>r; h *= 0x5bd1e995 (r=24)"),
            note: Some("MurmurHash2 32-bit — the classic 'this is a hashmap lookup' tell"),
        },
    );
    v.push(
        Fingerprint {
            value: 0xcc9e_2d51,
            width: 32,
            algorithm: "MurmurHash3",
            role: "constant c1",
            formula: Some("k *= c1; k = rotl(k,15); k *= c2"),
            note: Some("MurmurHash3 x86_32 c1"),
        },
    );
    v.push(
        Fingerprint {
            value: 0x1b87_3593,
            width: 32,
            algorithm: "MurmurHash3",
            role: "constant c2",
            formula: Some("k *= c1; k = rotl(k,15); k *= c2"),
            note: Some("MurmurHash3 x86_32 c2"),
        },
    );
    v.push(
        Fingerprint {
            value: 0xe654_6b64,
            width: 32,
            algorithm: "MurmurHash3",
            role: "round add constant",
            formula: Some("h = rotl(h,13); h = h*5 + 0xe6546b64"),
            note: Some("MurmurHash3 round mix"),
        },
    );
    v.push(
        Fingerprint {
            value: 0x85eb_ca6b,
            width: 32,
            algorithm: "MurmurHash3",
            role: "fmix constant",
            formula: Some("h ^= h>>16; h *= 0x85ebca6b; ..."),
            note: Some("MurmurHash3 x86_32 finalizer"),
        },
    );
    v.push(
        Fingerprint {
            value: 0xc2b2_ae35,
            width: 32,
            algorithm: "MurmurHash3",
            role: "fmix constant",
            formula: Some("...; h *= 0xc2b2ae35; h ^= h>>16"),
            note: Some("MurmurHash3 x86_32 finalizer"),
        },
    );
    v.push(
        Fingerprint {
            value: 0xff51_afd7_ed55_8ccd,
            width: 64,
            algorithm: "MurmurHash3",
            role: "fmix64 constant",
            formula: Some("k ^= k>>33; k *= 0xff51afd7ed558ccd; ..."),
            note: Some("MurmurHash3 x64_128 finalizer"),
        },
    );
    v.push(
        Fingerprint {
            value: 0xc4ce_b9fe_1a85_ec53,
            width: 64,
            algorithm: "MurmurHash3",
            role: "fmix64 constant",
            formula: Some("...; k *= 0xc4ceb9fe1a85ec53; k ^= k>>33"),
            note: Some("MurmurHash3 x64_128 finalizer"),
        },
    );
    v.push(
        Fingerprint {
            value: 2_166_136_261,
            width: 32,
            algorithm: "FNV",
            role: "offset basis (32-bit)",
            formula: Some("h = 2166136261; for b: h ^= b; h *= 16777619 (FNV-1a)"),
            note: Some("FNV-1/1a 32-bit offset basis = 0x811c9dc5"),
        },
    );
    v.push(
        Fingerprint {
            value: 16_777_619,
            width: 32,
            algorithm: "FNV",
            role: "prime (32-bit)",
            formula: Some("h *= 16777619"),
            note: Some("FNV 32-bit prime = 0x01000193"),
        },
    );
    v.push(
        Fingerprint {
            value: 0xcbf2_9ce4_8422_2325,
            width: 64,
            algorithm: "FNV",
            role: "offset basis (64-bit)",
            formula: Some("h = 0xcbf29ce484222325; ... h *= 0x100000001b3"),
            note: Some("FNV-1/1a 64-bit offset basis"),
        },
    );
    v.push(
        Fingerprint {
            value: 1_099_511_628_211,
            width: 64,
            algorithm: "FNV",
            role: "prime (64-bit)",
            formula: Some("h *= 1099511628211"),
            note: Some("FNV 64-bit prime = 0x100000001b3"),
        },
    );
    v.push(
        Fingerprint {
            value: 0xedb8_8320,
            width: 32,
            algorithm: "CRC-32",
            role: "reversed polynomial",
            formula: Some("crc = (crc>>1) ^ (0xEDB88320 & -(crc&1))"),
            note: Some("zlib/PNG/Ethernet CRC-32, reflected form"),
        },
    );
    v.push(
        Fingerprint {
            value: 0x04c1_1db7,
            width: 32,
            algorithm: "CRC-32",
            role: "normal polynomial",
            formula: Some("crc = (crc<<1) ^ (0x04C11DB7 & ...)"),
            note: Some("IEEE 802.3 CRC-32, MSB-first form"),
        },
    );
    v.push(
        Fingerprint {
            value: 0x82f6_3b78,
            width: 32,
            algorithm: "CRC-32C",
            role: "reversed polynomial",
            formula: Some("Castagnoli CRC-32C, reflected"),
            note: Some("SSE4.2 crc32 instruction / iSCSI / ext4"),
        },
    );
    v.push(
        Fingerprint {
            value: 0x1edc_6f41,
            width: 32,
            algorithm: "CRC-32C",
            role: "normal polynomial",
            formula: Some("Castagnoli CRC-32C, MSB-first"),
            note: None,
        },
    );
    v.push(
        Fingerprint {
            value: 0x9e37_79b1,
            width: 32,
            algorithm: "xxHash",
            role: "PRIME32_1",
            formula: Some("acc = rotl(acc + lane*PRIME32_2, 13) * PRIME32_1"),
            note: Some("xxHash32 — near golden ratio 0x9E3779B9"),
        },
    );
    v.push(
        Fingerprint {
            value: 0x85eb_ca77,
            width: 32,
            algorithm: "xxHash",
            role: "PRIME32_2",
            formula: None,
            note: None,
        },
    );
    v.push(
        Fingerprint {
            value: 0xc2b2_ae3d,
            width: 32,
            algorithm: "xxHash",
            role: "PRIME32_3",
            formula: None,
            note: None,
        },
    );
    v.push(
        Fingerprint {
            value: 0x27d4_eb2f,
            width: 32,
            algorithm: "xxHash",
            role: "PRIME32_4",
            formula: None,
            note: None,
        },
    );
    v.push(
        Fingerprint {
            value: 0x1656_67b1,
            width: 32,
            algorithm: "xxHash",
            role: "PRIME32_5",
            formula: None,
            note: None,
        },
    );
    v.push(
        Fingerprint {
            value: 0x9e37_79b1_85eb_ca87,
            width: 64,
            algorithm: "xxHash",
            role: "PRIME64_1",
            formula: None,
            note: Some("xxHash64"),
        },
    );
    v.push(
        Fingerprint {
            value: 0xc2b2_ae3d_27d4_eb4f,
            width: 64,
            algorithm: "xxHash",
            role: "PRIME64_2",
            formula: None,
            note: Some("xxHash64"),
        },
    );
    v.push(
        Fingerprint {
            value: 0x1656_67b1_9e37_79f9,
            width: 64,
            algorithm: "xxHash",
            role: "PRIME64_3",
            formula: None,
            note: Some("xxHash64"),
        },
    );
    v.push(
        Fingerprint {
            value: 0x27d4_eb2f_1656_67c5,
            width: 64,
            algorithm: "xxHash",
            role: "PRIME64_4",
            formula: None,
            note: Some("xxHash64"),
        },
    );
    v.push(
        Fingerprint {
            value: 0x60ea_27ee_adc0_b5d6,
            width: 64,
            algorithm: "xxHash",
            role: "PRIME64_5",
            formula: None,
            note: Some("xxHash64"),
        },
    );
    v.push(
        Fingerprint {
            value: 0x9e37_79b9,
            width: 32,
            algorithm: "golden-ratio",
            role: "2^32 / φ",
            formula: Some("hash = (key * 0x9E3779B9) >> (32 - bits)"),
            note: Some("Fibonacci hashing / TEA 'delta' / Boost hash_combine 32-bit"),
        },
    );
    assert(v@ =~= fingerprints());
    v
}

/// The value is the constant. One of 32 bits is also sought in the lower half of
/// the value, because it may have been extended.
pub open spec fn is_match(f: Fingerprint, value: u64) -> bool {
    value == f.value || (f.width == 32 && value as int % 0x1_0000_0000 == f.value)
}

/// Text where there is any.
pub open spec fn opt_str(o: Option<&'static str>) -> Option<Seq<char>> {
    match o {
        Some(s) => Some(s@),
        None => None,
    }
}

/// What is said of a constant.
pub open spec fn said_of(f: Fingerprint) -> MatchNode {
    MatchNode {
        value: "0x"@ + zero_padded(
            spell(f.value as nat, 16, false),
            if f.width == 32 {
                8
            } else {
                16
            },
        ),
        decimal: dec(f.value as nat),
        algorithm: f.algorithm@,
        role: f.role@,
        formula: opt_str(f.formula),
        note: opt_str(f.note),
        width: f.width,
    }
}

/// What is said of a value by the first `k` constants.
pub open spec fn said(t: Seq<Fingerprint>, value: u64, k: int) -> Seq<MatchNode>
    decreases k,
{
    if k <= 0 {
        Seq::empty()
    } else if is_match(t[k - 1], value) {
        said(t, value, k - 1).push(said_of(t[k - 1]))
    } else {
        said(t, value, k - 1)
    }
}

/// All that a value identifies.
pub open spec fn identified(value: u64) -> Seq<MatchNode> {
    said(fingerprints(), value, fingerprints().len() as int)
}

fn copy_str(o: Option<&'static str>) -> (r: Option<String>)
    ensures
        text_of(r) == opt_str(o),
{
    match o {
        Some(s) => Some(String::from_str(s)),
        None => None,
    }
}

fn report(f: &Fingerprint) -> (m: ConstMatch)
    ensures
        match_node(m) == said_of(*f),
{
    let digits: usize = if f.width == 32 {
        8
    } else {
        16
    };
    ConstMatch {
        value: String::from_str("0x").concat(hexadecimal(f.value, false, digits).as_str()),
        decimal: decimal(f.value),
        algorithm: String::from_str(f.algorithm),
        role: String::from_str(f.role),
        formula: copy_str(f.formula),
        note: copy_str(f.note),
        width: f.width,
    }
}

/// Every constant that a value may be.
pub fn identify_u64(value: u64) -> (out: Vec<ConstMatch>)
    ensures
        match_nodes(out@) == identified(value),
{
    let t = table();
    let mut out: Vec<ConstMatch> = Vec::new();
    let mut k: usize = 0;
    assert(match_nodes(out@) =~= Seq::<MatchNode>::empty());
    while k < t.len()
        invariant
            t@ == fingerprints(),
            k <= t@.len(),
            match_nodes(out@) == said(t@, value, k as int),
        decreases t@.len() - k,
    {
        let f = &t[k];
        if value == f.value || (f.width == 32 && value % 0x1_0000_0000 == f.value) {
            let m = report(f);
            assert(match_nodes(out@.push(m)) =~= match_nodes(out@).push(match_node(m)));
            out.push(m);
        }
        k = k + 1;
    }
    out
}

// ---------------------------------------------------------------------------
// Laws
// ---------------------------------------------------------------------------

proof fn lemma_said(t: Seq<Fingerprint>, value: u64, k: int, i: int)
    requires
        0 <= i < k <= t.len(),
        is_match(t[i], value),
    ensures
        said(t, value, k).contains(said_of(t[i])),
    decreases k,
{
    if i == k - 1 {
        let s = said(t, value, k - 1);
        assert(s.push(said_of(t[i]))[s.len() as int] == said_of(t[i]));
    } else {
        lemma_said(t, value, k - 1, i);
        let s = said(t, value, k - 1);
        let n = choose|n: int| 0 <= n < s.len() && s[n] == said_of(t[i]);
        assert(said(t, value, k)[n] == said_of(t[i]));
    }
}

/// A constant is recognized by its own value, and one of 32 bits by every value
/// that has it in its lower half, however it was extended.
pub proof fn extended_constants_are_recognized(value: u64, i: int)
    requires
        0 <= i < fingerprints().len(),
        value == fingerprints()[i].value || (fingerprints()[i].width == 32 && value as int % 0x1_0000_0000
            == fingerprints()[i].value),
    ensures
        identified(value).contains(said_of(fingerprints()[i])),
{
    lemma_said(fingerprints(), value, fingerprints().len() as int, i);
}

proof fn lemma_said_back(t: Seq<Fingerprint>, value: u64, k: int, m: MatchNode)
    requires
        0 <= k <= t.len(),
        said(t, value, k).contains(m),
    ensures
        exists|i: int| 0 <= i < k && is_match(#[trigger] t[i], value) && m == said_of(t[i]),
    decreases k,
{
    if k > 0 {
        let s = said(t, value, k);
        let n = choose|n: int| 0 <= n < s.len() && s[n] == m;
        let p = said(t, value, k - 1);
        if n < p.len() {
            assert(p[n] == m);
            lemma_said_back(t, value, k - 1, m);
        } else {
            assert(is_match(t[k - 1], value));
        }
    }
}

/// Nothing is said of a value that is none of the constants.
pub proof fn other_numbers_match_nothing(value: u64)
    requires
        forall|i: int| 0 <= i < fingerprints().len() ==> !is_match(#[trigger] fingerprints()[i], value),
    ensures
        identified(value).len() == 0,
{
    if identified(value).len() > 0 {
        let m = identified(value)[0];
        assert(identified(value).contains(m));
        lemma_said_back(fingerprints(), value, fingerprints().len() as int, m);
    }
}

/// What is said of a value names a constant that the value is, or that its lower half is,
/// with that constant's number in both notations and what it is known for.
pub proof fn only_constants_are_named(value: u64, m: MatchNode)
    requires
        identified(value).contains(m),
    ensures
        exists|i: int|
            {
                let f = #[trigger] fingerprints()[i];
                &&& 0 <= i < fingerprints().len()
                &&& value == f.value || (f.width == 32 && value as int % 0x1_0000_0000 == f.value)
                &&& m.decimal == dec(f.value as nat)
                &&& f.width == 32 ==> m.value == "0x"@ + zero_padded(spell(f.value as nat, 16, false), 8)
                &&& f.width != 32 ==> m.value == "0x"@ + zero_padded(spell(f.value as nat, 16, false), 16)
                &&& m.algorithm == f.algorithm@
                &&& m.role == f.role@
                &&& m.width == f.width
            },
{
    lemma_said_back(fingerprints(), value, fingerprints().len() as int, m);
}

} // verus!
