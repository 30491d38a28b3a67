use n0xis_core::aob::{complain, parse_aob, AobByte, AobInput, AobScanPass};
use n0xis_core::aslr::{rebase, rva_of, va_at};
use n0xis_core::constident::identify_u64;
use n0xis_core::ctx::Ctx;
use n0xis_core::decode::{DecodeInput, DecodePass};
use n0xis_core::dissect::{DissectInput, DissectPass, GuessedKind};
use n0xis_core::source::{CoreError, Region, Snapshot, SourceError};
use n0xis_core::va::Va;

fn memory(regions: Vec<(u64, Vec<u8>)>) -> Snapshot {
    Snapshot {
        regions: regions.into_iter().map(|(start, bytes)| Region { start: Va(start), bytes }).collect(),
        code: Vec::new(),
    }
}

#[test]
fn parses_wildcards_and_hex_bytes() {
    let pattern = parse_aob("48 8B ?? 68").unwrap();
    assert_eq!(pattern, vec![AobByte::Exact(0x48), AobByte::Exact(0x8B), AobByte::Wildcard, AobByte::Exact(0x68)]);
}

#[test]
fn rejects_a_malformed_token() {
    assert!(parse_aob("zz").is_err());
}

#[test]
fn the_first_malformed_token_is_named() {
    assert_eq!(parse_aob("48 zz qq").unwrap_err(), "invalid AOB byte token: \"zz\"");
    assert_eq!(parse_aob("48 1\"2").unwrap_err(), "invalid AOB byte token: \"1\\\"2\"");
    assert_eq!(complain("'x'"), "invalid AOB byte token: 'x'");
}

#[test]
fn tokens_are_read_as_hexadecimal_bytes() {
    assert_eq!(parse_aob("  +4a\t00ff ?\n").unwrap(), vec![AobByte::Exact(0x4a), AobByte::Exact(0xff), AobByte::Wildcard]);
    assert_eq!(parse_aob("").unwrap(), Vec::new());
    assert!(parse_aob("100").is_err());
    assert!(parse_aob("+").is_err());
    assert!(parse_aob("-1").is_err());
    assert!(parse_aob("???").is_err());
}

#[test]
fn finds_two_matches_with_a_wildcard_byte() {
    let code = vec![0x48, 0x8B, 0x50, 0x68, 0x90, 0x48, 0x8B, 0x60, 0x68, 0xC3];
    let snap = memory(vec![(0x1000, code)]);
    let ctx = Ctx::new(&snap);
    let pattern = parse_aob("48 8B ?? 68").unwrap();
    let art = AobScanPass.run(&ctx, AobInput { start: Va(0x1000), size: 10, pattern }).unwrap();
    assert_eq!(art.matches, vec![Va(0x1000), Va(0x1005)]);
    assert_eq!(art.bytes_scanned, 10);
}

#[test]
fn an_empty_or_too_long_pattern_is_found_nowhere() {
    let snap = memory(vec![(0x1000, vec![1, 2, 3])]);
    let ctx = Ctx::new(&snap);
    let art = AobScanPass.run(&ctx, AobInput { start: Va(0x1000), size: 3, pattern: Vec::new() }).unwrap();
    assert_eq!((art.matches.len(), art.bytes_scanned), (0, 3));
    let long = vec![AobByte::Wildcard; 4];
    let art = AobScanPass.run(&ctx, AobInput { start: Va(0x1000), size: 8, pattern: long }).unwrap();
    assert_eq!((art.matches.len(), art.bytes_scanned), (0, 3));
    let any = vec![AobByte::Wildcard; 2];
    let art = AobScanPass.run(&ctx, AobInput { start: Va(0x1000), size: 8, pattern: any }).unwrap();
    assert_eq!(art.matches, vec![Va(0x1000), Va(0x1001)]);
    let err = AobScanPass.run(&ctx, AobInput { start: Va(0x5000), size: 8, pattern: Vec::new() }).unwrap_err();
    assert_eq!(err, CoreError::Source(SourceError::Unmapped(Va(0x5000))));
    assert_eq!(AobScanPass.name(), "scan.aob");
}

#[test]
fn rebase_carries_an_address_between_two_bases() {
    let static_base = Va(0x140000000);
    let live_base = Va(0x7ff600000000);
    let static_va = Va(0x140001063);

    let live_va = rebase(static_va, static_base, live_base).unwrap();
    assert_eq!(live_va, Va(0x7ff600001063));

    let back = rebase(live_va, live_base, static_base).unwrap();
    assert_eq!(back, static_va);
}

#[test]
fn rva_of_is_none_below_the_base() {
    assert_eq!(rva_of(Va(0x2000), Va(0x1000)), None);
    assert_eq!(rva_of(Va(0x1000), Va(0x1000)), Some(0));
}

#[test]
fn addresses_wrap_at_the_end_of_the_address_space() {
    assert_eq!(va_at(Va(u64::MAX), 2), Va(1));
    assert_eq!(rebase(Va(0x10), Va(0x20), Va(0)), None);
}

#[test]
fn murmur2_seed_is_recognized() {
    let m = identify_u64(0x5bd1e995);
    assert!(m.iter().any(|c| c.algorithm == "MurmurHash2" && c.role.contains('m')));
}

#[test]
fn nr_lcg_pair_is_recognized_by_decimal() {
    assert!(identify_u64(1664525).iter().any(|c| c.algorithm == "LCG" && c.role.contains('a')));
    assert!(identify_u64(1013904223).iter().any(|c| c.algorithm == "LCG" && c.role.contains('c')));
}

#[test]
fn sign_extended_32bit_constant_still_matches() {
    let m = identify_u64(0xffff_ffff_5bd1_e995);
    assert!(m.iter().any(|c| c.algorithm == "MurmurHash2"), "low-32 match must fire: {m:?}");
}

#[test]
fn crc32_and_fnv_prime_are_distinct_families() {
    assert!(identify_u64(0xEDB88320).iter().all(|c| c.algorithm == "CRC-32"));
    assert!(identify_u64(16777619).iter().any(|c| c.algorithm == "FNV"));
}

#[test]
fn an_ordinary_number_matches_nothing() {
    assert!(identify_u64(42).is_empty());
    assert!(identify_u64(0xdead_beef).is_empty());
}

#[test]
fn a_match_is_written_in_its_own_width() {
    let m = identify_u64(0xffff_ffff_04c1_1db7);
    assert_eq!(m.len(), 1);
    assert_eq!(m[0].value, "0x04c11db7");
    assert_eq!(m[0].decimal, "79764919");
    assert_eq!(m[0].role, "normal polynomial");
    assert_eq!(m[0].formula.as_deref(), Some("crc = (crc<<1) ^ (0x04C11DB7 & ...)"));
    assert_eq!(m[0].width, 32);
    let w = identify_u64(1099511628211);
    assert_eq!(w.len(), 1);
    assert_eq!(w[0].value, "0x00000100000001b3");
    assert_eq!(w[0].decimal, "1099511628211");
    assert_eq!(w[0].note.as_deref(), Some("FNV 64-bit prime = 0x100000001b3"));
    assert_eq!(identify_u64(0x1EDC6F41)[0].note, None);
    assert_eq!(identify_u64(0x85EBCA77)[0].formula, None);
}

#[test]
fn a_decoding_window_has_room_for_its_instructions() {
    let i = DecodeInput::count(Va(0x1000), 10);
    assert_eq!((i.start, i.max_bytes, i.max_insns), (Va(0x1000), 160, 10));
    assert_eq!(DecodeInput::count(Va(0), 0).max_bytes, 16);
    assert_eq!(DecodeInput::count(Va(0), usize::MAX).max_bytes, usize::MAX);
    let snap = memory(vec![(0x1000, vec![0x90, 0xc3])]);
    let ctx = Ctx::new(&snap);
    assert_eq!(DecodePass.code(&ctx, i).unwrap(), vec![0x90, 0xc3]);
    let out = DecodePass.run(i, vec![insn(0x1000, 1, "nop"), insn(0x1001, 2, "ret")]);
    assert_eq!((out.start, out.count, out.bytes_consumed), (Va(0x1000), 2, 3));
    assert_eq!(out.insns[1].mnemonic, "ret");
    assert_eq!(
        DecodePass.code(&ctx, DecodeInput::count(Va(0x9000), 1)).unwrap_err(),
        CoreError::Source(SourceError::Unmapped(Va(0x9000)))
    );
}

fn insn(va: u64, len: u8, mnemonic: &str) -> n0xis_core::arch::DecodedInsn {
    n0xis_core::arch::DecodedInsn {
        va: Va(va),
        len,
        mnemonic: mnemonic.to_string(),
        text: mnemonic.to_string(),
        kind: n0xis_core::arch::InsnKind::Plain,
        target: None,
        rip_target: None,
        cond: None,
        stack_adjust: None,
    }
}

#[test]
fn classifies_a_pointer_a_float_and_a_small_int() {
    let mut region = vec![0u8; 24];
    region[0..8].copy_from_slice(&0x9000u64.to_le_bytes());
    region[8..16].copy_from_slice(&3.5f64.to_le_bytes());
    region[16..24].copy_from_slice(&42u64.to_le_bytes());

    let snap = memory(vec![(0x1000, region), (0x9000, vec![0u8; 8])]);
    let ctx = Ctx::new(&snap);

    let art = DissectPass.run(&ctx, DissectInput { start: Va(0x1000), size: 24 }).unwrap();
    assert_eq!(art.fields[0].kind, GuessedKind::Pointer);
    assert_eq!(art.fields[0].offset, 0);
    assert_eq!(art.fields[1].kind, GuessedKind::Double);
    assert_eq!(art.fields[1].offset, 8);
    assert_eq!(art.fields[2].kind, GuessedKind::Integer);
    assert_eq!(art.fields[2].offset, 16);
    assert_eq!(art.fields[0].raw_hex, "00 90 00 00 00 00 00 00");
    assert_eq!((art.fields[0].confidence, art.fields[1].confidence, art.fields[2].confidence), (90, 50, 30));
}

#[test]
fn a_short_read_says_so_instead_of_ending_quietly() {
    let snap = memory(vec![(0x3000, vec![7u8; 20])]);
    let ctx = Ctx::new(&snap);
    let art = DissectPass.run(&ctx, DissectInput { start: Va(0x3000), size: 64 }).unwrap();
    assert_eq!(art.requested, 64);
    assert_eq!(art.read, 20, "the region holds 20 bytes, so 20 is what can be dissected");
    assert!(art.truncated, "a short read must announce itself");
    assert!(art.fields.iter().all(|f| f.offset < 20));

    let art = DissectPass.run(&ctx, DissectInput { start: Va(0x3000), size: 20 }).unwrap();
    assert_eq!((art.requested, art.read), (20, 20));
    assert!(!art.truncated);
}

#[test]
fn an_eight_byte_field_cannot_begin_on_a_four_byte_boundary() {
    let mut bytes = Vec::new();
    bytes.extend_from_slice(&12345i32.to_le_bytes());
    bytes.extend_from_slice(&678i32.to_le_bytes());
    bytes.extend_from_slice(&3.5f32.to_le_bytes());
    bytes.extend_from_slice(&0i32.to_le_bytes());
    bytes.extend_from_slice(&42.25f64.to_le_bytes());
    let snap = memory(vec![(0x1000, bytes)]);
    let ctx = Ctx::new(&snap);
    let art = DissectPass.run(&ctx, DissectInput { start: Va(0x1000), size: 24 }).unwrap();
    let got: Vec<(u64, GuessedKind, usize)> = art.fields.iter().map(|f| (f.offset, f.kind, f.size)).collect();
    assert_eq!(
        got,
        vec![
            (0, GuessedKind::Integer, 4),
            (4, GuessedKind::Integer, 4),
            (8, GuessedKind::Float, 4),
            (12, GuessedKind::ZeroPadding, 4),
            (16, GuessedKind::Double, 8),
        ]
    );
}

#[test]
fn an_all_zero_slot_is_reported_as_padding_not_guessed() {
    let snap = memory(vec![(0x2000, vec![0u8; 8])]);
    let ctx = Ctx::new(&snap);
    let art = DissectPass.run(&ctx, DissectInput { start: Va(0x2000), size: 8 }).unwrap();
    assert_eq!(art.fields[0].kind, GuessedKind::ZeroPadding);
}

#[test]
fn only_magnitudes_between_the_bounds_are_plausible() {
    let kind = |b: Vec<u8>, at: u64| {
        let n = b.len();
        let snap = memory(vec![(at, b)]);
        let ctx = Ctx::new(&snap);
        DissectPass.run(&ctx, DissectInput { start: Va(at), size: n }).unwrap().fields[0].kind
    };
    for x in [1e-10f64, 1e10, f64::INFINITY, f64::NAN, 5e-324] {
        assert!(kind(x.to_le_bytes().to_vec(), 0x1000) != GuessedKind::Double, "{x}");
    }
    for x in [1.0000000000000002e-10f64, 9999999999.999998, -2.5] {
        assert_eq!(kind(x.to_le_bytes().to_vec(), 0x1000), GuessedKind::Double, "{x}");
    }
    for bits in [0x2edb_e6feu32, 0x5015_02f9, 0x7f80_0000, 0x7fc0_0000] {
        let x = f32::from_bits(bits);
        assert!(!(x.is_finite() && (x as f64).abs() > 1e-10 && (x as f64).abs() < 1e10));
        assert_eq!(kind(x.to_le_bytes().to_vec(), 0x1004), GuessedKind::Integer, "{x}");
    }
    for bits in [0x2edb_e6ffu32, 0x5015_02f8, 0xaedb_e6ff] {
        let x = f32::from_bits(bits);
        assert!((x as f64).abs() > 1e-10 && (x as f64).abs() < 1e10);
        assert_eq!(kind(x.to_le_bytes().to_vec(), 0x1004), GuessedKind::Float, "{x}");
    }
    assert_eq!(kind(vec![1, 2, 3], 0x1001), GuessedKind::Unknown);
    assert_eq!(kind(vec![0x04, 0x10, 0, 0], 0x1004), GuessedKind::Pointer);
}

#[test]
fn patterns_with_white_space_between_them_make_one() {
    let a = parse_aob("48 8B").unwrap();
    let b = parse_aob(" ?? 68 ").unwrap();
    let both = [a, b].concat();
    assert_eq!(parse_aob("48 8B  ?? 68 "), Ok(both.clone()));
    assert_eq!(parse_aob("48 8B\t\n ?? 68"), Ok(both));
    assert_eq!(parse_aob(""), Ok(vec![]));
    assert_eq!(parse_aob(" \t"), Ok(vec![]));
    assert_eq!(parse_aob("4 ?"), Ok(vec![AobByte::Exact(4), AobByte::Wildcard]));
}
