use n0xis_core::arch::{CodeView, DecodedInsn, InsnKind};
use n0xis_core::bindings::{read_identifier_at, BindingsArtifact, BindingsInput, BindingsPass, ScoreTable};
use n0xis_core::ctx::{Ctx, StatedFunction};
use n0xis_core::discover::{
    discover_pdata, direct_call_targets, DiscoverArtifact, DiscoverFacts, DiscoverInput, DiscoverPass, EntryPatterns,
};
use n0xis_core::eh::{landing_pads, scan_eh_frame, scan_pdata, state_runs, Cur, EhRegion, IpState, DW_EH_PE_OMIT};
use n0xis_core::icalls::{read_icall_name, IcallInput, IcallPass, DEFAULT_WINDOW};
use n0xis_core::klass::{
    parse_name, self_pointer_index, ClassScanArtifact, ClassScanInput, ClassScanPass, KlassArtifact, KlassInput, KlassPass,
    FIELD_ENTRY, FIELD_OFFSET, FIELD_PARENT, VALIDATED, WEAK,
};
use n0xis_core::sorted::SortedMap;
use n0xis_core::source::{CodeRange, CoreError, Region, Snapshot, SourceError};
use n0xis_core::symbols::{SymKind, Symbol, SymbolSpan, SymbolTable};
use n0xis_core::va::Va;

fn memory(regions: Vec<(u64, Vec<u8>)>) -> Snapshot {
    Snapshot {
        regions: regions.into_iter().map(|(start, bytes)| Region { start: Va(start), bytes }).collect(),
        code: Vec::new(),
    }
}

// ---- exception tables ----

const UNW_FLAG_EHANDLER: u8 = 1;

fn put(b: &mut Vec<u8>, at: usize, v: u32) {
    b[at..at + 4].copy_from_slice(&v.to_le_bytes());
}

fn pe_image(handler_first: u32, scopes: &[(u32, u32, u32, u32)]) -> Snapshot {
    let mut b = vec![0u8; 0x400];
    put(&mut b, 0x00, 0x100);
    put(&mut b, 0x04, 0x180);
    put(&mut b, 0x08, 0x40);
    b[0x40] = 1 | (UNW_FLAG_EHANDLER << 3);
    b[0x41] = 0x08;
    b[0x42] = 2;
    b[0x43] = 0;
    put(&mut b, 0x48, 0x300);
    put(&mut b, 0x4c, handler_first);
    for (i, (sb, se, h, j)) in scopes.iter().enumerate() {
        let o = 0x50 + 16 * i;
        put(&mut b, o, *sb);
        put(&mut b, o + 4, *se);
        put(&mut b, o + 8, *h);
        put(&mut b, o + 12, *j);
    }
    let mut s = memory(vec![(0x1000, b)]);
    s.code.push(CodeRange { start: Va(0x1100), size: 0x300 });
    s
}

#[test]
fn a_pe_scope_table_becomes_protected_ranges_and_their_pads() {
    let img = pe_image(2, &[(0x110, 0x140, 0x200, 0x150), (0x150, 0x160, 0x220, 0)]);
    let fns = scan_pdata(&img, Va(0x1000), (Va(0x1000), 12));
    assert_eq!(fns.len(), 1);
    assert_eq!((fns[0].start, fns[0].end), (Va(0x1100), Va(0x1180)), "`.pdata` gives an authoritative extent");
    assert_eq!(
        fns[0].regions,
        vec![
            EhRegion { try_start: Va(0x1110), try_end: Va(0x1140), landing_pad: Va(0x1150) },
            EhRegion { try_start: Va(0x1150), try_end: Va(0x1160), landing_pad: Va(0x1220) },
        ]
    );
}

fn pe_cxx_image() -> Snapshot {
    let mut b = vec![0u8; 0x400];
    put(&mut b, 0x00, 0x200);
    put(&mut b, 0x04, 0x280);
    put(&mut b, 0x08, 0x40);
    b[0x40] = 1 | (UNW_FLAG_EHANDLER << 3);
    b[0x42] = 2;
    put(&mut b, 0x48, 0x300);
    put(&mut b, 0x4c, 0x100);
    put(&mut b, 0x100, 0x1993_0522);
    put(&mut b, 0x104, 2);
    put(&mut b, 0x108, 0);
    put(&mut b, 0x10c, 1);
    put(&mut b, 0x110, 0x140);
    put(&mut b, 0x114, 3);
    put(&mut b, 0x118, 0x180);
    put(&mut b, 0x140, 0);
    put(&mut b, 0x144, 1);
    put(&mut b, 0x148, 2);
    put(&mut b, 0x14c, 1);
    put(&mut b, 0x150, 0x160);
    put(&mut b, 0x160, 0);
    put(&mut b, 0x164, 0);
    put(&mut b, 0x168, 0);
    put(&mut b, 0x16c, 0x260);
    put(&mut b, 0x170, 0);
    put(&mut b, 0x180, 0x210);
    put(&mut b, 0x184, 0);
    put(&mut b, 0x188, 0x230);
    put(&mut b, 0x18c, 1);
    put(&mut b, 0x190, 0x250);
    put(&mut b, 0x194, u32::MAX);
    let mut s = memory(vec![(0x1000, b)]);
    s.code.push(CodeRange { start: Va(0x1200), size: 0x100 });
    s
}

#[test]
fn an_msvc_cxx_funcinfo_yields_the_try_range_and_its_catch_entry() {
    let fns = scan_pdata(&pe_cxx_image(), Va(0x1000), (Va(0x1000), 12));
    assert_eq!(fns.len(), 1);
    assert_eq!(
        fns[0].regions,
        vec![EhRegion { try_start: Va(0x1210), try_end: Va(0x1250), landing_pad: Va(0x1260) }],
        "the protected bytes come from the IP-to-state map, not from the try block itself"
    );
}

#[test]
fn handler_data_that_is_not_a_scope_table_yields_nothing() {
    let img = pe_image(0x1993_0520, &[]);
    assert!(scan_pdata(&img, Va(0x1000), (Va(0x1000), 12))[0].regions.is_empty());

    let img = pe_image(2, &[(0x110, 0x140, 0x200, 0x150), (0x150, 0x160, 0x220, 0xdead)]);
    assert!(scan_pdata(&img, Va(0x1000), (Va(0x1000), 12))[0].regions.is_empty());

    let img = pe_image(9999, &[]);
    assert!(scan_pdata(&img, Va(0x1000), (Va(0x1000), 12))[0].regions.is_empty());
}

fn uleb(v: u64) -> Vec<u8> {
    let (mut v, mut out) = (v, Vec::new());
    loop {
        let b = (v & 0x7f) as u8;
        v >>= 7;
        if v == 0 {
            out.push(b);
            return out;
        }
        out.push(b | 0x80);
    }
}

fn fixture() -> (Snapshot, u64) {
    const BASE: u64 = 0x1000;
    const FUNC: u64 = 0x4000;
    let mut b: Vec<u8> = Vec::new();

    let mut cie = Vec::new();
    cie.extend_from_slice(&0u32.to_le_bytes());
    cie.push(1);
    cie.extend_from_slice(b"zLR\0");
    cie.extend(uleb(1));
    cie.push(0x78);
    cie.push(16);
    let aug = vec![0x00u8, 0x00u8];
    cie.extend(uleb(aug.len() as u64));
    cie.extend_from_slice(&aug);
    while cie.len() % 8 != 0 {
        cie.push(0);
    }
    b.extend_from_slice(&(cie.len() as u32).to_le_bytes());
    b.extend_from_slice(&cie);

    let fde_off = b.len();
    let lsda_addr = 0x8000u64;
    let mut fde = Vec::new();
    fde.extend_from_slice(&((fde_off + 4) as u32).to_le_bytes());
    fde.extend_from_slice(&FUNC.to_le_bytes());
    fde.extend_from_slice(&0x100u64.to_le_bytes());
    let aug = lsda_addr.to_le_bytes();
    fde.extend(uleb(aug.len() as u64));
    fde.extend_from_slice(&aug);
    while fde.len() % 8 != 0 {
        fde.push(0);
    }
    b.extend_from_slice(&(fde.len() as u32).to_le_bytes());
    b.extend_from_slice(&fde);
    b.extend_from_slice(&0u32.to_le_bytes());
    let eh_len = b.len() as u64;

    b.resize((lsda_addr - BASE) as usize, 0);
    let mut cs = Vec::new();
    cs.extend(uleb(0x10));
    cs.extend(uleb(0x20));
    cs.extend(uleb(0xd0));
    cs.extend(uleb(0));
    cs.extend(uleb(0x40));
    cs.extend(uleb(0x10));
    cs.extend(uleb(0));
    cs.extend(uleb(0));
    let mut lsda = Vec::new();
    lsda.push(DW_EH_PE_OMIT);
    lsda.push(DW_EH_PE_OMIT);
    lsda.push(0x01);
    lsda.extend(uleb(cs.len() as u64));
    lsda.extend_from_slice(&cs);
    b.extend_from_slice(&lsda);

    (memory(vec![(BASE, b)]), eh_len)
}

#[test]
fn recovers_the_landing_pad_and_skips_the_entry_without_one() {
    let (mem, eh_len) = fixture();
    let fns = scan_eh_frame(&mem, (Va(0x1000), eh_len));
    assert_eq!(fns.len(), 1, "one FDE, one function: {fns:?}");
    let f = &fns[0];
    assert_eq!(f.start, Va(0x4000));
    assert_eq!(f.end, Va(0x4100), "pc_range is an authoritative extent");
    assert_eq!(
        f.regions,
        vec![EhRegion { try_start: Va(0x4010), try_end: Va(0x4030), landing_pad: Va(0x40d0) }],
        "the cs_lp == 0 entry is not an edge to address zero"
    );
    assert_eq!(landing_pads(&fns).into_iter().collect::<Vec<_>>(), vec![0x40d0]);
}

#[test]
fn frames_come_out_by_address() {
    let mut b: Vec<u8> = Vec::new();
    let mut cie = 0u32.to_le_bytes().to_vec();
    cie.push(1);
    cie.push(0);
    cie.extend(uleb(1));
    cie.push(0x78);
    cie.push(16);
    b.extend_from_slice(&(cie.len() as u32).to_le_bytes());
    b.extend_from_slice(&cie);
    for (start, len) in [(0x9000u64, 0x10u64), (0x4000, 0x20)] {
        let mut fde = ((b.len() + 4) as u32).to_le_bytes().to_vec();
        fde.extend_from_slice(&start.to_le_bytes());
        fde.extend_from_slice(&len.to_le_bytes());
        b.extend_from_slice(&(fde.len() as u32).to_le_bytes());
        b.extend_from_slice(&fde);
    }
    let n = b.len() as u64;
    let fns = scan_eh_frame(&memory(vec![(0x1000, b)]), (Va(0x1000), n));
    let got: Vec<(Va, Va)> = fns.iter().map(|f| (f.start, f.end)).collect();
    assert_eq!(got, vec![(Va(0x4000), Va(0x4020)), (Va(0x9000), Va(0x9010))]);
    assert!(landing_pads(&fns).is_empty());
}

#[test]
fn a_truncated_section_yields_what_it_can() {
    let (mem, eh_len) = fixture();
    for cut in [1u64, 4, 7, 12, 20, eh_len / 2] {
        let _ = scan_eh_frame(&mem, (Va(0x1000), cut));
    }
    assert!(scan_eh_frame(&mem, (Va(0x1000), 0)).is_empty());
}

#[test]
fn an_unmodeled_encoding_is_refused_not_guessed() {
    let mut c = Cur::new(&[0x11, 0x22, 0x33, 0x44]);
    assert_eq!(c.encoded(0x30 | 0x03, 0x1000), None, "datarel is not modeled");
    let mut c = Cur::new(&[0x11, 0x22, 0x33, 0x44]);
    assert_eq!(c.encoded(0x10 | 0x0b, 0x1000), Some(0x1000 + 0x4433_2211));
    let mut c = Cur::new(&[0x11, 0x22, 0x33, 0x44]);
    assert_eq!(c.encoded(0x80 | 0x10 | 0x0b, 0x1000), None, "an indirect pointer is not modeled");
}

#[test]
fn the_shortest_encoding_of_a_number_reads_back() {
    let shortest = |mut v: u64| {
        let mut b = vec![0xaa];
        while v >= 128 {
            b.push((v % 128) as u8 | 0x80);
            v /= 128;
        }
        b.push(v as u8);
        b.push(0xff);
        b
    };
    for v in [0, 1, 127, 128, 300, 624_485, u32::MAX as u64, u64::MAX] {
        let b = shortest(v);
        let mut c = Cur::new(&b);
        assert_eq!(c.u8(), Some(0xaa));
        assert_eq!(c.uleb(), Some(v));
        assert_eq!(c.u8(), Some(0xff));
    }
}

#[test]
fn adjacent_states_of_a_try_block_make_one_run() {
    let at = |ip: u64, state: i32| IpState { ip, state };
    let runs = state_runs(&vec![at(0x10, 0), at(0x20, 1), at(0x30, -1), at(0x40, 1), at(0x50, 5)], 0, 1);
    let got: Vec<(u64, u64)> = runs.iter().map(|r| (r.start, r.end)).collect();
    assert_eq!(got, vec![(0x10, 0x30), (0x40, 0x50)]);
}

// ---- names of internal calls, and bindings ----

fn plain(va: u64, len: u8, mnemonic: &str) -> DecodedInsn {
    DecodedInsn {
        va: Va(va),
        len,
        mnemonic: mnemonic.to_string(),
        text: mnemonic.to_string(),
        kind: InsnKind::Plain,
        target: None,
        rip_target: None,
        cond: None,
        stack_adjust: None,
    }
}

fn rip(va: u64, text: &str, target: u64) -> DecodedInsn {
    let mut i = plain(va, 7, text.split(' ').next().unwrap());
    i.text = text.to_string();
    i.rip_target = Some(Va(target));
    i
}

fn call(va: u64, target: u64) -> DecodedInsn {
    let mut i = plain(va, 5, "call");
    i.kind = InsnKind::Call;
    i.target = Some(Va(target));
    i
}

fn ret(va: u64) -> DecodedInsn {
    let mut i = plain(va, 1, "ret");
    i.kind = InsnKind::Ret;
    i
}

const ICALL: &[u8] = b"UnityEngine.Transform::get_position_Injected\0";

fn icall_data() -> Vec<u8> {
    let mut data = vec![0u8; 0x100];
    data[7..7 + ICALL.len()].copy_from_slice(ICALL);
    data
}

fn icall_input(code_size: usize) -> IcallInput {
    IcallInput {
        data_start: Va(0x2000),
        data_size: 0x100,
        code_start: Va(0x1000),
        code_size,
        slot_start: Va(0x3000),
        slot_size: 8,
        window: DEFAULT_WINDOW,
        limit: 0,
    }
}

#[test]
fn the_measured_shape_yields_a_name_a_resolver_and_a_slot() {
    let code = vec![
        0x48, 0x8D, 0x0D, 0x00, 0x10, 0x00, 0x00, 0xE8, 0xF4, 0x00, 0x00, 0x00, 0x48, 0x85, 0xC0, 0x48, 0x89, 0x05, 0xEA,
        0x1F, 0x00, 0x00, 0xC3,
    ];
    let snap = memory(vec![(0x1000, code), (0x2000, icall_data()), (0x3000, vec![0u8; 8])]);
    let ctx = Ctx::new(&snap);
    let insns = vec![
        rip(0x1000, "lea rcx, [rip+0x1000]", 0x2007),
        call(0x1007, 0x1100),
        plain(0x100c, 3, "test"),
        rip(0x100f, "mov [rip+0x1fea], rax", 0x3000),
        ret(0x1016),
    ];
    let art = IcallPass.run(&ctx, &insns, icall_input(0x40)).unwrap();
    assert_eq!(art.count, 1, "{art:?}");
    let c = &art.icalls[0];
    assert_eq!(c.name, "UnityEngine.Transform::get_position_Injected");
    assert_eq!(c.name_addr, Va(0x2007));
    assert_eq!(c.slot, Some(Va(0x3000)), "the cache slot is the address a live read turns into a function pointer");
    assert_eq!(c.resolver, Some(Va(0x1100)));
    assert_eq!(art.with_slot, 1);
    assert_eq!(art.resolvers[0].sites, 1);
    assert_eq!(
        IcallPass.run(&ctx, &insns, IcallInput { data_start: Va(0x9000), ..icall_input(0x40) }).unwrap_err(),
        CoreError::Source(SourceError::Unmapped(Va(0x9000)))
    );
}

#[test]
fn a_plain_identifier_is_not_an_icall_name() {
    let mut data = vec![0u8; 0x100];
    data[7..7 + 12].copy_from_slice(b"just_a_name\0");
    assert!(read_icall_name(&data, 7).is_none());
    assert!(read_icall_name(b"A::b\0", 0).is_none(), "too short to be a real registration name");
    let long = b"UnityEngine.Object::Internal_CloneSingle\0";
    assert_eq!(read_icall_name(long, 0).as_deref(), Some("UnityEngine.Object::Internal_CloneSingle"));
}

#[test]
fn a_name_with_no_caching_store_is_reported_as_slotless_not_dropped() {
    let code = vec![0x48, 0x8D, 0x0D, 0x00, 0x10, 0x00, 0x00, 0xC3];
    let snap = memory(vec![(0x1000, code), (0x2000, icall_data())]);
    let ctx = Ctx::new(&snap);
    let insns = vec![rip(0x1000, "lea rcx, [rip+0x1000]", 0x2007), ret(0x1007)];
    let art = IcallPass.run(&ctx, &insns, icall_input(0x20)).unwrap();
    assert_eq!(art.count, 1);
    assert_eq!(art.icalls[0].slot, None);
    assert_eq!(art.with_slot, 0, "the count that matters is stated separately, so a slotless result cannot look like a usable one");
}

fn score(distance: usize, window: usize, call_nearby: bool) -> f32 {
    let proximity = 1.0 - (distance as f32 / (window as f32 + 1.0)).min(1.0);
    (0.5 * proximity + if call_nearby { 0.4 } else { 0.0 } + 0.1).min(1.0)
}

fn bind(snap: &Snapshot, insns: &Vec<DecodedInsn>, input: BindingsInput) -> BindingsArtifact {
    let table = ScoreTable {
        with_call: (0..=input.window).map(|d| score(d, input.window, true).to_bits()).collect(),
        without_call: (0..=input.window).map(|d| score(d, input.window, false).to_bits()).collect(),
    };
    BindingsPass.run(&Ctx::new(snap), insns, &table, input).unwrap()
}

#[test]
fn pairs_a_name_with_its_nearby_function_pointer() {
    let data = b"next_random\0".to_vec();
    let snap = memory(vec![(0x1000, vec![0u8; 0x1000]), (0x4000, data)]);
    let insns = vec![
        rip(0x1000, "lea rdx, [rip+0xf9]", 0x1100),
        rip(0x1007, "lea rcx, [rip+0x2ff2]", 0x4000),
        call(0x100e, 0x1000),
        ret(0x1013),
    ];
    let input = BindingsInput {
        data_start: Va(0x4000),
        data_size: 64,
        code_start: Va(0x1000),
        code_size: 0x1000,
        names: Vec::new(),
        window: 8,
        limit: 50,
    };
    let art = bind(&snap, &insns, input);
    assert_eq!(art.count, 1, "should find exactly one binding: {art:?}");
    let b = &art.bindings[0];
    assert_eq!(b.name, "next_random");
    assert_eq!(b.name_addr, Va(0x4000));
    assert_eq!(b.cfunc, Va(0x1100));
    assert!(b.call_nearby, "the call to the registrar sits just after the two loads");
    assert!(f32::from_bits(b.confidence) > 0.5);
    assert_eq!(b.distance_insns, 0, "the loads are adjacent");
}

#[test]
fn names_beyond_the_limit_are_still_counted() {
    let data = b"first\0second\0".to_vec();
    let snap = memory(vec![(0x1000, vec![0u8; 0x1000]), (0x4000, data)]);
    let insns = vec![
        rip(0x1000, "lea rdx, [rip+0xf9]", 0x1100),
        rip(0x1007, "lea rcx, [rip+0x2ff2]", 0x4000),
        rip(0x100e, "lea rdx, [rip+0x1eb]", 0x1200),
        rip(0x1015, "lea rcx, [rip+0x2fea]", 0x4006),
        ret(0x101c),
    ];
    let input = BindingsInput {
        data_start: Va(0x4000),
        data_size: 64,
        code_start: Va(0x1000),
        code_size: 0x1000,
        names: Vec::new(),
        window: 8,
        limit: 1,
    };
    let art = bind(&snap, &insns, input);
    assert_eq!((art.count, art.bindings.len(), art.named), (1, 1, 2));
}

#[test]
fn a_name_with_no_nearby_code_pointer_is_not_reported() {
    let data = b"orphan\0".to_vec();
    let snap = memory(vec![(0x1000, vec![0x90; 0x100]), (0x4000, data)]);
    let insns = vec![rip(0x1000, "lea rcx, [rip+0x2ff9]", 0x4000), ret(0x1007)];
    let input = BindingsInput {
        data_start: Va(0x4000),
        data_size: 32,
        code_start: Va(0x1000),
        code_size: 0x100,
        names: vec!["orphan".to_string()],
        window: 8,
        limit: 50,
    };
    assert_eq!(bind(&snap, &insns, input).count, 0);
    assert_eq!(read_identifier_at(b"orphan\0", 0, 2, 64).as_deref(), Some("orphan"));
    assert_eq!(read_identifier_at(b"9lives\0", 0, 2, 64), None);
    assert_eq!(read_identifier_at(b"orphan", 0, 2, 64), None, "nothing ends the name");
    assert_eq!(read_identifier_at(b"orphan\n", 0, 2, 64).as_deref(), Some("orphan"));
}

// ---- managed classes ----

fn field(buf: &mut [u8], i: usize, name_va: u64, parent: u64, off: i32) {
    let b = i * FIELD_ENTRY;
    buf[b..b + 8].copy_from_slice(&name_va.to_le_bytes());
    buf[b + FIELD_PARENT..b + FIELD_PARENT + 8].copy_from_slice(&parent.to_le_bytes());
    buf[b + FIELD_OFFSET..b + FIELD_OFFSET + 4].copy_from_slice(&off.to_le_bytes());
}

fn runtime() -> Snapshot {
    let mut obj = vec![0u8; 0x40];
    obj[0..8].copy_from_slice(&0x2000u64.to_le_bytes());
    obj[0x18..0x20].copy_from_slice(&99u64.to_le_bytes());

    let mut klass = vec![0u8; 0x100];
    klass[0x10..0x18].copy_from_slice(&0x3000u64.to_le_bytes());
    klass[0x18..0x20].copy_from_slice(&0x3020u64.to_le_bytes());
    klass[0x30..0x38].copy_from_slice(&0x4000u64.to_le_bytes());

    let mut strs = vec![0u8; 0x60];
    strs[0..12].copy_from_slice(b"PlayerHealth");
    strs[0x20..0x25].copy_from_slice(b"Game\0");

    let mut fields = vec![0u8; 3 * FIELD_ENTRY];
    field(&mut fields, 0, 0x5000, 0x2000, 0x18);
    field(&mut fields, 1, 0x5010, 0x2000, 0x20);
    field(&mut fields, 2, 0x5020, 0xDEAD, 0x28);

    let mut fnames = vec![0u8; 0x40];
    fnames[0..11].copy_from_slice(b"currentHp\0\0");
    fnames[0x10..0x18].copy_from_slice(b"maxHp\0\0\0");
    fnames[0x20..0x28].copy_from_slice(b"ghost\0\0\0");

    memory(vec![(0x1000, obj), (0x2000, klass), (0x3000, strs), (0x4000, fields), (0x5000, fnames)])
}

fn run(addr: Va, read_values: usize) -> Result<KlassArtifact, CoreError> {
    let snap = runtime();
    let ctx = Ctx::new(&snap);
    KlassPass.run(&ctx, KlassInput { addr, read_values, probe: 0 })
}

#[test]
fn an_object_address_yields_its_class_and_field_names() {
    let art = run(Va(0x1000), 0x40).unwrap();
    assert_eq!(art.object, Some(Va(0x1000)), "a scan hands you an object, and that is the default reading");
    assert_eq!(art.klass, Va(0x2000));
    assert_eq!(art.name, "PlayerHealth");
    assert_eq!(art.namespace, "Game");
    assert_eq!(art.fields.len(), 2);
    assert_eq!(art.fields[0].name, "currentHp");
    assert_eq!(art.fields[0].offset, 0x18);
    assert_eq!(art.fields[0].value.as_deref(), Some("0x0000000000000063"), "the field's live bytes, read at the offset the runtime states");
}

#[test]
fn the_discovered_layout_is_reported_as_evidence_not_assumed() {
    let art = run(Va(0x1000), 0).unwrap();
    assert_eq!(art.layout.name_offset, 0x10);
    assert_eq!(art.layout.fields_offset, Some(0x30));
    assert_eq!(art.layout.fields_validated, 2);
    assert_eq!(art.confidence, VALIDATED, "the back-reference held, so the result is evidence rather than a shape match");
}

#[test]
fn the_field_walk_stops_at_the_first_broken_back_reference() {
    let art = run(Va(0x1000), 0).unwrap();
    assert!(!art.fields.iter().any(|f| f.name == "ghost"), "a field whose parent is not this class is not this class's field: {art:?}");
}

#[test]
fn a_class_address_is_accepted_directly_and_says_so() {
    let art = run(Va(0x2000), 0).unwrap();
    assert_eq!(art.object, None, "'this address is an object of type X' and 'this address is X' are different facts");
    assert_eq!(art.klass, Va(0x2000));
    assert_eq!(art.name, "PlayerHealth");
}

#[test]
fn a_structure_that_only_matches_the_name_shape_is_marked_weak() {
    let mut b = vec![0u8; 0x40];
    b[0..8].copy_from_slice(&0x9000u64.to_le_bytes());
    b[8..16].copy_from_slice(&0x9010u64.to_le_bytes());
    let mut n = vec![0u8; 0x40];
    n[0..12].copy_from_slice(b"mscorlib.dll");
    n[0x10..0x18].copy_from_slice(b"mscorlib");
    let image = memory(vec![(0x8000, b), (0x9000, n)]);
    let ctx = Ctx::new(&image);
    let art = KlassPass.run(&ctx, KlassInput { addr: Va(0x8000), read_values: 0, probe: 0 }).unwrap();
    assert_eq!(art.confidence, WEAK, "a name pair with no back-referencing field array is not proof of a class");
    assert_eq!(art.layout.fields_validated, 0);
}

#[test]
fn a_pointer_to_itself_alone_is_no_proof_of_a_class() {
    let mut b = vec![0u8; 0x100];
    b[0x10..0x18].copy_from_slice(&0x9000u64.to_le_bytes());
    b[0x18..0x20].copy_from_slice(&0x9010u64.to_le_bytes());
    b[0x78..0x80].copy_from_slice(&0x8000u64.to_le_bytes());
    let mut n = vec![0u8; 0x40];
    n[0..6].copy_from_slice(b"Widget");
    n[0x10..0x14].copy_from_slice(b"Game");
    let image = memory(vec![(0x8000, b), (0x9000, n)]);
    let ctx = Ctx::new(&image);
    let art = KlassPass.run(&ctx, KlassInput { addr: Va(0x8000), read_values: 0, probe: 0 }).unwrap();
    assert_eq!(art.name, "Widget");
    assert_eq!(art.layout.self_pointer_offset, Some(0x78));
    assert_eq!((art.field_count, art.layout.fields_validated), (0, 0));
    assert_eq!(art.confidence, WEAK);
}

#[test]
fn a_class_address_is_not_mistaken_for_an_object_because_its_image_has_a_name_pair() {
    let mut klass = vec![0u8; 0x100];
    klass[0x00..0x08].copy_from_slice(&0x108000u64.to_le_bytes());
    klass[0x10..0x18].copy_from_slice(&0x103000u64.to_le_bytes());
    klass[0x18..0x20].copy_from_slice(&0x103020u64.to_le_bytes());
    klass[0x30..0x38].copy_from_slice(&0x104000u64.to_le_bytes());

    let mut strs = vec![0u8; 0x60];
    strs[0..15].copy_from_slice(b"PassiveItem_Key");
    strs[0x20] = 0;

    let mut fields = vec![0u8; 2 * FIELD_ENTRY];
    field(&mut fields, 0, 0x105000, 0x102000, 0x18);
    fields[FIELD_ENTRY + FIELD_PARENT..FIELD_ENTRY + FIELD_PARENT + 8].copy_from_slice(&0xDEADu64.to_le_bytes());

    let mut fnames = vec![0u8; 0x20];
    fnames[0..7].copy_from_slice(b"chargeS");

    let mut image = vec![0u8; 0x40];
    image[0..8].copy_from_slice(&0x109000u64.to_le_bytes());
    image[8..16].copy_from_slice(&0x109010u64.to_le_bytes());
    let mut inames = vec![0u8; 0x40];
    inames[0..12].copy_from_slice(b"mscorlib.dll");
    inames[0x10..0x18].copy_from_slice(b"mscorlib");

    let snap = memory(vec![
        (0x102000, klass),
        (0x103000, strs),
        (0x104000, fields),
        (0x105000, fnames),
        (0x108000, image),
        (0x109000, inames),
    ]);
    let ctx = Ctx::new(&snap);
    let art = KlassPass.run(&ctx, KlassInput { addr: Va(0x102000), read_values: 0, probe: 0 }).unwrap();

    assert_eq!(art.name, "PassiveItem_Key", "the validated reading must win over the plausible one: {art:?}");
    assert_eq!(art.object, None, "this address is the class, not an object of it");
    assert_eq!(art.confidence, VALIDATED);
}

#[test]
fn an_address_that_is_neither_is_refused_with_the_reason() {
    let err = run(Va(0x5000), 0).unwrap_err();
    let msg = match err {
        CoreError::Other(m) => m,
        CoreError::Source(e) => panic!("{e:?}"),
    };
    assert!(msg.contains("neither a managed object nor an Il2CppClass"), "{msg}");
    assert!(msg.contains("live IL2CPP process"), "the refusal should say what would work: {msg}");
}

fn heap() -> Snapshot {
    let mut heap = vec![0u8; 0x80];
    for (i, va) in [0x102000u64, 0x108000, 0x102000, 0x108000, 0x102000, 0x108000].iter().enumerate() {
        heap[i * 8..i * 8 + 8].copy_from_slice(&va.to_le_bytes());
    }

    let mut klass = vec![0u8; 0x100];
    klass[0x10..0x18].copy_from_slice(&0x103000u64.to_le_bytes());
    klass[0x18..0x20].copy_from_slice(&0x103020u64.to_le_bytes());
    klass[0x30..0x38].copy_from_slice(&0x104000u64.to_le_bytes());

    let mut strs = vec![0u8; 0x60];
    strs[0..12].copy_from_slice(b"PlayerHealth");
    strs[0x20..0x24].copy_from_slice(b"Game");

    let mut fields = vec![0u8; 2 * FIELD_ENTRY];
    field(&mut fields, 0, 0x105000, 0x102000, 0x18);
    fields[FIELD_ENTRY + FIELD_PARENT..FIELD_ENTRY + FIELD_PARENT + 8].copy_from_slice(&0xDEADu64.to_le_bytes());

    let mut fnames = vec![0u8; 0x20];
    fnames[0..9].copy_from_slice(b"currentHp");

    let mut image = vec![0u8; 0x40];
    image[0..8].copy_from_slice(&0x109000u64.to_le_bytes());
    image[8..16].copy_from_slice(&0x109010u64.to_le_bytes());
    let mut inames = vec![0u8; 0x40];
    inames[0..12].copy_from_slice(b"mscorlib.dll");
    inames[0x10..0x18].copy_from_slice(b"mscorlib");

    memory(vec![
        (0x101000, heap),
        (0x102000, klass),
        (0x103000, strs),
        (0x104000, fields),
        (0x105000, fnames),
        (0x108000, image),
        (0x109000, inames),
    ])
}

fn scan(min_hits: usize) -> ClassScanArtifact {
    let snap = heap();
    let ctx = Ctx::new(&snap);
    ClassScanPass
        .run(
            &ctx,
            ClassScanInput {
                windows: vec![(Va(0x101000), 0x80)],
                probe: 0,
                max_probe: 0,
                limit: 0,
                min_hits,
                require_self_pointer: false,
            },
        )
        .unwrap()
}

#[test]
fn repeated_object_headers_surface_their_class() {
    let art = scan(0);
    assert_eq!(art.count, 1, "{art:?}");
    assert_eq!(art.classes[0].name, "PlayerHealth");
    assert_eq!(art.classes[0].namespace, "Game");
    assert_eq!(art.classes[0].field_count, 1);
    assert_eq!(art.classes[0].hits, 3, "seen once per referencing object");
}

#[test]
fn an_image_shaped_decoy_is_counted_and_dropped_not_reported() {
    let art = scan(0);
    assert!(!art.classes.iter().any(|c| c.name.contains("mscorlib")), "{art:?}");
    assert_eq!(art.weak_rejected, 1);
    assert_eq!(art.probed, 2, "both candidates were probed; the denominator is reported honestly");
}

#[test]
fn a_one_off_pointer_is_not_a_candidate() {
    let art = scan(4);
    assert_eq!(art.count, 0, "min_hits raised above the real repeat count filters it out, as asked");
    assert_eq!(art.probed, 0);
}

#[test]
fn names_and_self_pointers_are_read_from_slots() {
    assert_eq!(parse_name(b"Game\0rest").as_deref(), Some("Game"));
    assert_eq!(parse_name(b"no end"), None);
    assert_eq!(self_pointer_index(&vec![1, 0x2000, 0x2000], Va(0x2000)), Some(1));
    assert_eq!(self_pointer_index(&vec![1], Va(0x2000)), None);
}

// ---- finding functions ----

fn synthetic_pe(magic: u16, dir: Option<(u32, u32)>, stray: Option<(u32, u32)>, table: &[(u32, u32, u32)]) -> Vec<u8> {
    const E_LFANEW: usize = 0x80;
    let mut img = vec![0u8; 0x400];
    img[..2].copy_from_slice(b"MZ");
    img[0x3c..0x40].copy_from_slice(&(E_LFANEW as u32).to_le_bytes());
    img[E_LFANEW..E_LFANEW + 4].copy_from_slice(b"PE\0\0");
    let opt = E_LFANEW + 24;
    img[opt..opt + 2].copy_from_slice(&magic.to_le_bytes());
    let (mine, theirs) = if magic == 0x10b { (96, 112) } else { (112, 96) };
    for (off, val) in [(opt + mine + 3 * 8, dir), (opt + theirs + 3 * 8, stray)] {
        if let Some((rva, size)) = val {
            img[off..off + 4].copy_from_slice(&rva.to_le_bytes());
            img[off + 4..off + 8].copy_from_slice(&size.to_le_bytes());
        }
    }
    for (i, (begin, end, unwind)) in table.iter().enumerate() {
        let at = 0x200 + i * 12;
        img[at..at + 4].copy_from_slice(&begin.to_le_bytes());
        img[at + 4..at + 8].copy_from_slice(&end.to_le_bytes());
        img[at + 8..at + 12].copy_from_slice(&unwind.to_le_bytes());
    }
    img
}

#[test]
fn a_32_bit_image_is_not_read_at_the_64_bit_directory_offset() {
    let img = synthetic_pe(0x10b, None, Some((0x200, 24)), &[(0x1000, 0x1010, 0x3000), (0x1020, 0x1030, 0x3000)]);
    let snap = memory(vec![(0x400000, img)]);
    let err = discover_pdata(&snap, Va(0x400000)).expect_err("a PE32 has no x64 unwind table to discover from");
    let msg = match err {
        CoreError::Other(m) => m,
        CoreError::Source(e) => panic!("{e:?}"),
    };
    assert!(
        msg.contains("PE32"),
        "the refusal must say which flavour it is, so the caller knows it asked the wrong question: {msg}"
    );
}

#[test]
fn a_64_bit_image_is_still_read_at_its_own_directory_offset() {
    let img = synthetic_pe(0x20b, Some((0x200, 24)), None, &[(0x1000, 0x1010, 0x3000), (0x1020, 0x1030, 0x3000)]);
    let snap = memory(vec![(0x140000000, img)]);
    let out = discover_pdata(&snap, Va(0x140000000)).expect("a PE32+ exception directory is readable");
    assert_eq!(out.iter().map(|f| f.va).collect::<Vec<_>>(), vec![Va(0x140001000), Va(0x140001020)]);
    assert_eq!(out[0].end, Some(Va(0x140001010)), "the table's extent is a fact, not a heuristic");
}

#[test]
fn a_runtime_function_that_ends_before_it_begins_is_not_a_function() {
    let img = synthetic_pe(
        0x20b,
        Some((0x200, 36)),
        None,
        &[(0x1000, 0x1010, 0x3000), (0x2000, 0x1000, 0x3000), (0x1020, 0x1030, 0x3000)],
    );
    let snap = memory(vec![(0x140000000, img)]);
    let out = discover_pdata(&snap, Va(0x140000000)).expect("readable");
    assert_eq!(out.iter().map(|f| f.va).collect::<Vec<_>>(), vec![Va(0x140001000), Va(0x140001020)]);
}

/// Decodes the few instructions that the code of these tests is made of.
fn decode(code: &[u8], off: usize, base: u64) -> Option<DecodedInsn> {
    let va = base + off as u64;
    let c = &code[off..];
    let starts = |p: &[u8]| c.starts_with(p);
    if starts(&[0x55]) {
        Some(plain(va, 1, "push"))
    } else if starts(&[0x48, 0x8B, 0xEC]) || starts(&[0x48, 0x8B, 0x07]) {
        Some(plain(va, 3, "mov"))
    } else if starts(&[0x48, 0x8B, 0x47, 0x08]) {
        Some(plain(va, 4, "mov"))
    } else if starts(&[0x48, 0x83, 0xEC, 0x20]) {
        Some(plain(va, 4, "sub"))
    } else if starts(&[0xF3, 0x0F, 0x1E, 0xFA]) {
        Some(plain(va, 4, "endbr64"))
    } else if starts(&[0xC3]) {
        Some(ret(va))
    } else if starts(&[0x90]) {
        Some(plain(va, 1, "nop"))
    } else if starts(&[0xCC]) {
        let mut i = plain(va, 1, "int3");
        i.kind = InsnKind::Int;
        Some(i)
    } else if starts(&[0x00, 0x00]) {
        Some(plain(va, 2, "add"))
    } else if c.len() >= 5 && c[0] == 0xE8 {
        let rel = i32::from_le_bytes([c[1], c[2], c[3], c[4]]);
        Some(call(va, (va as i64 + 5 + rel as i64) as u64))
    } else {
        None
    }
}

fn facts(code: &[u8], base: u64) -> DiscoverFacts {
    let mut insns: SortedMap<u64, DecodedInsn> = SortedMap::new();
    for off in 0..code.len() {
        if let Some(i) = decode(code, off, base) {
            insns.insert(base + off as u64, i);
        }
    }
    let mut sweep = Vec::new();
    let mut off = 0usize;
    while off < code.len() {
        match decode(code, off, base) {
            Some(i) => {
                off += i.len as usize;
                sweep.push(i);
            }
            None => off += 1,
        }
    }
    DiscoverFacts {
        view: CodeView { insns, sweep },
        patterns: EntryPatterns {
            prologues: vec![vec![0x55, 0x48, 0x8B, 0xEC], vec![0x48, 0x83, 0xEC], vec![0xF3, 0x0F, 0x1E, 0xFA]],
            markers: vec![vec![0xF3, 0x0F, 0x1E, 0xFA]],
            align: 16,
        },
        rendered: SortedMap::new(),
    }
}

fn discover(code: Vec<u8>, stated: &[(u64, u64)], size: usize, limit: usize, offset: usize) -> DiscoverArtifact {
    let f = facts(&code, 0x1000);
    let snap = memory(vec![(0x1000, code)]);
    let st: Vec<StatedFunction> = stated.iter().map(|(a, b)| StatedFunction { start: Va(*a), end: Va(*b) }).collect();
    let mut ctx = Ctx::new(&snap);
    if !st.is_empty() {
        ctx = ctx.with_stated_functions(&st);
    }
    DiscoverPass.run(&ctx, &f, DiscoverInput { start: Va(0x1000), size, limit, offset }).unwrap()
}

fn starts(art: &DiscoverArtifact) -> Vec<Va> {
    art.functions.iter().map(|f| f.va).collect()
}

fn two_prologues() -> Vec<u8> {
    let mut code = vec![0x55, 0x48, 0x8B, 0xEC];
    code.resize(0x10, 0x90);
    code.extend_from_slice(&[0x48, 0x83, 0xEC, 0x20, 0xC3]);
    code
}

#[test]
fn finds_prologues_in_a_code_blob() {
    let art = discover(two_prologues(), &[], 64, 100, 0);
    assert_eq!(art.count, 2);
    assert!(!art.truncated);
    assert_eq!(art.functions[0].va, Va(0x1000));
    assert_eq!(art.functions[0].name, "sub_1000");
    assert_eq!(art.functions[1].va, Va(0x1010));
}

#[test]
fn the_first_instruction_after_a_declared_end_is_the_next_function() {
    let mut code = vec![0x48, 0x8B, 0x07, 0xC3];
    code.resize(0x10, 0xCC);
    code.extend_from_slice(&[0x48, 0x8B, 0x47, 0x08, 0xC3]);
    let art = discover(code, &[(0x1000, 0x1004)], 0x15, 100, 0);
    assert_eq!(starts(&art), vec![Va(0x1000), Va(0x1010)]);
}

#[test]
fn a_gap_of_zero_fill_holds_no_functions() {
    let mut code = vec![0x48, 0x8B, 0x07, 0xC3];
    code.resize(0x40, 0x00);
    let art = discover(code, &[(0x1000, 0x1004), (0x1030, 0x1034)], 0x40, 100, 0);
    assert_eq!(starts(&art), vec![Va(0x1000), Va(0x1030)], "only the two the table declares");
}

#[test]
fn a_gap_that_is_only_padding_produces_no_candidate() {
    let mut code = vec![0x48, 0x8B, 0x07, 0xC3];
    code.resize(0x20, 0xCC);
    let art = discover(code, &[(0x1000, 0x1004)], 0x20, 100, 0);
    assert_eq!(starts(&art), vec![Va(0x1000)]);
}

#[test]
fn a_function_with_no_prologue_is_still_found_by_the_call_that_reaches_it() {
    let mut code = vec![0x55, 0x48, 0x8B, 0xEC, 0xE8, 0x17, 0x00, 0x00, 0x00, 0xC3];
    code.resize(0x20, 0x90);
    code.extend_from_slice(&[0x48, 0x8B, 0x07, 0xC3]);
    let f = facts(&code, 0x1000);
    assert!(direct_call_targets(&f.view.sweep).contains(&0x1020));
    let art = discover(code, &[], 0x24, 100, 0);
    assert_eq!(starts(&art), vec![Va(0x1000), Va(0x1020)]);
}

#[test]
fn a_call_into_a_declared_function_does_not_split_it_in_two() {
    let mut code = vec![0x55, 0x48, 0x8B, 0xEC, 0xE8, 0x17, 0x00, 0x00, 0x00, 0xC3];
    code.resize(0x20, 0x90);
    code.extend_from_slice(&[0x48, 0x8B, 0x07, 0xC3]);
    let art = discover(code, &[(0x1000, 0x1024)], 0x24, 100, 0);
    assert_eq!(starts(&art), vec![Va(0x1000)]);
}

#[test]
fn an_unaligned_prologue_match_is_not_a_candidate() {
    let mut code = vec![0x55, 0x48, 0x8B, 0xEC];
    code.resize(0x18, 0x90);
    code.extend_from_slice(&[0x48, 0x83, 0xEC, 0x20, 0xC3]);
    let art = discover(code, &[], 64, 100, 0);
    assert_eq!(starts(&art), vec![Va(0x1000)]);
}

#[test]
fn a_prologue_inside_a_declared_function_is_not_a_second_function() {
    let mut code = vec![0x55, 0x48, 0x8B, 0xEC];
    code.resize(0x20, 0x90);
    code.extend_from_slice(&[0x48, 0x83, 0xEC, 0x20]);
    code.resize(0x40, 0x90);
    let art = discover(code.clone(), &[(0x1000, 0x1030)], 64, 100, 0);
    assert_eq!(starts(&art), vec![Va(0x1000)]);

    let art = discover(code, &[], 64, 100, 0);
    assert_eq!(starts(&art), vec![Va(0x1000), Va(0x1020)]);
}

#[test]
fn a_declared_function_holds_what_lies_behind_another_inside_it() {
    let mut code = vec![0x55, 0x48, 0x8B, 0xEC];
    code.resize(0x20, 0x90);
    code.extend_from_slice(&[0x48, 0x83, 0xEC, 0x20]);
    code.resize(0x40, 0x90);
    let art = discover(code, &[(0x1000, 0x1040), (0x1008, 0x1010)], 64, 100, 0);
    assert_eq!(starts(&art), vec![Va(0x1000), Va(0x1008)]);
}

#[test]
fn an_entry_marker_survives_inside_a_declared_extent() {
    let mut code = vec![0xF3, 0x0F, 0x1E, 0xFA];
    code.resize(0x20, 0x90);
    code.extend_from_slice(&[0xF3, 0x0F, 0x1E, 0xFA]);
    code.resize(0x30, 0x90);
    code.extend_from_slice(&[0x48, 0x83, 0xEC, 0x20]);
    code.resize(0x40, 0x90);
    let art = discover(code, &[(0x1000, 0x1040)], 64, 100, 0);
    assert_eq!(starts(&art), vec![Va(0x1000), Va(0x1020)], "the marker is kept, the stack-adjust idiom is not");
}

#[test]
fn a_stated_start_is_a_fact_and_needs_no_prologue() {
    let art = discover(vec![0x90; 0x40], &[(0x1023, 0x1030)], 64, 100, 0);
    assert_eq!(art.functions.len(), 1);
    assert_eq!(art.functions[0].va, Va(0x1023));
    assert_eq!(art.functions[0].end, Some(Va(0x1030)), "a declared extent is carried through");
}

#[test]
fn a_symbol_on_a_function_start_names_the_candidate() {
    let code = two_prologues();
    let f = facts(&code, 0x1000);
    let snap = memory(vec![(0x1000, code)]);
    let syms = SymbolTable {
        spans: vec![SymbolSpan {
            symbol: Symbol {
                va: Va(0x1000),
                module: String::new(),
                name: "PlayerHealth$$ApplyDamage".to_string(),
                kind: SymKind::Function,
            },
            covers: 0x20,
        }],
        slots: vec![],
        sizes: vec![],
    };
    let ctx = Ctx::new(&snap).with_symbols(&syms);
    let art = DiscoverPass.run(&ctx, &f, DiscoverInput { start: Va(0x1000), size: 64, limit: 100, offset: 0 }).unwrap();
    assert!(art.functions[0].name.contains("PlayerHealth"), "a named function start must carry its name, got {}", art.functions[0].name);
    assert_eq!(art.functions[1].name, "sub_1010", "a function with no symbol keeps the address placeholder");
}

fn three_prologues() -> Vec<u8> {
    let mut code = two_prologues();
    code.resize(0x20, 0x90);
    code.extend_from_slice(&[0x48, 0x83, 0xEC, 0x20, 0xC3]);
    code
}

#[test]
fn limit_caps_the_result_and_says_so() {
    let art = discover(three_prologues(), &[], 64, 2, 0);
    assert_eq!(art.count, 2, "capped");
    assert!(art.truncated, "a capped scan must admit that more exist");
    assert_eq!(art.functions[0].va, Va(0x1000));
    assert_eq!(art.functions[1].va, Va(0x1010));
}

#[test]
fn offset_pages_from_the_start_of_the_range() {
    let page2 = discover(three_prologues(), &[], 64, 2, 2);
    assert_eq!(page2.count, 1);
    assert_eq!(page2.functions[0].va, Va(0x1020));
    assert!(!page2.truncated, "the range ended; nothing was withheld");
}
