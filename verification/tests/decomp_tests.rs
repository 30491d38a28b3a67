use n0xis_core::arch::FrameInfo;
use n0xis_core::ctx::Ctx;
use n0xis_core::decomp::{
    format_signature, read_c_string, recover_data_refs, recover_strings, render_goto, strip_unreferenced_block_labels,
    struct_name_of, DecompInput, DecompPass, DecompStyle, Fields, PseudoFunction, RenderedBlock, RenderedBody,
};
use n0xis_core::ir::{CfgArtifact, CfgBlock, CfgStats, Successor};
use n0xis_core::micro::{MicroExpr, MicroStmt};
use n0xis_core::pipeline::{DecompAction, DecompEvent, DecompStage, DecompState};
use n0xis_core::sorted::{NameMap, SortedMap};
use n0xis_core::source::{CoreError, Region, Snapshot};
use n0xis_core::ssa::{
    CType, LocalVar, ParamInfo, Phi, PhiInput, RecoveredSignature, RecoveredType, SsaBlock, SsaStmt, TypeArtifact,
};
use n0xis_core::symbols::{SymKind, Symbol, SymbolSpan, SymbolTable};
use n0xis_core::va::Va;

fn symbol(va: u64, covers: u64, name: &str) -> SymbolTable {
    SymbolTable {
        spans: vec![SymbolSpan {
            symbol: Symbol { va: Va(va), module: String::new(), name: name.to_string(), kind: SymKind::Data },
            covers,
        }],
        slots: vec![],
        sizes: vec![],
    }
}

fn stmt(dst: &str, v: i128) -> SsaStmt {
    SsaStmt {
        va: Va(0x1000),
        stmt: MicroStmt::Assign { dst: dst.to_string(), value: MicroExpr::Const { value: v, bits: 64 } },
    }
}

fn ssa_block(id: usize, start: u64, terminator: &str, to: &[(u64, &str)], stmts: Vec<SsaStmt>) -> SsaBlock {
    SsaBlock {
        id,
        start: Va(start),
        end: Va(start + 0x10),
        terminator: terminator.to_string(),
        successors: to
            .iter()
            .map(|(a, k)| Successor { to: Va(*a), kind: k.to_string(), confidence: 100 })
            .collect(),
        phis: vec![],
        stmts,
        condition: None,
    }
}

fn cfg_of(blocks: &[SsaBlock], insn_count: usize) -> CfgArtifact {
    CfgArtifact {
        start: blocks[0].start,
        end: blocks[blocks.len() - 1].end,
        block_count: blocks.len(),
        insn_count,
        blocks: blocks
            .iter()
            .map(|b| CfgBlock {
                id: b.id,
                start: b.start,
                end: b.end,
                terminator: b.terminator.clone(),
                successors: b.successors.clone(),
                insns: vec![],
            })
            .collect(),
        callsites: vec![],
        switches: vec![],
        frame: FrameInfo { frame_size: 0, uses_rbp: false, spilled_regs: vec![], prolog: vec![] },
        stats: CfgStats { returns: 1, calls: 0, indirect_branches: 0, tail_calls: 0, noreturn_calls: 0 },
    }
}

fn input(cfg: CfgArtifact, style: DecompStyle) -> DecompInput {
    DecompInput {
        cfg,
        style,
        explain: true,
        strip_block_labels: false,
        var_names: SortedMap::new(),
        var_types: SortedMap::new(),
        struct_defs: SortedMap::new(),
    }
}

fn types(locals: Vec<LocalVar>, params: Vec<ParamInfo>) -> TypeArtifact {
    TypeArtifact { locals, structs: vec![], signature: RecoveredSignature { params, ret: None } }
}

fn local(name: &str, offset: i64) -> LocalVar {
    LocalVar { name: name.to_string(), offset, size_bits: 64, signed: false, type_override: None }
}

fn param(reg: &str, name: Option<&str>) -> ParamInfo {
    ParamInfo {
        reg: reg.to_string(),
        name: reg.to_string(),
        ty: CType { bits: 64, signed: false, name: name.map(str::to_string) },
    }
}

fn decomp(style: DecompStyle, lines: &[&str], mut t: TypeArtifact) -> PseudoFunction {
    let mut blocks = vec![ssa_block(0, 0x1000, "ret", &[], vec![])];
    let i = input(cfg_of(&blocks, 4), style);
    let snap = Snapshot { regions: vec![], code: vec![] };
    let ctx = Ctx::new(&snap);
    let prepared = DecompPass.prepare(&ctx, &i, &mut blocks, &mut t);
    let names = DecompPass.names(&ctx, &i, &t, &[&blocks], &SortedMap::new());
    let body = RenderedBody {
        lines: lines.iter().map(|l| l.to_string()).collect(),
        has_loop: false,
        fallback_count: 0,
        delta: vec!["round".to_string()],
    };
    DecompPass.run(&i, prepared, &names, &t, body)
}

#[test]
fn recover_data_refs_names_an_exact_symbol_address_only() {
    let syms = symbol(0x4000, 0x100, "crc_table");
    let blocks = vec![ssa_block(0, 0x1000, "ret", &[], vec![stmt("a", 0x4000), stmt("b", 0x4040)])];
    let refs = recover_data_refs(&[&blocks], Some(&syms), &SortedMap::new());
    assert_eq!(refs.get(&0x4000).map(String::as_str), Some("&crc_table"));
    assert_eq!(refs.get(&0x4040), None);
}

#[test]
fn read_c_string_recovers_a_real_string_and_rejects_non_strings() {
    let mut bytes = Vec::new();
    bytes.extend_from_slice(b"hi %s\n\0");
    bytes.extend_from_slice(b"abc\x01d\0");
    bytes.extend_from_slice(b"ab\0");
    bytes.extend_from_slice(b"no terminator within this window");
    let snap = Snapshot { regions: vec![Region { start: Va(0x3000), bytes }], code: vec![] };

    assert_eq!(read_c_string(&snap, 0x3000), Some("\"hi %s\\n\"".to_string()));
    assert_eq!(read_c_string(&snap, 0x3007), None);
    assert_eq!(read_c_string(&snap, 0x300d), None);
    assert_eq!(read_c_string(&snap, 0x3010), None);
    assert_eq!(read_c_string(&snap, 0x9999), None);
}

#[test]
fn texts_are_escaped_and_found_behind_constants() {
    let snap = Snapshot {
        regions: vec![Region { start: Va(0x3000), bytes: b"a\"\\\t\r\0".to_vec() }],
        code: vec![],
    };
    let raw = vec![ssa_block(0, 0x1000, "ret", &[], vec![stmt("a", 0x3000), stmt("b", -1)])];
    let opt: Vec<SsaBlock> = vec![];
    let found = recover_strings(&[&raw, &opt], &snap);
    assert_eq!(found.get(&0x3000).map(String::as_str), Some("\"a\\\"\\\\\\t\\r\""));
    assert_eq!(found.keys.len(), 1);
}

#[test]
fn a_demangled_prototype_name_is_used_verbatim_not_wrapped() {
    let sig = RecoveredSignature { params: vec![], ret: None };
    let name = "unsigned short __cdecl SomeLib::ReadValue(struct SomeLib::SomeFile *, unsigned int, unsigned int)";
    assert_eq!(format_signature(Va(0x1940), &sig, Some(name)), name);
}

#[test]
fn a_plain_symbol_name_without_args_still_gets_the_recovered_signature() {
    let sig = RecoveredSignature { params: vec![], ret: None };
    assert_eq!(format_signature(Va(0x1000), &sig, Some("Compress")), "void Compress(void)");
}

#[test]
fn a_function_without_a_name_is_called_by_its_address() {
    let sig = RecoveredSignature {
        params: vec![param("rcx", Some("Widget *")), param("rdx", None)],
        ret: Some(CType { bits: 32, signed: true, name: None }),
    };
    assert_eq!(format_signature(Va(0x1ABC), &sig, None), "int32_t sub_1abc(Widget *rcx, uint64_t rdx)");
    assert_eq!(struct_name_of("std::exception *"), "std::exception");
}

#[test]
fn the_ssa_style_emits_a_typed_locals_declaration_block() {
    let body = ["    local_8 = rcx;", "    return (uint32_t)local_8;"];
    let t = || types(vec![local("local_10", 16), local("local_8", 8)], vec![]);
    let ssa = decomp(DecompStyle::Ssa, &body, t());
    let decl = ssa.pseudo.iter().find(|l| l.contains("local_8;") && !l.contains('='));
    assert!(decl.is_some(), "expected a typed-locals decl for local_8: {:#?}", ssa.pseudo);
    assert!(decl.unwrap().contains("local_8"), "{decl:?}");
    let joined = ssa.pseudo.join("\n");
    let decl_pos = ssa.pseudo.iter().position(|l| l.contains("local_8;") && !l.contains('=') && !l.contains("return")).unwrap();
    let use_pos = ssa.pseudo.iter().position(|l| l.contains("local_8") && l.contains('=')).unwrap();
    assert!(decl_pos < use_pos, "decl must precede use: {joined}");
    assert!(!joined.contains("local_10"), "an unused local is not declared");
    assert_eq!(ssa.pseudo[0], "void sub_1000(void) {");
    assert_eq!(ssa.pseudo[1], "    uint64_t local_8;");
    assert_eq!(ssa.pseudo[2], "");
    assert_eq!(ssa.pseudo.last().unwrap(), "}");
    let goto = decomp(DecompStyle::Goto, &body, t());
    assert!(
        !goto.pseudo.iter().any(|l| l.contains("local_8;") && !l.contains('=') && !l.contains("return")),
        "goto should not declare locals: {:#?}",
        goto.pseudo
    );
    assert_eq!(ssa.delta, vec!["round"]);
    assert!(goto.delta.is_empty());
}

#[test]
fn chosen_types_and_names_reach_the_signature_and_the_declarations() {
    let mut blocks = vec![ssa_block(0, 0x1000, "ret", &[], vec![])];
    let mut i = input(cfg_of(&blocks, 4), DecompStyle::Structured);
    i.var_types.insert("local_8".to_string(), "Point".to_string());
    i.var_types.insert("rcx".to_string(), "Widget *".to_string());
    i.var_types.insert("rdx".to_string(), "  ".to_string());
    i.var_types.insert("@return".to_string(), " float ".to_string());
    i.var_names.insert("local_8".to_string(), "origin".to_string());
    i.var_names.insert("rcx".to_string(), "this".to_string());
    let mut t = types(vec![local("local_8", 8)], vec![param("rcx", None), param("rdx", None)]);
    t.structs.push(RecoveredType { name: "s".to_string(), base_var: "rcx.0".to_string(), fields: vec![] });
    let mut fields: Fields = SortedMap::new();
    fields.insert(0x68, "count".to_string());
    i.struct_defs.insert("Widget".to_string(), fields);
    let snap = Snapshot { regions: vec![], code: vec![] };
    let mut vt: SortedMap<u64, String> = SortedMap::new();
    vt.insert(0x9000, "Widget".to_string());
    let syms = symbol(0x1000, 1, "raw");
    let ctx = Ctx::new(&snap).with_vtables(&vt).with_symbols(&syms);
    let mut rendered: NameMap<String> = SortedMap::new();
    rendered.insert("raw".to_string(), "Widget::~Widget".to_string());
    let prepared = DecompPass.prepare(&ctx, &i, &mut blocks, &mut t);
    let names = DecompPass.names(&ctx, &i, &t, &[&blocks], &rendered);
    assert_eq!(names.signature, "float Widget::~Widget(Widget *this, uint64_t rdx)");
    assert!(names.is_ctor_or_dtor);
    let bound = names.struct_fields.get(&"rcx.0".to_string()).unwrap();
    assert_eq!(bound.get(&0x68).map(String::as_str), Some("count"));
    assert_eq!(bound.get(&0).map(String::as_str), Some("vftable"));
    let body = RenderedBody { lines: vec!["    origin = 0;".to_string()], has_loop: true, fallback_count: 1, delta: vec![] };
    let out = DecompPass.run(&i, prepared, &names, &t, body);
    assert_eq!(out.pseudo[1], "    Point origin;");
    assert_eq!(out.flags, vec!["structured", "has-loop", "structured-partial"]);
    assert_eq!((out.address, out.end_address, out.instruction_count), (Va(0x1000), Va(0x1010), 4));
}

#[test]
fn labels_that_nothing_jumps_to_are_dropped() {
    let lines: Vec<String> = ["  // block_1: 0x10", "x;", "// block_2: 0x20", "goto block_2;", "// block_x: note", "if (c) goto block_12 ;"]
        .iter()
        .map(|s| s.to_string())
        .collect();
    let out = strip_unreferenced_block_labels(&lines);
    assert_eq!(out, vec!["x;", "// block_2: 0x20", "goto block_2;", "// block_x: note", "if (c) goto block_12 ;"]);
    let lines: Vec<String> = ["// block_1: 0x10", "// block_3: 0x30", "// block_33: 0x330", "if (c) goto block_1; else goto block_33;"]
        .iter()
        .map(|s| s.to_string())
        .collect();
    let out = strip_unreferenced_block_labels(&lines);
    assert_eq!(out, vec!["// block_1: 0x10", "// block_33: 0x330", "if (c) goto block_1; else goto block_33;"]);
}

#[test]
fn goto_and_structured_styles_still_produce_sound_output() {
    let blocks = vec![
        ssa_block(0, 0x1000, "cjmp", &[(0x1010, "cjmp-true"), (0x1020, "cjmp-false")], vec![]),
        ssa_block(1, 0x1010, "jmp", &[(0x1020, "jmp")], vec![]),
        ssa_block(2, 0x1020, "ret", &[], vec![]),
        ssa_block(3, 0x1030, "ijmp", &[(0x1020, "switch-case"), (0x9999, "switch-case")], vec![]),
        ssa_block(4, 0x1040, "ijmp", &[], vec![]),
    ];
    let cfg = cfg_of(&blocks, 10);
    let text = |s: &[Option<&str>], c: Option<&str>| RenderedBlock {
        stmts: s.iter().map(|t| t.map(str::to_string)).collect(),
        condition: c.map(str::to_string),
    };
    let rendered = vec![
        text(&[Some("a = 1;"), None], Some("a != 0")),
        text(&[], None),
        text(&[Some("return a;")], None),
        text(&[], None),
        text(&[], None),
    ];
    let lines = render_goto(&cfg, &blocks, &rendered);
    assert_eq!(
        lines,
        vec![
            "block_0:    // 0x1000",
            "    a = 1;",
            "    if (a != 0) goto block_1;",
            "    goto block_2;",
            "",
            "block_1:    // 0x1010",
            "    goto block_2;",
            "",
            "block_2:    // 0x1020",
            "    return a;",
            "",
            "block_3:    // 0x1030",
            "    // switch dispatch:",
            "    //   case -> goto block_2;",
            "",
            "block_4:    // 0x1040",
            "    // indirect jump (unrecovered)",
        ]
    );
    for style in [DecompStyle::Goto, DecompStyle::Structured] {
        let out = decomp(style, &["    return rcx;"], types(vec![], vec![]));
        assert!(!out.pseudo.is_empty());
        assert!(out.pseudo.iter().any(|l| l.contains("return")), "{:?}: {:#?}", style, out.pseudo);
    }
}

#[test]
fn coverage_below_four_fifths_is_low() {
    let unlifted = |n: usize| -> Vec<SsaStmt> {
        (0..n)
            .map(|_| SsaStmt { va: Va(0), stmt: MicroStmt::Unlifted { va: Va(0), text: "x".to_string() } })
            .collect()
    };
    let flags = |bad: usize, total: usize| {
        let mut blocks = vec![ssa_block(0, 0x1000, "ret", &[], unlifted(bad))];
        let mut i = input(cfg_of(&blocks, total), DecompStyle::Goto);
        i.cfg.stats.indirect_branches = 1;
        i.cfg.stats.tail_calls = 1;
        let snap = Snapshot { regions: vec![], code: vec![] };
        let ctx = Ctx::new(&snap);
        let mut t = types(vec![], vec![]);
        let p = DecompPass.prepare(&ctx, &i, &mut blocks, &mut t);
        assert_eq!(p.unlifted, bad);
        let names = DecompPass.names(&ctx, &i, &t, &[&blocks], &SortedMap::new());
        let body = RenderedBody { lines: vec![], has_loop: false, fallback_count: 0, delta: vec![] };
        DecompPass.run(&i, p, &names, &t, body).flags
    };
    assert_eq!(flags(2, 10), vec!["goto", "has-indirect", "has-tail"]);
    assert_eq!(flags(3, 10), vec!["goto", "has-indirect", "has-tail", "low-coverage"]);
    assert_eq!(flags(0, 0), vec!["goto", "has-indirect", "has-tail", "low-coverage"]);
}

fn through(style: DecompStyle, blocks: fn() -> Vec<SsaBlock>) -> (Vec<DecompAction>, Vec<usize>, PseudoFunction) {
    let snap = Snapshot { regions: vec![], code: vec![] };
    let ctx = Ctx::new(&snap);
    let none: NameMap<String> = SortedMap::new();
    let mut st: DecompState = DecompPass.begin(input(cfg_of(&blocks(), 4), style));
    let mut asked = vec![];
    let mut shown = vec![];
    loop {
        let action = DecompPass.next(&st);
        asked.push(action);
        let ev = match action {
            DecompAction::Build => DecompEvent::Built(blocks()),
            DecompAction::Optimize => DecompEvent::Optimized { blocks: blocks(), delta: vec!["round".to_string()] },
            DecompAction::Infer => DecompEvent::Inferred(types(vec![], vec![])),
            DecompAction::RenderFlat | DecompAction::Structure => {
                if let DecompStage::Ready { shown: s, .. } = &st.stage {
                    shown = s.iter().map(|b| b.stmts.len()).collect();
                }
                DecompEvent::Rendered { lines: vec!["    return;".to_string()], has_loop: false, fallback_count: 0 }
            },
            DecompAction::Stop => break,
        };
        st = DecompPass.step(&ctx, &none, st, ev);
    }
    match st.stage {
        DecompStage::Done(f) => (asked, shown, f),
        _ => panic!("not done"),
    }
}

fn joined() -> Vec<SsaBlock> {
    let mut b = vec![
        ssa_block(0, 0x1000, "jmp", &[(0x1010, "jmp")], vec![stmt("rax.1", 1)]),
        ssa_block(1, 0x1010, "ret", &[], vec![]),
    ];
    b[1].phis.push(Phi {
        var: "rax".to_string(),
        dst: "rax.2".to_string(),
        inputs: vec![
            PhiInput { from_block: 0, value: "rax.1".to_string() },
            PhiInput { from_block: 7, value: "rax.9".to_string() },
        ],
    });
    b[1].stmts.push(SsaStmt { va: Va(0x1010), stmt: MicroStmt::Return(Some(MicroExpr::Var("rax.1".to_string()))) });
    b
}

#[test]
fn the_stages_of_a_function_follow_its_style() {
    let first = [DecompAction::Build, DecompAction::Optimize, DecompAction::Infer];
    let (asked, shown, f) = through(DecompStyle::Goto, joined);
    assert_eq!(asked, [&first[..], &[DecompAction::RenderFlat, DecompAction::Stop]].concat());
    assert_eq!(shown, vec![1, 1]);
    assert_eq!((f.style, f.delta.len()), ("goto", 0));
    let (asked, shown, f) = through(DecompStyle::Structured, joined);
    assert_eq!(asked, [&first[..], &[DecompAction::Structure, DecompAction::Stop]].concat());
    assert_eq!(shown, vec![1, 1]);
    assert_eq!((f.style, f.delta.len()), ("structured", 0));
    let (asked, shown, f) = through(DecompStyle::Ssa, joined);
    assert_eq!(asked, [&first[..], &[DecompAction::Structure, DecompAction::Stop]].concat());
    assert_eq!(shown, vec![2, 1], "the join has its copy");
    assert_eq!((f.style, f.delta), ("ssa", vec!["round".to_string()]));
    assert_eq!(f.pseudo, vec!["void sub_1000(void) {", "    return;", "}"]);
}

#[test]
fn a_failure_ends_the_work_and_what_nobody_asked_for_is_left() {
    let snap = Snapshot { regions: vec![], code: vec![] };
    let ctx = Ctx::new(&snap);
    let none: NameMap<String> = SortedMap::new();
    let st = DecompPass.begin(input(cfg_of(&joined(), 4), DecompStyle::Goto));
    let st = DecompPass.step(&ctx, &none, st, DecompEvent::Inferred(types(vec![], vec![])));
    assert!(matches!(st.stage, DecompStage::Start));
    let st = DecompPass.step(&ctx, &none, st, DecompEvent::Failed(CoreError::Other("no".to_string())));
    assert_eq!(DecompPass.next(&st), DecompAction::Stop);
    let st = DecompPass.step(&ctx, &none, st, DecompEvent::Built(joined()));
    assert!(matches!(st.stage, DecompStage::Failed(CoreError::Other(m)) if m == "no"));
}

#[test]
fn a_variable_is_declared_only_under_its_whole_name() {
    let t = types(vec![local("local_8", 8), local("local_80", 0x80)], vec![]);
    let f = decomp(DecompStyle::Structured, &["    local_80 = 1;"], t);
    assert_eq!(f.pseudo[1..3], ["    uint64_t local_80;", ""]);
}
