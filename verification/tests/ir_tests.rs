use std::collections::BTreeSet;

use n0xis_core::arch::{DecodedInsn, FrameInfo, InsnKind, RegAccess, ResolvedSwitch};
use n0xis_core::ctx::{Ctx, StatedFunction};
use n0xis_core::dot::dot;
use n0xis_core::eh::EhRegion;
use n0xis_core::ir::{
    dispatch_block_start, explain, guard_block_start, BuildFacts, CfgArtifact, CfgBlock, CfgInput, CfgPass, CfgStats,
    InsnFacts, Successor,
};
use n0xis_core::sorted::{NameSet, SortedSet};
use n0xis_core::source::{CoreError, Region, Snapshot, SourceError};
use n0xis_core::symbols::{SlotSymbol, SymKind, Symbol, SymbolSpan, SymbolTable};
use n0xis_core::va::Va;

fn facts(va: u64, len: u8, text: &str, kind: InsnKind, target: Option<u64>) -> InsnFacts {
    InsnFacts {
        insn: DecodedInsn {
            va: Va(va),
            len,
            mnemonic: text.split(' ').next().unwrap().to_string(),
            text: text.to_string(),
            kind,
            target: target.map(Va),
            rip_target: None,
            cond: None,
            stack_adjust: None,
        },
        access: RegAccess { reads: vec![], writes: vec![] },
        at_target: None,
        dispatch: None,
        guarded: None,
    }
}

fn plain(va: u64, len: u8, text: &str) -> InsnFacts {
    facts(va, len, text, InsnKind::Plain, None)
}

fn ret(va: u64) -> InsnFacts {
    facts(va, 1, "ret", InsnKind::Ret, None)
}

fn frame() -> FrameInfo {
    FrameInfo { frame_size: 0, uses_rbp: false, spilled_regs: vec![], prolog: vec![] }
}

fn code(bytes: usize) -> Snapshot {
    Snapshot { regions: vec![Region { start: Va(0x1000), bytes: vec![0x90; bytes] }], code: vec![] }
}

const BUILD: BuildFacts<'static> = BuildFacts { return_register: Some("rax"), case_confidence: 85 };

fn cfg(ctx: &Ctx, input: CfgInput, f: &[InsnFacts]) -> CfgArtifact {
    let bytes = CfgPass.code(ctx, input).expect("cfg builds");
    CfgPass.run(ctx, &BUILD, input, f, &bytes, frame())
}

fn noreturn() -> NameSet {
    let mut s: NameSet = SortedSet::new();
    s.insert("ExitProcess".to_string());
    s
}

fn symbol(va: u64, name: &str, kind: SymKind) -> Symbol {
    Symbol { va: Va(va), module: "kernel32".to_string(), name: name.to_string(), kind }
}

fn exported(va: u64, name: &str) -> SymbolTable {
    SymbolTable {
        spans: vec![SymbolSpan { symbol: symbol(va, name, SymKind::Export), covers: 1 }],
        slots: vec![],
        sizes: vec![],
    }
}

fn imported(slot: u64, name: &str) -> SymbolTable {
    SymbolTable {
        spans: vec![],
        slots: vec![SlotSymbol { slot: Va(slot), symbol: symbol(slot, name, SymKind::Import) }],
        sizes: vec![],
    }
}

fn branch() -> Vec<InsnFacts> {
    let mut inc = plain(0x1006, 3, "inc rcx");
    inc.access = RegAccess { reads: vec!["rcx".to_string()], writes: vec!["rcx".to_string()] };
    vec![
        plain(0x1000, 4, "cmp rcx, 0"),
        facts(0x1004, 2, "je 0x1009", InsnKind::CondJump, Some(0x1009)),
        inc,
        ret(0x1009),
    ]
}

#[test]
fn builds_cfg_with_branch_and_defuse() {
    let snap = code(10);
    let ctx = Ctx::new(&snap);
    let art = cfg(&ctx, CfgInput::new(Va(0x1000), 64), &branch());

    assert_eq!(art.block_count, 3, "entry / fallthrough / target blocks");
    let entry = &art.blocks[0];
    assert_eq!(entry.terminator, "cjmp");
    assert_eq!(entry.successors.len(), 2);
    assert!(entry.successors.iter().any(|s| s.kind == "cjmp-true"));
    assert!(entry.successors.iter().any(|s| s.kind == "cjmp-false"));
    assert_eq!(art.blocks.last().unwrap().terminator, "ret");
    assert_eq!(art.stats.returns, 1);
    let wrote_rcx = art.blocks.iter().flat_map(|b| &b.insns).any(|i| i.writes.iter().any(|w| w == "rcx"));
    assert!(wrote_rcx, "reg_access should surface the rcx write");
}

fn switch(at: u64, cases: &[u64]) -> ResolvedSwitch {
    ResolvedSwitch {
        at: Va(at),
        kind: "mem-indexed".to_string(),
        table: Some(Va(0x2000)),
        index_reg: Some("rax".to_string()),
        scale: 8,
        bound: Some(2),
        entry_size: 8,
        cases: cases.iter().map(|a| Va(*a)).collect(),
        resolved: true,
    }
}

#[test]
fn resolves_mem_indexed_switch_from_memory() {
    let cases = [0x1010u64, 0x1018, 0x1020];
    let mut f = vec![
        plain(0x1000, 4, "cmp rax, 2"),
        facts(0x1004, 2, "ja 0x102e", InsnKind::CondJump, Some(0x102e)),
        facts(0x1006, 7, "jmp [rax*8+0x2000]", InsnKind::Jump, None),
    ];
    f[2].dispatch = Some(switch(0x1006, &cases));
    f[2].guarded = Some(switch(0x1006, &cases));
    for va in 0x100d..0x102e {
        f.push(plain(va, 1, "nop"));
    }
    f.push(ret(0x102e));
    let snap = code(0x2f);
    let ctx = Ctx::new(&snap);
    let art = cfg(&ctx, CfgInput::new(Va(0x1000), 64), &f);

    assert_eq!(art.stats.indirect_branches, 1, "the jmp is indirect");
    assert_eq!(art.switches.len(), 1, "one switch dispatch recognized");
    let sw = &art.switches[0];
    assert_eq!(sw.kind, "mem-indexed");
    assert_eq!(sw.table, Some(Va(0x2000)));
    assert_eq!(sw.bound, Some(2));
    assert_eq!(sw.entry_size, 8);
    assert!(sw.resolved, "cases came from memory");
    assert_eq!(sw.cases, vec![Va(0x1010), Va(0x1018), Va(0x1020)]);

    let edges: Vec<Va> = art
        .blocks
        .iter()
        .flat_map(|b| &b.successors)
        .filter(|s| s.kind == "switch-case")
        .map(|s| s.to)
        .collect();
    assert_eq!(edges, vec![Va(0x1010), Va(0x1018), Va(0x1020)]);
}

fn call_then_dead() -> Vec<InsnFacts> {
    vec![
        facts(0x1000, 5, "call 0x2000", InsnKind::Call, Some(0x2000)),
        plain(0x1005, 7, "mov rax, 1"),
        ret(0x100c),
    ]
}

#[test]
fn call_to_known_noreturn_ends_the_block_with_no_successors() {
    let snap = code(13);
    let syms = exported(0x2000, "ExitProcess");
    let names = noreturn();
    let ctx = Ctx::new(&snap).with_symbols(&syms).with_noreturn_names(&names);
    let art = cfg(&ctx, CfgInput::new(Va(0x1000), 64), &call_then_dead());
    let entry = &art.blocks[0];
    assert_eq!(entry.terminator, "call-noreturn");
    assert!(entry.successors.is_empty(), "a noreturn call must not get a fall-through successor");
    assert_eq!(art.stats.noreturn_calls, 1);
}

#[test]
fn iat_call_to_known_noreturn_ends_the_block() {
    let snap = code(6);
    let syms = imported(0x3000, "ExitProcess");
    let names = noreturn();
    let ctx = Ctx::new(&snap).with_symbols(&syms).with_noreturn_names(&names);
    let mut call = facts(0x1000, 6, "call [rip+0x1ffa]", InsnKind::Call, None);
    call.insn.rip_target = Some(Va(0x3000));
    let art = cfg(&ctx, CfgInput::new(Va(0x1000), 64), &[call]);
    assert_eq!(
        art.blocks[0].terminator, "call-noreturn",
        "the rip_target/iat_slot fallback must resolve the IAT call's name"
    );
    assert_eq!(art.stats.noreturn_calls, 1);
}

#[test]
fn import_thunk_jmp_is_a_tail_call_not_an_unrecovered_indirect_branch() {
    let snap = code(6);
    let syms = imported(0x3000, "CloseHandle");
    let names = noreturn();
    let ctx = Ctx::new(&snap).with_symbols(&syms).with_noreturn_names(&names);
    let mut jmp = facts(0x1000, 6, "jmp [rip+0x1ffa]", InsnKind::Jump, None);
    jmp.insn.rip_target = Some(Va(0x3000));
    let art = cfg(&ctx, CfgInput::new(Va(0x1000), 64), &[jmp]);

    assert_eq!(art.blocks[0].terminator, "tail-call");
    assert_eq!(art.stats.tail_calls, 1);
    assert_eq!(
        art.stats.indirect_branches, 0,
        "a resolved thunk is a call, not an unrecovered indirect branch"
    );
    let site = art
        .callsites
        .iter()
        .find(|c| c.kind == "tail")
        .expect("the thunk should be recorded as a tail callsite");
    assert_eq!(site.target_name.as_deref(), Some("kernel32!CloseHandle"));
}

#[test]
fn an_unresolvable_indirect_jmp_stays_an_indirect_branch() {
    let snap = code(2);
    let ctx = Ctx::new(&snap);
    let art = cfg(&ctx, CfgInput::new(Va(0x1000), 64), &[facts(0x1000, 2, "jmp rax", InsnKind::Jump, None)]);
    assert_eq!(art.blocks[0].terminator, "ijmp");
    assert_eq!(art.stats.tail_calls, 0);
    assert_eq!(art.stats.indirect_branches, 1);
}

#[test]
fn function_end_stops_after_a_noreturn_call() {
    let f = vec![
        facts(0x1000, 5, "call 0x2000", InsnKind::Call, Some(0x2000)),
        plain(0x1005, 3, "inc rcx"),
        plain(0x1008, 3, "inc rcx"),
        ret(0x100b),
    ];
    let snap = code(12);
    let syms = exported(0x2000, "ExitProcess");
    let names = noreturn();
    let ctx = Ctx::new(&snap).with_symbols(&syms).with_noreturn_names(&names);
    let art = cfg(&ctx, CfgInput::new(Va(0x1000), 64), &f);

    assert_eq!(art.insn_count, 1, "only the call itself belongs to the function");
    assert_eq!(art.end, Va(0x1005));
    assert_eq!(art.blocks.len(), 1);
    assert_eq!(art.blocks[0].terminator, "call-noreturn");
}

#[test]
fn call_to_a_non_noreturn_named_function_does_not_end_the_block() {
    let f = vec![facts(0x1000, 5, "call 0x2000", InsnKind::Call, Some(0x2000)), ret(0x1005)];
    let snap = code(6);
    let syms = exported(0x2000, "CloseHandle");
    let names = noreturn();
    let ctx = Ctx::new(&snap).with_symbols(&syms).with_noreturn_names(&names);
    let art = cfg(&ctx, CfgInput::new(Va(0x1000), 64), &f);

    assert_eq!(art.block_count, 1, "call+ret should be a single fallthrough block");
    assert_eq!(art.blocks[0].terminator, "ret");
    assert_eq!(art.stats.noreturn_calls, 0);
}

#[test]
fn an_unwind_declared_extent_cuts_the_function_when_no_symbol_does() {
    let mut f: Vec<InsnFacts> = (0x1000..0x1020).map(|va| plain(va, 1, "nop")).collect();
    f[0x10] = ret(0x1010);
    let snap = code(0x20);
    let stated = [StatedFunction { start: Va(0x1000), end: Va(0x1008) }];
    let ctx = Ctx::new(&snap).with_stated_functions(&stated);
    let art = cfg(&ctx, CfgInput { start: Va(0x1000), max_bytes: 0x20, auto_end: true }, &f);
    assert_eq!(art.end, Va(0x1008), "the declared extent wins over the heuristic");
}

#[test]
fn a_conditional_branch_at_the_end_of_a_function_invents_no_edge() {
    let f = vec![
        plain(0x1000, 3, "test rcx, rcx"),
        facts(0x1003, 6, "jb 0x1100", InsnKind::CondJump, Some(0x1100)),
    ];
    let snap = code(9);
    let stated = [StatedFunction { start: Va(0x1000), end: Va(0x1009) }];
    let ctx = Ctx::new(&snap).with_stated_functions(&stated);
    let art = cfg(&ctx, CfgInput::new(Va(0x1000), 9), &f);

    let blocks: BTreeSet<u64> = art.blocks.iter().map(|b| b.start.0).collect();
    for b in &art.blocks {
        for s in &b.successors {
            assert!(blocks.contains(&s.to.0), "edge {:?} -> {:?} lands on no block in this graph", b.start, s.to);
        }
    }
    assert_eq!(art.stats.tail_calls, 2, "the taken branch and the fall-through both leave");
}

#[test]
fn a_landing_pad_starts_a_block_with_an_exceptional_edge() {
    let f = vec![plain(0x1000, 4, "mov rax, 1"), ret(0x1004), plain(0x1005, 3, "inc rcx"), ret(0x1008)];
    let snap = code(9);
    let eh = [EhRegion { try_start: Va(0x1000), try_end: Va(0x1005), landing_pad: Va(0x1005) }];
    let ctx = Ctx::new(&snap).with_eh(&eh);
    let art = cfg(&ctx, CfgInput { start: Va(0x1000), max_bytes: 9, auto_end: false }, &f);
    assert_eq!(art.block_count, 2);
    assert!(art.blocks[0].successors.iter().any(|s| s.kind == "eh" && s.to == Va(0x1005)));
}

#[test]
fn memory_that_is_not_there_is_an_error() {
    let snap = code(1);
    let ctx = Ctx::new(&snap);
    assert_eq!(
        CfgPass.code(&ctx, CfgInput::new(Va(0x9000), 16)).unwrap_err(),
        CoreError::Source(SourceError::Unmapped(Va(0x9000)))
    );
}

#[test]
fn a_table_is_recognized_from_its_block_and_from_its_guard() {
    let kinds = [InsnKind::Plain, InsnKind::Call, InsnKind::CondJump, InsnKind::Plain, InsnKind::Jump];
    assert_eq!(dispatch_block_start(&kinds, 4), 3);
    assert!(guard_block_start(&kinds, 4) <= 3);
}

#[test]
fn a_graph_is_explained_in_words() {
    let snap = code(10);
    let ctx = Ctx::new(&snap);
    let art = cfg(&ctx, CfgInput::new(Va(0x1000), 64), &branch());
    let lines = explain(&art);
    assert!(lines.iter().any(|l| l.contains("0x1000")));
    assert!(lines.iter().any(|l| l.contains("cjmp-true")));
}

#[test]
fn renders_branch_cfg_to_dot() {
    let snap = code(10);
    let ctx = Ctx::new(&snap);
    let art = cfg(&ctx, CfgInput::new(Va(0x1000), 64), &branch());

    let d = dot(&art);
    assert_eq!(d.block_count, 3);
    assert!(d.dot.starts_with("digraph n0xis_cfg {"));
    assert!(d.dot.trim_end().ends_with('}'));
    assert!(d.dot.contains("b0 [label="));
    assert_eq!(d.edge_count, art.blocks.iter().map(|b| b.successors.len()).sum::<usize>());
}

#[test]
fn switch_cases_appear_as_edges() {
    let cases = [0x1500u64, 0x1600, 0x1700];
    let mut f = vec![
        plain(0x1000, 4, "cmp rax, 2"),
        facts(0x1004, 7, "jmp [rax*8+0x2000]", InsnKind::Jump, None),
    ];
    f[1].dispatch = Some(switch(0x1004, &cases));
    f[1].guarded = Some(switch(0x1004, &cases));
    let snap = code(11);
    let ctx = Ctx::new(&snap);
    let art = cfg(&ctx, CfgInput::new(Va(0x1000), 64), &f);

    let d = dot(&art);
    assert_eq!(d.external_count, 3, "three switch cases as external targets");
    assert!(d.dot.contains("style=dashed"));
    assert!(d.dot.contains("switch-case"));
    for case in ["0x1500", "0x1600", "0x1700"] {
        assert!(d.dot.contains(case), "case {case} should appear as a node");
    }
    let lines = explain(&art);
    assert!(lines.iter().any(|l| l == "    case[2] -> 0x1700"));
}

#[test]
fn every_edge_that_leaves_the_blocks_is_counted() {
    let block = |id: usize, start: u64, to: &[u64]| CfgBlock {
        id,
        start: Va(start),
        end: Va(start + 0x10),
        terminator: "cjmp".to_string(),
        successors: to
            .iter()
            .map(|a| Successor { to: Va(*a), kind: "cjmp-true".to_string(), confidence: 100 })
            .collect(),
        insns: vec![],
    };
    let mut art = CfgArtifact {
        start: Va(0x1000),
        end: Va(0x1020),
        block_count: 2,
        insn_count: 0,
        blocks: vec![block(0, 0x1000, &[0x1010, 0x9000]), block(1, 0x1010, &[0x9000, 0x1000])],
        callsites: vec![],
        switches: vec![],
        frame: frame(),
        stats: CfgStats { returns: 0, calls: 0, indirect_branches: 0, tail_calls: 0, noreturn_calls: 0 },
    };
    let d = dot(&art);
    assert_eq!((d.edge_count, d.external_count), (4, 2), "two edges lead to one place outside");
    assert_eq!(d.dot.matches("ext0 [shape=oval").count(), 1);
    art.switches.push(switch(0x1014, &[0x1000, 0x9000, 0x9100]));
    let d = dot(&art);
    assert_eq!((d.edge_count, d.external_count), (4, 3), "only the last case has no edge and no block");
    assert!(d.dot.contains("b1 -> ext1 [style=dashed, label=\"switch-case\"];"));
}

#[test]
fn every_successor_is_where_a_block_starts() {
    let cases = [0x1010u64, 0x1018];
    let mut f = vec![
        plain(0x1000, 4, "cmp rax, 2"),
        facts(0x1004, 2, "ja 0x101e", InsnKind::CondJump, Some(0x101e)),
        facts(0x1006, 7, "jmp [rax*8+0x2000]", InsnKind::Jump, None),
    ];
    f[2].dispatch = Some(switch(0x1006, &cases));
    f[2].guarded = Some(switch(0x1006, &cases));
    for va in 0x100d..0x101e {
        f.push(plain(va, 1, "nop"));
    }
    f.push(ret(0x101e));
    let snap = code(0x1f);
    let ctx = Ctx::new(&snap);
    let art = cfg(&ctx, CfgInput::new(Va(0x1000), 64), &f);
    let mut kinds: Vec<&str> = Vec::new();
    for s in art.blocks.iter().flat_map(|b| &b.successors) {
        assert!(art.blocks.iter().any(|b| b.start == s.to), "{}", s.kind);
        kinds.push(&s.kind);
    }
    kinds.sort();
    kinds.dedup();
    assert_eq!(kinds, vec!["cjmp-false", "cjmp-true", "fall", "switch-case"]);
    let starts: Vec<Va> = art.blocks.iter().map(|b| b.start).collect();
    assert_eq!(starts, vec![Va(0x1000), Va(0x1006), Va(0x100d), Va(0x1010), Va(0x1018), Va(0x101e)]);
}
