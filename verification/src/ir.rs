//! Control-flow graphs: where a function ends, where its blocks begin, which
//! edges join them, and which instruction each register read goes back to.

use vstd::prelude::*;
use vstd::string::StringExecFns;

use crate::arch::{DecodedInsn, FrameInfo, InsnKind, RegAccess, ResolvedSwitch};
use crate::ctx::{Ctx, StatedFunction};
use crate::eh::EhRegion;
use crate::source::CoreError;
use crate::symbols::{callee_name, callee_text, Symbol, SymbolTable};
use crate::text::{
    chars_of, dec, decimal, hex, hexadecimal, join, join_texts, last_index, rfind_text, same, string_of,
};
use crate::va::Va;

verus! {

/// An edge out of a block.
#[derive(Clone, Debug, PartialEq, Eq)]
pub struct Successor {
    pub to: Va,
    pub kind: String,
    /// How far the edge is to be trusted, in hundredths.
    pub confidence: u32,
}

/// A read of `reg` linked to the instruction of the block that last defined it.
#[derive(Clone, Debug, PartialEq, Eq)]
pub struct DefUse {
    pub reg: String,
    pub def_index: usize,
    pub def_addr: Va,
}

/// One instruction of a block.
#[derive(Clone, Debug, PartialEq, Eq)]
pub struct IrInsn {
    pub va: Va,
    pub len: u8,
    pub mnemonic: String,
    pub text: String,
    pub flow: InsnKind,
    pub target: Option<Va>,
    pub target_name: Option<String>,
    pub reads: Vec<String>,
    pub writes: Vec<String>,
    pub def_use: Vec<DefUse>,
    pub cond: Option<String>,
    pub stack_adjust: Option<u16>,
}

/// A basic block.
#[derive(Clone, Debug, PartialEq, Eq)]
pub struct CfgBlock {
    pub id: usize,
    pub start: Va,
    pub end: Va,
    /// How the block leaves: `fall`, `jmp`, `cjmp`, `ijmp`, `ret`, `int`,
    /// `tail-call` or `call-noreturn`.
    pub terminator: String,
    pub successors: Vec<Successor>,
    pub insns: Vec<IrInsn>,
}

/// A call or a tail call.
#[derive(Clone, Debug, PartialEq, Eq)]
pub struct Callsite {
    pub from: Va,
    pub kind: String,
    pub target: Option<Va>,
    pub target_name: Option<String>,
    /// The memory slot that the call goes through, where it goes through one.
    pub via_slot: Option<Va>,
}

#[derive(Clone, Copy, Debug, PartialEq, Eq, Structural)]
pub struct CfgStats {
    pub returns: usize,
    pub calls: usize,
    pub indirect_branches: usize,
    pub tail_calls: usize,
    /// Calls that never come back, each of which ends its block.
    pub noreturn_calls: usize,
}

/// A function's control-flow graph.
#[derive(Clone, Debug, PartialEq, Eq)]
pub struct CfgArtifact {
    pub start: Va,
    pub end: Va,
    pub block_count: usize,
    pub insn_count: usize,
    pub blocks: Vec<CfgBlock>,
    pub callsites: Vec<Callsite>,
    pub switches: Vec<ResolvedSwitch>,
    pub frame: FrameInfo,
    pub stats: CfgStats,
}

// ---------------------------------------------------------------------------
// What a graph is, by its texts
// ---------------------------------------------------------------------------

/// An edge out of a block, by its texts.
pub ghost struct Edge {
    pub to: Va,
    pub kind: Seq<char>,
    pub confidence: u32,
}

pub open spec fn edges_of(s: Seq<Successor>) -> Seq<Edge> {
    s.map_values(|e: Successor| Edge { to: e.to, kind: e.kind@, confidence: e.confidence })
}

/// The texts of a list.
pub open spec fn text_list(v: Seq<String>) -> Seq<Seq<char>> {
    v.map_values(|s: String| s@)
}

/// The text of an optional string.
pub open spec fn opt_text(o: Option<String>) -> Option<Seq<char>> {
    match o {
        Some(s) => Some(s@),
        None => None,
    }
}

pub ghost struct DefUseNode {
    pub reg: Seq<char>,
    pub def_index: int,
    pub def_addr: Va,
}

pub open spec fn def_use_node(d: DefUse) -> DefUseNode {
    DefUseNode { reg: d.reg@, def_index: d.def_index as int, def_addr: d.def_addr }
}

/// An instruction of a block, by its texts.
pub ghost struct InsnNode {
    pub va: Va,
    pub len: u8,
    pub mnemonic: Seq<char>,
    pub text: Seq<char>,
    pub flow: InsnKind,
    pub target: Option<Va>,
    pub target_name: Option<Seq<char>>,
    pub reads: Seq<Seq<char>>,
    pub writes: Seq<Seq<char>>,
    pub def_use: Seq<DefUseNode>,
    pub cond: Option<Seq<char>>,
    pub stack_adjust: Option<u16>,
}

pub open spec fn insn_node(i: IrInsn) -> InsnNode {
    InsnNode {
        va: i.va,
        len: i.len,
        mnemonic: i.mnemonic@,
        text: i.text@,
        flow: i.flow,
        target: i.target,
        target_name: opt_text(i.target_name),
        reads: text_list(i.reads@),
        writes: text_list(i.writes@),
        def_use: i.def_use@.map_values(|d: DefUse| def_use_node(d)),
        cond: opt_text(i.cond),
        stack_adjust: i.stack_adjust,
    }
}

/// A block, by its texts.
pub ghost struct BlockNode {
    pub id: int,
    pub start: Va,
    pub end: Va,
    pub terminator: Seq<char>,
    pub successors: Seq<Edge>,
    pub insns: Seq<InsnNode>,
}

pub open spec fn block_node(b: CfgBlock) -> BlockNode {
    BlockNode {
        id: b.id as int,
        start: b.start,
        end: b.end,
        terminator: b.terminator@,
        successors: edges_of(b.successors@),
        insns: b.insns@.map_values(|i: IrInsn| insn_node(i)),
    }
}

pub open spec fn block_nodes(s: Seq<CfgBlock>) -> Seq<BlockNode> {
    s.map_values(|b: CfgBlock| block_node(b))
}

/// A call site, by its texts.
pub ghost struct CallNode {
    pub from: Va,
    pub kind: Seq<char>,
    pub target: Option<Va>,
    pub target_name: Option<Seq<char>>,
    pub via_slot: Option<Va>,
}

pub open spec fn call_node(c: Callsite) -> CallNode {
    CallNode {
        from: c.from,
        kind: c.kind@,
        target: c.target,
        target_name: opt_text(c.target_name),
        via_slot: c.via_slot,
    }
}

pub open spec fn call_nodes(s: Seq<Callsite>) -> Seq<CallNode> {
    s.map_values(|c: Callsite| call_node(c))
}

/// A switch, by its contents.
pub ghost struct SwitchNode {
    pub at: Va,
    pub kind: Seq<char>,
    pub table: Option<Va>,
    pub index_reg: Option<Seq<char>>,
    pub scale: u32,
    pub bound: Option<u64>,
    pub entry_size: u32,
    pub cases: Seq<Va>,
    pub resolved: bool,
}

pub open spec fn switch_node(s: ResolvedSwitch) -> SwitchNode {
    SwitchNode {
        at: s.at,
        kind: s.kind@,
        table: s.table,
        index_reg: opt_text(s.index_reg),
        scale: s.scale,
        bound: s.bound,
        entry_size: s.entry_size,
        cases: s.cases@,
        resolved: s.resolved,
    }
}

pub open spec fn switch_nodes(s: Seq<ResolvedSwitch>) -> Seq<SwitchNode> {
    s.map_values(|x: ResolvedSwitch| switch_node(x))
}

// ---------------------------------------------------------------------------
// What is known of each instruction
// ---------------------------------------------------------------------------

/// A decoded instruction and what the decoder and memory say about it.
pub struct InsnFacts {
    pub insn: DecodedInsn,
    pub access: RegAccess,
    /// The instruction that stands at the direct target, where one decodes.
    pub at_target: Option<DecodedInsn>,
    /// The jump table that the instruction dispatches through, as it is
    /// recognized from the block that starts at `dispatch_block_start`.
    pub dispatch: Option<ResolvedSwitch>,
    /// The same as it is recognized from the block that starts at
    /// `guard_block_start`.
    pub guarded: Option<ResolvedSwitch>,
}

/// What building a graph takes beside the instructions.
pub struct BuildFacts<'a> {
    /// The register that a callee leaves its result in.
    pub return_register: Option<&'a str>,
    /// How far a resolved switch case is to be trusted, in hundredths.
    pub case_confidence: u32,
}

/// The kinds after which control does not simply go on.
pub open spec fn ends_flow(k: InsnKind) -> bool {
    k == InsnKind::CondJump || k == InsnKind::Jump || k == InsnKind::Ret || k == InsnKind::Int
}

fn is_flow_end(k: InsnKind) -> (r: bool)
    ensures
        r == ends_flow(k),
{
    match k {
        InsnKind::CondJump | InsnKind::Jump | InsnKind::Ret | InsnKind::Int => true,
        _ => false,
    }
}

/// The import that a stub forwards to: an indirect jump through a slot.
pub open spec fn stub_import(t: SymbolTable, x: DecodedInsn) -> Option<Symbol> {
    if x.kind != InsnKind::Jump || x.target is Some {
        None
    } else {
        match x.rip_target {
            Some(s) => t.slot(s),
            None => None,
        }
    }
}

/// The import that a stub forwards to.
pub fn thunk_import<'t>(t: &'t SymbolTable, x: &DecodedInsn) -> (r: Option<&'t Symbol>)
    ensures
        match (r, stub_import(*t, *x)) {
            (Some(a), Some(b)) => *a == b,
            (None, None) => true,
            _ => false,
        },
{
    if x.kind != InsnKind::Jump || x.target.is_some() {
        return None;
    }
    match x.rip_target {
        Some(s) => t.iat_slot(s),
        None => None,
    }
}

/// The symbol on the entry of a function: the one exactly there, or the import
/// behind a stub, of which `at` is the first instruction.
pub open spec fn entry_symbol(symbols: Option<&SymbolTable>, va: Va, at: Option<DecodedInsn>) -> Option<Symbol> {
    match symbols {
        None => None,
        Some(t) => match t.at(va) {
            Some(s) => if s.va == va {
                Some(s)
            } else {
                match at {
                    Some(x) => stub_import(*t, x),
                    None => None,
                }
            },
            None => match at {
                Some(x) => stub_import(*t, x),
                None => None,
            },
        },
    }
}

/// The symbol on the entry of a function.
pub fn symbol_on_entry<'t>(symbols: Option<&'t SymbolTable>, va: Va, at: Option<&DecodedInsn>) -> (r: Option<&'t Symbol>)
    ensures
        match (
            r,
            entry_symbol(
                symbols,
                va,
                match at {
                    Some(x) => Some(*x),
                    None => None,
                },
            ),
        ) {
            (Some(a), Some(b)) => *a == b,
            (None, None) => true,
            _ => false,
        },
{
    let t = match symbols {
        Some(t) => t,
        None => {
            return None;
        },
    };
    match t.symbol_at(va) {
        Some(s) => {
            if s.va.0 == va.0 {
                return Some(s);
            }
        },
        None => {},
    }
    match at {
        Some(x) => thunk_import(t, x),
        None => None,
    }
}

/// Whom a branch or call goes to: the symbol at a direct target, that of the
/// slot that it goes through, or the import behind a stub at the target.
pub open spec fn target_symbol(t: SymbolTable, x: InsnFacts) -> Option<Symbol> {
    let direct = match x.insn.target {
        Some(v) => t.at(v),
        None => None,
    };
    let slot = match x.insn.rip_target {
        Some(v) => t.slot(v),
        None => None,
    };
    let stub = match (x.insn.target, x.at_target) {
        (Some(_), Some(y)) => stub_import(t, y),
        _ => None,
    };
    if direct is Some {
        direct
    } else if slot is Some {
        slot
    } else {
        stub
    }
}

/// The name of whom a branch or call goes to.
pub open spec fn target_name_of(ctx: Ctx, x: InsnFacts) -> Option<Seq<char>> {
    match ctx.symbols {
        Some(t) => match target_symbol(*t, x) {
            Some(s) => Some(callee_text(s)),
            None => None,
        },
        None => None,
    }
}

/// The name of whom a branch or call goes to.
pub fn resolved_target_name(ctx: &Ctx, x: &InsnFacts) -> (r: Option<String>)
    ensures
        opt_text(r) == target_name_of(*ctx, *x),
{
    let t = match ctx.symbols {
        Some(t) => t,
        None => {
            return None;
        },
    };
    match x.insn.target {
        Some(v) => match t.symbol_at(v) {
            Some(s) => {
                return Some(callee_name(s));
            },
            None => {},
        },
        None => {},
    }
    match x.insn.rip_target {
        Some(v) => match t.iat_slot(v) {
            Some(s) => {
                return Some(callee_name(s));
            },
            None => {},
        },
        None => {},
    }
    match (&x.insn.target, &x.at_target) {
        (Some(_), Some(y)) => match thunk_import(t, y) {
            Some(s) => Some(callee_name(s)),
            None => None,
        },
        _ => None,
    }
}

/// A name without its module.
pub open spec fn bare_name(n: Seq<char>) -> Seq<char> {
    match last_index(n, "!"@) {
        Some(k) => n.skip(k + 1),
        None => n,
    }
}

/// A name without its module.
pub fn bare(n: &str) -> (r: String)
    ensures
        r@ == bare_name(n@),
{
    let v = chars_of(n);
    let bang = chars_of("!");
    proof {
        reveal_strlit("!");
        assert(bang@.len() == 1);
    }
    let n: usize = v.len();
    match rfind_text(&v, &bang) {
        Some(k) => {
            assert(v@.subrange(k + 1, v@.len() as int) =~= v@.skip(k + 1));
            string_of(&v, k + 1, n)
        },
        None => {
            assert(v@.subrange(0, v@.len() as int) =~= v@);
            string_of(&v, 0, n)
        },
    }
}

/// A call that never comes back: to a function known by name not to return, or
/// to an entry proven not to.
pub open spec fn never_returns(ctx: Ctx, x: InsnFacts) -> bool {
    &&& x.insn.kind == InsnKind::Call
    &&& {
        ||| (target_name_of(ctx, x) matches Some(n) && ctx.noreturn_names matches Some(s) && s.set().contains(
            bare_name(n),
        ))
        ||| (x.insn.target matches Some(t) && ctx.noreturn matches Some(s) && s.set().contains(t.0))
    }
}

/// Is this a call that never comes back?
pub fn is_noreturn_call(ctx: &Ctx, x: &InsnFacts) -> (r: bool)
    requires
        ctx.wf(),
    ensures
        r == never_returns(*ctx, *x),
{
    if x.insn.kind != InsnKind::Call {
        return false;
    }
    let by_name = match (resolved_target_name(ctx, x), ctx.noreturn_names) {
        (Some(n), Some(s)) => s.contains(&bare(n.as_str())),
        _ => false,
    };
    let by_addr = match (x.insn.target, ctx.noreturn) {
        (Some(t), Some(s)) => s.contains(&t.0),
        _ => false,
    };
    by_name || by_addr
}

/// The slot that a call or branch goes through, where it has no direct target.
pub open spec fn slot_of(x: DecodedInsn) -> Option<Va> {
    match x.target {
        Some(_) => None,
        None => x.rip_target,
    }
}

fn memory_slot(x: &DecodedInsn) -> (r: Option<Va>)
    ensures
        r == slot_of(*x),
{
    match x.target {
        Some(_) => None,
        None => x.rip_target,
    }
}

// ---------------------------------------------------------------------------
// Where blocks begin and end
// ---------------------------------------------------------------------------

/// The address after instruction `i`.
pub open spec fn after(f: Seq<InsnFacts>, i: int) -> int {
    f[i].insn.va.0 + f[i].insn.len
}

/// Instructions in address order, none of them at the very end of the address
/// space.
pub open spec fn linear(f: Seq<InsnFacts>) -> bool {
    &&& forall|i: int, j: int|
        0 <= i < j < f.len() ==> (#[trigger] f[i]).insn.va.0 < (#[trigger] f[j]).insn.va.0
    &&& forall|i: int| 0 <= i < f.len() ==> #[trigger] after(f, i) <= u64::MAX
}

/// An instruction stands at the address.
pub open spec fn valid_at(f: Seq<InsnFacts>, a: int) -> bool {
    exists|i: int| 0 <= i < f.len() && (#[trigger] f[i]).insn.va.0 == a
}

/// The end of the last instruction.
pub open spec fn end_of(f: Seq<InsnFacts>, start: Va) -> int {
    if f.len() == 0 {
        start.0 as int
    } else {
        after(f, f.len() - 1)
    }
}

/// One of the switch cases is the address.
pub open spec fn has_case(s: ResolvedSwitch, a: int) -> bool {
    exists|k: int| 0 <= k < s.cases@.len() && (#[trigger] s.cases@[k]).0 == a
}

/// Instruction `i` makes a block begin at the address `a`.
pub open spec fn starts_block_at(f: Seq<InsnFacts>, i: int, a: int) -> bool {
    let x = f[i].insn;
    ||| ends_flow(x.kind) && (after(f, i) == a || (x.target matches Some(t) && t.0 == a))
    ||| x.kind == InsnKind::Jump && x.target is None && (f[i].dispatch matches Some(s) && has_case(s, a))
}

/// A block begins at instruction `j`: at the first one, after one that ends the
/// flow, at a branch target, at a switch case, or at a landing pad, which the
/// unwinder enters without any branch.
pub open spec fn leads(f: Seq<InsnFacts>, eh: Seq<EhRegion>, j: int) -> bool {
    ||| j == 0
    ||| exists|i: int| 0 <= i < f.len() && #[trigger] starts_block_at(f, i, f[j].insn.va.0 as int)
    ||| exists|r: int| 0 <= r < eh.len() && (#[trigger] eh[r]).landing_pad == f[j].insn.va
}

/// Control does not go on from instruction `i` within its block.
pub open spec fn closes_block(ctx: Ctx, f: Seq<InsnFacts>, i: int) -> bool {
    ends_flow(f[i].insn.kind) || never_returns(ctx, f[i])
}

/// The end of the block that instruction `s` belongs to.
pub open spec fn block_end(ctx: Ctx, f: Seq<InsnFacts>, eh: Seq<EhRegion>, s: int) -> int
    decreases f.len() - s,
{
    if s + 1 >= f.len() || closes_block(ctx, f, s) || leads(f, eh, s + 1) {
        s + 1
    } else {
        block_end(ctx, f, eh, s + 1)
    }
}

/// How many blocks begin before instruction `s`, counted by their leaders.
pub open spec fn leaders_before(f: Seq<InsnFacts>, eh: Seq<EhRegion>, s: nat) -> nat
    decreases s,
{
    if s == 0 {
        0
    } else {
        leaders_before(f, eh, (s - 1) as nat) + if leads(f, eh, s - 1) {
            1nat
        } else {
            0nat
        }
    }
}

fn find_va(f: &[InsnFacts], a: u64) -> (r: Option<usize>)
    ensures
        match r {
            Some(i) => i < f@.len() && f@[i as int].insn.va.0 == a,
            None => !valid_at(f@, a as int),
        },
{
    let mut i: usize = 0;
    while i < f.len()
        invariant
            i <= f@.len(),
            forall|j: int| 0 <= j < i ==> (#[trigger] f@[j]).insn.va.0 != a,
        decreases f@.len() - i,
    {
        if f[i].insn.va.0 == a {
            return Some(i);
        }
        i = i + 1;
    }
    None
}

/// Marks the instruction at the address, if one stands there.
fn mark(f: &[InsnFacts], lead: &mut Vec<bool>, a: u64)
    requires
        old(lead)@.len() == f@.len(),
        linear(f@),
    ensures
        final(lead)@.len() == f@.len(),
        forall|j: int|
            0 <= j < f@.len() ==> (#[trigger] final(lead)@[j] <==> old(lead)@[j] || f@[j].insn.va.0 == a),
{
    match find_va(f, a) {
        Some(i) => {
            lead[i] = true;
        },
        None => {
            proof {
                assert forall|j: int| 0 <= j < f@.len() implies (#[trigger] lead@[j] <==> old(lead)@[j] || f@[j].insn.va.0
                    == a) by {}
            }
        },
    }
}

/// Which instructions begin blocks.
fn compute_leaders(f: &[InsnFacts], eh: &[EhRegion]) -> (lead: Vec<bool>)
    requires
        linear(f@),
    ensures
        lead@.len() == f@.len(),
        forall|j: int| 0 <= j < f@.len() ==> (#[trigger] lead@[j] <==> leads(f@, eh@, j)),
{
    let n: usize = f.len();
    let mut lead: Vec<bool> = vec![false; n];
    if n > 0 {
        lead[0] = true;
    }
    let mut i: usize = 0;
    while i < n
        invariant
            i <= n,
            n == f@.len(),
            linear(f@),
            lead@.len() == n,
            forall|j: int|
                0 <= j < n ==> (#[trigger] lead@[j] <==> j == 0 || exists|k: int|
                    0 <= k < i && #[trigger] starts_block_at(f@, k, f@[j].insn.va.0 as int)),
        decreases n - i,
    {
        let x = &f[i];
        let ghost lead0 = lead@;
        assert(after(f@, i as int) <= u64::MAX);
        if is_flow_end(x.insn.kind) {
            mark(f, &mut lead, x.insn.va.0 + x.insn.len as u64);
            match x.insn.target {
                Some(t) => {
                    mark(f, &mut lead, t.0);
                },
                None => {},
            }
        }
        let ghost lead1 = lead@;
        if x.insn.kind == InsnKind::Jump && x.insn.target.is_none() {
            match &x.dispatch {
                Some(s) => {
                    let mut c: usize = 0;
                    while c < s.cases.len()
                        invariant
                            c <= s.cases@.len(),
                            n == f@.len(),
                            linear(f@),
                            lead@.len() == n,
                            lead1.len() == n,
                            forall|j: int|
                                0 <= j < n ==> (#[trigger] lead@[j] <==> lead1[j] || exists|k: int|
                                    0 <= k < c && (#[trigger] s.cases@[k]).0 == f@[j].insn.va.0),
                        decreases s.cases@.len() - c,
                    {
                        let ghost lead2 = lead@;
                        mark(f, &mut lead, s.cases[c].0);
                        proof {
                            assert forall|j: int| 0 <= j < n implies (#[trigger] lead@[j] <==> lead1[j] || exists|k: int|
                                0 <= k < c + 1 && (#[trigger] s.cases@[k]).0 == f@[j].insn.va.0) by {
                                assert(lead2[j] <==> lead1[j] || exists|k: int|
                                    0 <= k < c && (#[trigger] s.cases@[k]).0 == f@[j].insn.va.0);
                            }
                        }
                        c = c + 1;
                    }
                },
                None => {},
            }
        }
        proof {
            assert forall|j: int| 0 <= j < n implies (#[trigger] lead@[j] <==> j == 0 || exists|k: int|
                0 <= k < i + 1 && #[trigger] starts_block_at(f@, k, f@[j].insn.va.0 as int)) by {
                let a = f@[j].insn.va.0 as int;
                assert(lead0[j] <==> j == 0 || exists|k: int|
                    0 <= k < i && #[trigger] starts_block_at(f@, k, a));
                assert(lead@[j] <==> lead0[j] || starts_block_at(f@, i as int, a));
            }
        }
        i = i + 1;
    }
    let ghost flow = lead@;
    let mut r: usize = 0;
    while r < eh.len()
        invariant
            r <= eh@.len(),
            n == f@.len(),
            linear(f@),
            lead@.len() == n,
            flow.len() == n,
            forall|j: int|
                0 <= j < n ==> (#[trigger] lead@[j] <==> flow[j] || exists|k: int|
                    0 <= k < r && (#[trigger] eh@[k]).landing_pad == f@[j].insn.va),
        decreases eh@.len() - r,
    {
        let ghost lead0 = lead@;
        mark(f, &mut lead, eh[r].landing_pad.0);
        proof {
            assert forall|j: int| 0 <= j < n implies (#[trigger] lead@[j] <==> flow[j] || exists|k: int|
                0 <= k < r + 1 && (#[trigger] eh@[k]).landing_pad == f@[j].insn.va) by {
                assert(lead0[j] <==> flow[j] || exists|k: int|
                    0 <= k < r && (#[trigger] eh@[k]).landing_pad == f@[j].insn.va);
            }
        }
        r = r + 1;
    }
    proof {
        assert forall|j: int| 0 <= j < n implies (#[trigger] lead@[j] <==> leads(f@, eh@, j)) by {
            assert(flow[j] <==> j == 0 || exists|k: int|
                0 <= k < n && #[trigger] starts_block_at(f@, k, f@[j].insn.va.0 as int));
        }
    }
    lead
}

// ---------------------------------------------------------------------------
// Registers
// ---------------------------------------------------------------------------

/// The registers that an instruction defines: those that it writes, and for a
/// call the register that the callee leaves its result in.
pub open spec fn writes_of(b: BuildFacts, x: InsnFacts) -> Seq<Seq<char>> {
    let w = text_list(x.access.writes@);
    if x.insn.kind == InsnKind::Call && b.return_register is Some && !w.contains(b.return_register->0@) {
        w.push(b.return_register->0@)
    } else {
        w
    }
}

/// The last instruction from `s` on and before `i` that defines the register.
pub open spec fn last_writer(b: BuildFacts, f: Seq<InsnFacts>, s: int, i: int, reg: Seq<char>) -> Option<int>
    decreases i - s,
{
    if i <= s {
        None
    } else if writes_of(b, f[i - 1]).contains(reg) {
        Some(i - 1)
    } else {
        last_writer(b, f, s, i - 1, reg)
    }
}

/// The definitions that the first `m` reads of instruction `i` go back to in
/// the block that starts at `s`.
pub open spec fn def_uses(b: BuildFacts, f: Seq<InsnFacts>, s: int, i: int, m: nat) -> Seq<DefUseNode>
    decreases m,
{
    if m == 0 {
        Seq::empty()
    } else {
        let before = def_uses(b, f, s, i, (m - 1) as nat);
        let reg = f[i].access.reads@[m - 1]@;
        match last_writer(b, f, s, i, reg) {
            Some(d) => before.push(DefUseNode { reg, def_index: d - s, def_addr: f[d].insn.va }),
            None => before,
        }
    }
}

fn has_text(v: &Vec<String>, t: &str) -> (r: bool)
    ensures
        r == text_list(v@).contains(t@),
{
    let mut k: usize = 0;
    while k < v.len()
        invariant
            k <= v@.len(),
            forall|j: int| 0 <= j < k ==> (#[trigger] v@[j])@ != t@,
        decreases v@.len() - k,
    {
        if same(v[k].as_str(), t) {
            assert(text_list(v@)[k as int] == t@);
            return true;
        }
        k = k + 1;
    }
    proof {
        assert forall|j: int| 0 <= j < text_list(v@).len() implies text_list(v@)[j] != t@ by {
            assert(v@[j]@ != t@);
        }
    }
    false
}

/// A copy of a list of strings.
pub fn copy_texts(v: &Vec<String>) -> (r: Vec<String>)
    ensures
        r@ == v@,
{
    let mut r: Vec<String> = Vec::new();
    let mut k: usize = 0;
    while k < v.len()
        invariant
            k <= v@.len(),
            r@ == v@.take(k as int),
        decreases v@.len() - k,
    {
        r.push(v[k].clone());
        k = k + 1;
        assert(r@ =~= v@.take(k as int));
    }
    assert(r@ =~= v@);
    r
}

fn copy_opt(o: &Option<String>) -> (r: Option<String>)
    ensures
        r == *o,
{
    match o {
        Some(s) => Some(s.clone()),
        None => None,
    }
}

fn all_writes(b: &BuildFacts, x: &InsnFacts) -> (r: Vec<String>)
    ensures
        text_list(r@) == writes_of(*b, *x),
{
    let mut w = copy_texts(&x.access.writes);
    match b.return_register {
        Some(reg) => if x.insn.kind == InsnKind::Call && !has_text(&x.access.writes, reg) {
            w.push(String::from_str(reg));
            assert(text_list(w@) =~= text_list(x.access.writes@).push(reg@));
        },
        None => {},
    }
    w
}

fn find_writer(b: &BuildFacts, f: &[InsnFacts], s: usize, i: usize, reg: &str) -> (r: Option<usize>)
    requires
        s <= i <= f@.len(),
    ensures
        match (r, last_writer(*b, f@, s as int, i as int, reg@)) {
            (Some(a), Some(d)) => a == d && s <= a < i,
            (None, None) => true,
            _ => false,
        },
{
    let mut k: usize = i;
    while k > s
        invariant
            s <= k <= i <= f@.len(),
            last_writer(*b, f@, s as int, i as int, reg@) == last_writer(*b, f@, s as int, k as int, reg@),
        decreases k - s,
    {
        let w = all_writes(b, &f[k - 1]);
        if has_text(&w, reg) {
            return Some(k - 1);
        }
        k = k - 1;
    }
    None
}

fn find_def_uses(b: &BuildFacts, f: &[InsnFacts], s: usize, i: usize) -> (r: Vec<DefUse>)
    requires
        s <= i < f@.len(),
    ensures
        r@.map_values(|d: DefUse| def_use_node(d)) == def_uses(
            *b,
            f@,
            s as int,
            i as int,
            f@[i as int].access.reads@.len(),
        ),
{
    let reads = &f[i].access.reads;
    let mut out: Vec<DefUse> = Vec::new();
    let mut m: usize = 0;
    proof {
        assert(out@.map_values(|d: DefUse| def_use_node(d)) =~= def_uses(*b, f@, s as int, i as int, 0));
    }
    while m < reads.len()
        invariant
            s <= i < f@.len(),
            *reads == f@[i as int].access.reads,
            m <= reads@.len(),
            out@.map_values(|d: DefUse| def_use_node(d)) == def_uses(*b, f@, s as int, i as int, m as nat),
        decreases reads@.len() - m,
    {
        let ghost out0 = out@;
        match find_writer(b, f, s, i, reads[m].as_str()) {
            Some(d) => {
                out.push(DefUse { reg: reads[m].clone(), def_index: d - s, def_addr: f[d].insn.va });
                proof {
                    assert(out@.map_values(|d: DefUse| def_use_node(d)) =~= out0.map_values(
                        |d: DefUse| def_use_node(d),
                    ).push(def_use_node(out@.last())));
                }
            },
            None => {},
        }
        m = m + 1;
    }
    out
}

/// Instruction `i` as it stands in the block that starts at `s`.
pub open spec fn node_of(ctx: Ctx, b: BuildFacts, f: Seq<InsnFacts>, s: int, i: int) -> InsnNode {
    let x = f[i];
    InsnNode {
        va: x.insn.va,
        len: x.insn.len,
        mnemonic: x.insn.mnemonic@,
        text: x.insn.text@,
        flow: x.insn.kind,
        target: x.insn.target,
        target_name: target_name_of(ctx, x),
        reads: text_list(x.access.reads@),
        writes: writes_of(b, x),
        def_use: def_uses(b, f, s, i, x.access.reads@.len()),
        cond: opt_text(x.insn.cond),
        stack_adjust: x.insn.stack_adjust,
    }
}

fn make_insn(ctx: &Ctx, b: &BuildFacts, f: &[InsnFacts], s: usize, i: usize) -> (r: IrInsn)
    requires
        s <= i < f@.len(),
    ensures
        insn_node(r) == node_of(*ctx, *b, f@, s as int, i as int),
{
    let x = &f[i];
    IrInsn {
        va: x.insn.va,
        len: x.insn.len,
        mnemonic: x.insn.mnemonic.clone(),
        text: x.insn.text.clone(),
        flow: x.insn.kind,
        target: x.insn.target,
        target_name: resolved_target_name(ctx, x),
        reads: copy_texts(&x.access.reads),
        writes: all_writes(b, x),
        def_use: find_def_uses(b, f, s, i),
        cond: copy_opt(&x.insn.cond),
        stack_adjust: x.insn.stack_adjust,
    }
}

// ---------------------------------------------------------------------------
// Edges and call sites
// ---------------------------------------------------------------------------

/// A jump out of the function is a tail call: a direct one outside its range,
/// or one through a slot whose import is known by name.
pub open spec fn is_tail(ctx: Ctx, f: Seq<InsnFacts>, start: Va, i: int) -> bool {
    let x = f[i];
    &&& x.insn.kind == InsnKind::Jump
    &&& match x.insn.target {
        Some(t) => t.0 < start.0 || t.0 >= end_of(f, start),
        None => target_name_of(ctx, x) is Some,
    }
}

/// How far an edge of this kind is to be trusted, in hundredths.
pub open spec fn edge_trust(kind: Seq<char>) -> u32 {
    if kind == "fall"@ || kind == "jmp"@ || kind == "cjmp-true"@ || kind == "cjmp-false"@ {
        100
    } else {
        80
    }
}

/// How far an edge of this kind is to be trusted, in hundredths.
pub fn edge_confidence(kind: &str) -> (r: u32)
    ensures
        r == edge_trust(kind@),
{
    if same(kind, "fall") || same(kind, "jmp") || same(kind, "cjmp-true") || same(kind, "cjmp-false") {
        100
    } else {
        80
    }
}

/// The edges to the first `m` cases of a switch that land on an instruction.
pub open spec fn case_edges(f: Seq<InsnFacts>, s: ResolvedSwitch, confidence: u32, m: nat) -> Seq<Edge>
    decreases m,
{
    if m == 0 {
        Seq::empty()
    } else {
        let before = case_edges(f, s, confidence, (m - 1) as nat);
        let c = s.cases@[m - 1];
        if valid_at(f, c.0 as int) {
            before.push(Edge { to: c, kind: "switch-case"@, confidence })
        } else {
            before
        }
    }
}

/// The edges out of the block whose last instruction is `i`, without the
/// exceptional ones.
pub open spec fn flow_edges(ctx: Ctx, b: BuildFacts, f: Seq<InsnFacts>, start: Va, i: int) -> Seq<Edge> {
    let x = f[i];
    match x.insn.kind {
        InsnKind::Ret | InsnKind::Int => Seq::empty(),
        InsnKind::Jump => if is_tail(ctx, f, start, i) {
            Seq::empty()
        } else {
            match x.insn.target {
                Some(t) => seq![Edge { to: t, kind: "jmp"@, confidence: 100 }],
                None => match x.dispatch {
                    Some(s) => case_edges(f, s, b.case_confidence, s.cases@.len()),
                    None => Seq::empty(),
                },
            }
        },
        InsnKind::CondJump => {
            let taken = match x.insn.target {
                Some(t) => if valid_at(f, t.0 as int) {
                    seq![Edge { to: t, kind: "cjmp-true"@, confidence: 100 }]
                } else {
                    Seq::empty()
                },
                None => Seq::empty(),
            };
            let next = after(f, i);
            if valid_at(f, next) {
                taken.push(Edge { to: Va(next as u64), kind: "cjmp-false"@, confidence: 100 })
            } else {
                taken
            }
        },
        _ => if never_returns(ctx, x) || i + 1 >= f.len() {
            Seq::empty()
        } else {
            seq![Edge { to: f[i + 1].insn.va, kind: "fall"@, confidence: 100 }]
        },
    }
}

/// Some edge leads to the address.
pub open spec fn leads_to(s: Seq<Edge>, a: Va) -> bool {
    exists|k: int| 0 <= k < s.len() && (#[trigger] s[k]).to == a
}

/// `base` and the exceptional edges that the first `m` protected ranges give a
/// block that covers `lo..hi`.
pub open spec fn with_eh(base: Seq<Edge>, eh: Seq<EhRegion>, m: nat, lo: int, hi: int) -> Seq<Edge>
    decreases m,
{
    if m == 0 {
        base
    } else {
        let before = with_eh(base, eh, (m - 1) as nat, lo, hi);
        let r = eh[m - 1];
        if lo < r.try_end.0 && hi > r.try_start.0 && r.landing_pad.0 != lo && !leads_to(before, r.landing_pad) {
            before.push(Edge { to: r.landing_pad, kind: "eh"@, confidence: 80 })
        } else {
            before
        }
    }
}

/// How the block whose last instruction is `i` leaves.
pub open spec fn terminator_of(ctx: Ctx, f: Seq<InsnFacts>, start: Va, i: int) -> Seq<char> {
    let x = f[i];
    match x.insn.kind {
        InsnKind::Ret => "ret"@,
        InsnKind::Int => "int"@,
        InsnKind::Jump => if is_tail(ctx, f, start, i) {
            "tail-call"@
        } else if x.insn.target is Some {
            "jmp"@
        } else {
            "ijmp"@
        },
        InsnKind::CondJump => "cjmp"@,
        _ => if never_returns(ctx, x) {
            "call-noreturn"@
        } else {
            "fall"@
        },
    }
}

/// The block from instruction `s` to its end, as the one with the index `idx`.
pub open spec fn block_of(
    ctx: Ctx,
    b: BuildFacts,
    f: Seq<InsnFacts>,
    eh: Seq<EhRegion>,
    start: Va,
    s: int,
    idx: int,
) -> BlockNode {
    let e = block_end(ctx, f, eh, s);
    BlockNode {
        id: if leads(f, eh, s) {
            leaders_before(f, eh, s as nat) as int
        } else {
            idx
        },
        start: f[s].insn.va,
        end: Va(after(f, e - 1) as u64),
        terminator: terminator_of(ctx, f, start, e - 1),
        successors: with_eh(
            flow_edges(ctx, b, f, start, e - 1),
            eh,
            eh.len(),
            f[s].insn.va.0 as int,
            after(f, e - 1),
        ),
        insns: Seq::new((e - s) as nat, |k: int| node_of(ctx, b, f, s, s + k)),
    }
}

/// The blocks from instruction `s` on, the first of them with the index `idx`.
pub open spec fn blocks_from(
    ctx: Ctx,
    b: BuildFacts,
    f: Seq<InsnFacts>,
    eh: Seq<EhRegion>,
    start: Va,
    s: int,
    idx: int,
) -> Seq<BlockNode>
    decreases f.len() - s,
{
    if s >= f.len() || s < 0 {
        Seq::empty()
    } else {
        proof {
            lemma_block_end(ctx, f, eh, s);
        }
        seq![block_of(ctx, b, f, eh, start, s, idx)] + blocks_from(
            ctx,
            b,
            f,
            eh,
            start,
            block_end(ctx, f, eh, s),
            idx + 1,
        )
    }
}

pub proof fn lemma_block_end(ctx: Ctx, f: Seq<InsnFacts>, eh: Seq<EhRegion>, s: int)
    requires
        0 <= s < f.len(),
    ensures
        s < block_end(ctx, f, eh, s) <= f.len(),
    decreases f.len() - s,
{
    if !(s + 1 >= f.len() || closes_block(ctx, f, s) || leads(f, eh, s + 1)) {
        lemma_block_end(ctx, f, eh, s + 1);
    }
}

/// The call sites that instruction `i` gives.
pub open spec fn calls_at(ctx: Ctx, f: Seq<InsnFacts>, start: Va, i: int) -> Seq<CallNode> {
    let x = f[i];
    let name = target_name_of(ctx, x);
    match x.insn.kind {
        InsnKind::Jump => if is_tail(ctx, f, start, i) {
            seq![
                CallNode {
                    from: x.insn.va,
                    kind: "tail"@,
                    target: x.insn.target,
                    target_name: name,
                    via_slot: slot_of(x.insn),
                },
            ]
        } else {
            Seq::empty()
        },
        InsnKind::CondJump => {
            let taken = match x.insn.target {
                Some(t) => if valid_at(f, t.0 as int) {
                    Seq::empty()
                } else {
                    seq![
                        CallNode {
                            from: x.insn.va,
                            kind: "tail"@,
                            target: Some(t),
                            target_name: name,
                            via_slot: slot_of(x.insn),
                        },
                    ]
                },
                None => Seq::empty(),
            };
            let next = after(f, i);
            if valid_at(f, next) {
                taken
            } else {
                taken.push(
                    CallNode {
                        from: x.insn.va,
                        kind: "tail"@,
                        target: Some(Va(next as u64)),
                        target_name: None,
                        via_slot: None,
                    },
                )
            }
        },
        InsnKind::Call => seq![
            CallNode {
                from: x.insn.va,
                kind: if name is Some {
                    "named"@
                } else {
                    "direct"@
                },
                target: x.insn.target,
                target_name: name,
                via_slot: slot_of(x.insn),
            },
        ],
        _ => Seq::empty(),
    }
}

/// The call sites of the first `i` instructions.
pub open spec fn calls_upto(ctx: Ctx, f: Seq<InsnFacts>, start: Va, i: nat) -> Seq<CallNode>
    decreases i,
{
    if i == 0 {
        Seq::empty()
    } else {
        calls_upto(ctx, f, start, (i - 1) as nat) + calls_at(ctx, f, start, i - 1)
    }
}

/// The switch that instruction `i` dispatches through.
pub open spec fn switch_at(ctx: Ctx, f: Seq<InsnFacts>, start: Va, i: int) -> Option<ResolvedSwitch> {
    let x = f[i];
    if x.insn.kind == InsnKind::Jump && x.insn.target is None && !is_tail(ctx, f, start, i) {
        x.dispatch
    } else {
        None
    }
}

/// The switches of the first `i` instructions.
pub open spec fn switches_upto(ctx: Ctx, f: Seq<InsnFacts>, start: Va, i: nat) -> Seq<SwitchNode>
    decreases i,
{
    if i == 0 {
        Seq::empty()
    } else {
        let before = switches_upto(ctx, f, start, (i - 1) as nat);
        match switch_at(ctx, f, start, i - 1) {
            Some(s) => before.push(switch_node(s)),
            None => before,
        }
    }
}

/// What one instruction adds to the counts.
pub ghost struct Counts {
    pub returns: nat,
    pub calls: nat,
    pub indirect: nat,
    pub tails: nat,
    pub noreturn: nat,
}

/// The counts over the first `i` instructions.
pub open spec fn counts_upto(ctx: Ctx, f: Seq<InsnFacts>, start: Va, i: nat) -> Counts
    decreases i,
{
    if i == 0 {
        Counts { returns: 0, calls: 0, indirect: 0, tails: 0, noreturn: 0 }
    } else {
        let c = counts_upto(ctx, f, start, (i - 1) as nat);
        let x = f[i - 1];
        match x.insn.kind {
            InsnKind::Ret => Counts { returns: c.returns + 1, ..c },
            InsnKind::Jump => if is_tail(ctx, f, start, i - 1) {
                Counts { tails: c.tails + 1, ..c }
            } else if x.insn.target is None {
                Counts { indirect: c.indirect + 1, ..c }
            } else {
                c
            },
            InsnKind::CondJump => Counts {
                tails: c.tails + calls_at(ctx, f, start, i - 1).len(),
                ..c
            },
            InsnKind::Call => Counts {
                calls: c.calls + 1,
                noreturn: if never_returns(ctx, x) {
                    c.noreturn + 1
                } else {
                    c.noreturn
                },
                ..c
            },
            _ => c,
        }
    }
}

fn push_edge(v: &mut Vec<Successor>, to: Va, kind: &str, confidence: u32)
    ensures
        edges_of(final(v)@) == edges_of(old(v)@).push(Edge { to, kind: kind@, confidence }),
{
    v.push(Successor { to, kind: String::from_str(kind), confidence });
    assert(edges_of(v@) =~= edges_of(old(v)@).push(Edge { to, kind: kind@, confidence }));
}

fn check_tail(ctx: &Ctx, f: &[InsnFacts], start: Va, end: u64, i: usize) -> (r: bool)
    requires
        i < f@.len(),
        end == end_of(f@, start),
    ensures
        r == is_tail(*ctx, f@, start, i as int),
{
    let x = &f[i];
    if x.insn.kind != InsnKind::Jump {
        return false;
    }
    match x.insn.target {
        Some(t) => t.0 < start.0 || t.0 >= end,
        None => resolved_target_name(ctx, x).is_some(),
    }
}

fn edges_out(ctx: &Ctx, b: &BuildFacts, f: &[InsnFacts], start: Va, end: u64, i: usize) -> (v: Vec<Successor>)
    requires
        ctx.wf(),
        linear(f@),
        i < f@.len(),
        end == end_of(f@, start),
    ensures
        edges_of(v@) == flow_edges(*ctx, *b, f@, start, i as int),
{
    let x = &f[i];
    let mut v: Vec<Successor> = Vec::new();
    assert(edges_of(v@) =~= Seq::<Edge>::empty());
    assert(after(f@, i as int) <= u64::MAX);
    match x.insn.kind {
        InsnKind::Ret | InsnKind::Int => {},
        InsnKind::Jump => {
            if !check_tail(ctx, f, start, end, i) {
                match x.insn.target {
                    Some(t) => {
                        push_edge(&mut v, t, "jmp", 100);
                        assert(edges_of(v@) =~= seq![Edge { to: t, kind: "jmp"@, confidence: 100 }]);
                    },
                    None => match &x.dispatch {
                        Some(s) => {
                            let mut m: usize = 0;
                            while m < s.cases.len()
                                invariant
                                    m <= s.cases@.len(),
                                    edges_of(v@) == case_edges(f@, *s, b.case_confidence, m as nat),
                                decreases s.cases@.len() - m,
                            {
                                let c = s.cases[m];
                                match find_va(f, c.0) {
                                    Some(k) => {
                                        assert(f@[k as int].insn.va.0 == c.0);
                                        push_edge(&mut v, c, "switch-case", b.case_confidence);
                                    },
                                    None => {},
                                }
                                m = m + 1;
                            }
                        },
                        None => {},
                    },
                }
            }
        },
        InsnKind::CondJump => {
            match x.insn.target {
                Some(t) => match find_va(f, t.0) {
                    Some(k) => {
                        assert(f@[k as int].insn.va.0 == t.0);
                        push_edge(&mut v, t, "cjmp-true", 100);
                        assert(edges_of(v@) =~= seq![Edge { to: t, kind: "cjmp-true"@, confidence: 100 }]);
                    },
                    None => {},
                },
                None => {},
            }
            let next: u64 = x.insn.va.0 + x.insn.len as u64;
            match find_va(f, next) {
                Some(k) => {
                    assert(f@[k as int].insn.va.0 == next);
                    push_edge(&mut v, Va(next), "cjmp-false", 100);
                },
                None => {},
            }
        },
        _ => {
            if !is_noreturn_call(ctx, x) && i + 1 < f.len() {
                push_edge(&mut v, f[i + 1].insn.va, "fall", 100);
                assert(edges_of(v@) =~= seq![
                    Edge { to: f@[i + 1].insn.va, kind: "fall"@, confidence: 100 },
                ]);
            }
        },
    }
    v
}

fn has_edge_to(v: &Vec<Successor>, a: Va) -> (r: bool)
    ensures
        r == leads_to(edges_of(v@), a),
{
    let mut k: usize = 0;
    while k < v.len()
        invariant
            k <= v@.len(),
            forall|j: int| 0 <= j < k ==> (#[trigger] v@[j]).to != a,
        decreases v@.len() - k,
    {
        if v[k].to.0 == a.0 {
            assert(edges_of(v@)[k as int].to == a);
            return true;
        }
        k = k + 1;
    }
    proof {
        assert forall|j: int| 0 <= j < edges_of(v@).len() implies (#[trigger] edges_of(v@)[j]).to != a by {
            assert(v@[j].to != a);
        }
    }
    false
}

fn add_eh(v: &mut Vec<Successor>, eh: &[EhRegion], lo: u64, hi: u64)
    ensures
        edges_of(final(v)@) == with_eh(edges_of(old(v)@), eh@, eh@.len(), lo as int, hi as int),
{
    let mut m: usize = 0;
    while m < eh.len()
        invariant
            m <= eh@.len(),
            edges_of(v@) == with_eh(edges_of(old(v)@), eh@, m as nat, lo as int, hi as int),
        decreases eh@.len() - m,
    {
        let r = eh[m];
        if lo < r.try_end.0 && hi > r.try_start.0 && r.landing_pad.0 != lo && !has_edge_to(v, r.landing_pad) {
            push_edge(v, r.landing_pad, "eh", 80);
        }
        m = m + 1;
    }
}

fn terminator_text(ctx: &Ctx, f: &[InsnFacts], start: Va, end: u64, i: usize) -> (r: String)
    requires
        ctx.wf(),
        i < f@.len(),
        end == end_of(f@, start),
    ensures
        r@ == terminator_of(*ctx, f@, start, i as int),
{
    let x = &f[i];
    String::from_str(
        match x.insn.kind {
            InsnKind::Ret => "ret",
            InsnKind::Int => "int",
            InsnKind::Jump => if check_tail(ctx, f, start, end, i) {
                "tail-call"
            } else if x.insn.target.is_some() {
                "jmp"
            } else {
                "ijmp"
            },
            InsnKind::CondJump => "cjmp",
            _ => if is_noreturn_call(ctx, x) {
                "call-noreturn"
            } else {
                "fall"
            },
        },
    )
}

fn push_call(
    v: &mut Vec<Callsite>,
    from: Va,
    kind: &str,
    target: Option<Va>,
    target_name: Option<String>,
    via_slot: Option<Va>,
)
    ensures
        call_nodes(final(v)@) == call_nodes(old(v)@).push(
            CallNode { from, kind: kind@, target, target_name: opt_text(target_name), via_slot },
        ),
{
    let ghost name = opt_text(target_name);
    v.push(Callsite { from, kind: String::from_str(kind), target, target_name, via_slot });
    assert(call_nodes(v@) =~= call_nodes(old(v)@).push(
        CallNode { from, kind: kind@, target, target_name: name, via_slot },
    ));
}

/// Adds the call sites of instruction `i`; says how many there are.
fn add_calls(ctx: &Ctx, f: &[InsnFacts], start: Va, end: u64, i: usize, v: &mut Vec<Callsite>) -> (n: usize)
    requires
        linear(f@),
        i < f@.len(),
        end == end_of(f@, start),
    ensures
        call_nodes(final(v)@) == call_nodes(old(v)@) + calls_at(*ctx, f@, start, i as int),
        n == calls_at(*ctx, f@, start, i as int).len(),
        n <= 2,
{
    let x = &f[i];
    let name = resolved_target_name(ctx, x);
    let ghost v0 = call_nodes(v@);
    let ghost spec_calls = calls_at(*ctx, f@, start, i as int);
    assert(after(f@, i as int) <= u64::MAX);
    let mut n: usize = 0;
    match x.insn.kind {
        InsnKind::Jump => {
            if check_tail(ctx, f, start, end, i) {
                push_call(v, x.insn.va, "tail", x.insn.target, name, memory_slot(&x.insn));
                n = 1;
            }
        },
        InsnKind::CondJump => {
            match x.insn.target {
                Some(t) => match find_va(f, t.0) {
                    Some(k) => {
                        assert(f@[k as int].insn.va.0 == t.0);
                    },
                    None => {
                        push_call(v, x.insn.va, "tail", Some(t), name, memory_slot(&x.insn));
                        n = 1;
                    },
                },
                None => {},
            }
            let next: u64 = x.insn.va.0 + x.insn.len as u64;
            match find_va(f, next) {
                Some(k) => {
                    assert(f@[k as int].insn.va.0 == next);
                },
                None => {
                    push_call(v, x.insn.va, "tail", Some(Va(next)), None, None);
                    n = n + 1;
                },
            }
        },
        InsnKind::Call => {
            let kind = if name.is_some() {
                "named"
            } else {
                "direct"
            };
            push_call(v, x.insn.va, kind, x.insn.target, name, memory_slot(&x.insn));
            n = 1;
        },
        _ => {},
    }
    assert(call_nodes(v@) =~= v0 + spec_calls);
    n
}

/// A copy of a switch.
pub fn copy_switch(s: &ResolvedSwitch) -> (r: ResolvedSwitch)
    ensures
        switch_node(r) == switch_node(*s),
{
    ResolvedSwitch {
        at: s.at,
        kind: s.kind.clone(),
        table: s.table,
        index_reg: copy_opt(&s.index_reg),
        scale: s.scale,
        bound: s.bound,
        entry_size: s.entry_size,
        cases: vstd::slice::slice_to_vec(s.cases.as_slice()),
        resolved: s.resolved,
    }
}

/// `art` is the control-flow graph of the instructions `f`.
pub open spec fn is_cfg(
    ctx: Ctx,
    b: BuildFacts,
    f: Seq<InsnFacts>,
    eh: Seq<EhRegion>,
    start: Va,
    frame: FrameInfo,
    art: CfgArtifact,
) -> bool {
    let c = counts_upto(ctx, f, start, f.len());
    &&& art.start == start
    &&& art.end.0 == end_of(f, start)
    &&& art.insn_count == f.len()
    &&& art.block_count == art.blocks@.len()
    &&& block_nodes(art.blocks@) == blocks_from(ctx, b, f, eh, start, 0, 0)
    &&& call_nodes(art.callsites@) == calls_upto(ctx, f, start, f.len())
    &&& switch_nodes(art.switches@) == switches_upto(ctx, f, start, f.len())
    &&& art.frame == frame
    &&& art.stats.returns == c.returns
    &&& art.stats.calls == c.calls
    &&& art.stats.indirect_branches == c.indirect
    &&& art.stats.tail_calls == c.tails
    &&& art.stats.noreturn_calls == c.noreturn
}

proof fn lemma_counts_bound(ctx: Ctx, f: Seq<InsnFacts>, start: Va, i: nat)
    requires
        i <= f.len(),
    ensures
        counts_upto(ctx, f, start, i).returns <= i,
        counts_upto(ctx, f, start, i).calls <= i,
        counts_upto(ctx, f, start, i).indirect <= i,
        counts_upto(ctx, f, start, i).noreturn <= i,
        counts_upto(ctx, f, start, i).tails <= 2 * i,
    decreases i,
{
    if i > 0 {
        lemma_counts_bound(ctx, f, start, (i - 1) as nat);
    }
}

/// Which protected ranges apply.
pub open spec fn eh_of(ctx: Ctx) -> Seq<EhRegion> {
    match ctx.eh {
        Some(e) => e@,
        None => Seq::empty(),
    }
}

/// Builds the control-flow graph of a linear run of instructions: blocks, edges,
/// call sites, switches and counts.
pub fn build(ctx: &Ctx, b: &BuildFacts, f: &[InsnFacts], start: Va, frame: FrameInfo) -> (art: CfgArtifact)
    requires
        ctx.wf(),
        linear(f@),
        2 * f@.len() <= usize::MAX,
    ensures
        is_cfg(*ctx, *b, f@, eh_of(*ctx), start, frame, art),
{
    let n: usize = f.len();
    let no_regions: [EhRegion; 0] = [];
    let eh: &[EhRegion] = match ctx.eh {
        Some(e) => e,
        None => no_regions.as_slice(),
    };
    assert(eh@ =~= eh_of(*ctx));
    let end: u64 = if n == 0 {
        start.0
    } else {
        assert(after(f@, n - 1) <= u64::MAX);
        f[n - 1].insn.va.0 + f[n - 1].insn.len as u64
    };
    let lead = compute_leaders(f, eh);
    let mut callsites: Vec<Callsite> = Vec::new();
    let mut switches: Vec<ResolvedSwitch> = Vec::new();
    let mut stats = CfgStats {
        returns: 0,
        calls: 0,
        indirect_branches: 0,
        tail_calls: 0,
        noreturn_calls: 0,
    };
    let mut i: usize = 0;
    proof {
        assert(call_nodes(callsites@) =~= calls_upto(*ctx, f@, start, 0));
        assert(switch_nodes(switches@) =~= switches_upto(*ctx, f@, start, 0));
    }
    while i < n
        invariant
            ctx.wf(),
            linear(f@),
            i <= n,
            n == f@.len(),
            2 * n <= usize::MAX,
            end == end_of(f@, start),
            call_nodes(callsites@) == calls_upto(*ctx, f@, start, i as nat),
            switch_nodes(switches@) == switches_upto(*ctx, f@, start, i as nat),
            stats.returns == counts_upto(*ctx, f@, start, i as nat).returns,
            stats.calls == counts_upto(*ctx, f@, start, i as nat).calls,
            stats.indirect_branches == counts_upto(*ctx, f@, start, i as nat).indirect,
            stats.tail_calls == counts_upto(*ctx, f@, start, i as nat).tails,
            stats.noreturn_calls == counts_upto(*ctx, f@, start, i as nat).noreturn,
        decreases n - i,
    {
        proof {
            lemma_counts_bound(*ctx, f@, start, i as nat);
        }
        let x = &f[i];
        let found: usize = add_calls(ctx, f, start, end, i, &mut callsites);
        match x.insn.kind {
            InsnKind::Ret => {
                stats.returns = stats.returns + 1;
            },
            InsnKind::Jump => {
                if check_tail(ctx, f, start, end, i) {
                    stats.tail_calls = stats.tail_calls + 1;
                } else if x.insn.target.is_none() {
                    stats.indirect_branches = stats.indirect_branches + 1;
                    match &x.dispatch {
                        Some(s) => {
                            let ghost sw0 = switch_nodes(switches@);
                            switches.push(copy_switch(s));
                            assert(switch_nodes(switches@) =~= sw0.push(switch_node(*s)));
                        },
                        None => {},
                    }
                }
            },
            InsnKind::CondJump => {
                stats.tail_calls = stats.tail_calls + found;
            },
            InsnKind::Call => {
                stats.calls = stats.calls + 1;
                if is_noreturn_call(ctx, x) {
                    stats.noreturn_calls = stats.noreturn_calls + 1;
                }
            },
            _ => {},
        }
        i = i + 1;
    }
    let mut blocks: Vec<CfgBlock> = Vec::new();
    let mut rank: usize = 0;
    let mut s: usize = 0;
    proof {
        assert(block_nodes(blocks@) + blocks_from(*ctx, *b, f@, eh@, start, 0, 0) =~= blocks_from(
            *ctx,
            *b,
            f@,
            eh@,
            start,
            0,
            0,
        ));
    }
    while s < n
        invariant
            ctx.wf(),
            linear(f@),
            s <= n,
            n == f@.len(),
            end == end_of(f@, start),
            lead@.len() == n,
            forall|j: int| 0 <= j < n ==> (#[trigger] lead@[j] <==> leads(f@, eh@, j)),
            rank == leaders_before(f@, eh@, s as nat),
            rank <= s,
            block_nodes(blocks@) + blocks_from(*ctx, *b, f@, eh@, start, s as int, blocks@.len() as int)
                == blocks_from(*ctx, *b, f@, eh@, start, 0, 0),
        decreases n - s,
    {
        let id: usize = if lead[s] {
            rank
        } else {
            blocks.len()
        };
        let ghost idx = blocks@.len();
        let mut insns: Vec<IrInsn> = Vec::new();
        let mut e: usize = s;
        let mut going = true;
        while going
            invariant
                ctx.wf(),
                s <= e <= n,
                n == f@.len(),
                s < n,
                going ==> e < n,
                lead@.len() == n,
                forall|j: int| 0 <= j < n ==> (#[trigger] lead@[j] <==> leads(f@, eh@, j)),
                rank == leaders_before(f@, eh@, e as nat),
                rank <= e,
                insns@.map_values(|x: IrInsn| insn_node(x)) == Seq::new(
                    (e - s) as nat,
                    |k: int| node_of(*ctx, *b, f@, s as int, s + k),
                ),
                going ==> block_end(*ctx, f@, eh@, s as int) == block_end(*ctx, f@, eh@, e as int),
                !going ==> s < e && block_end(*ctx, f@, eh@, s as int) == e,
            decreases n - e, going as int,
        {
            let ghost insns0 = insns@.map_values(|x: IrInsn| insn_node(x));
            insns.push(make_insn(ctx, b, f, s, e));
            proof {
                assert(insns@.map_values(|x: IrInsn| insn_node(x)) =~= insns0.push(
                    node_of(*ctx, *b, f@, s as int, e as int),
                ));
                assert(insns@.map_values(|x: IrInsn| insn_node(x)) =~= Seq::new(
                    (e + 1 - s) as nat,
                    |k: int| node_of(*ctx, *b, f@, s as int, s + k),
                ));
            }
            if lead[e] {
                rank = rank + 1;
            }
            let closes = is_flow_end(f[e].insn.kind) || is_noreturn_call(ctx, &f[e]);
            e = e + 1;
            if e >= n || closes || lead[e] {
                going = false;
            }
        }
        let mut successors = edges_out(ctx, b, f, start, end, e - 1);
        let lo: u64 = f[s].insn.va.0;
        assert(after(f@, e - 1) <= u64::MAX);
        let hi: u64 = f[e - 1].insn.va.0 + f[e - 1].insn.len as u64;
        add_eh(&mut successors, eh, lo, hi);
        let terminator = terminator_text(ctx, f, start, end, e - 1);
        let ghost blocks0 = block_nodes(blocks@);
        blocks.push(CfgBlock { id, start: Va(lo), end: Va(hi), terminator, successors, insns });
        proof {
            let node = block_of(*ctx, *b, f@, eh@, start, s as int, idx as int);
            assert(block_node(blocks@.last()) == node);
            assert(block_nodes(blocks@) =~= blocks0.push(node));
            let rest = blocks_from(*ctx, *b, f@, eh@, start, e as int, (idx + 1) as int);
            assert(blocks_from(*ctx, *b, f@, eh@, start, s as int, idx as int) == seq![node] + rest);
            assert(blocks0.push(node) + rest =~= blocks0 + (seq![node] + rest));
        }
        s = e;
    }
    proof {
        assert(block_nodes(blocks@) + Seq::<BlockNode>::empty() =~= block_nodes(blocks@));
    }
    let block_count: usize = blocks.len();
    CfgArtifact {
        start,
        end: Va(end),
        block_count,
        insn_count: n,
        blocks,
        callsites,
        switches,
        frame,
        stats,
    }
}

/// A block begins at the address.
pub open spec fn begins_at(f: Seq<InsnFacts>, eh: Seq<EhRegion>, a: Va) -> bool {
    exists|j: int| 0 <= j < f.len() && (#[trigger] f[j]).insn.va == a && leads(f, eh, j)
}

proof fn lemma_flow_edges(
    ctx: Ctx,
    b: BuildFacts,
    f: Seq<InsnFacts>,
    eh: Seq<EhRegion>,
    start: Va,
    s: int,
    k: int,
)
    requires
        linear(f),
        0 <= s < f.len(),
        0 <= k < flow_edges(ctx, b, f, start, block_end(ctx, f, eh, s) - 1).len(),
    ensures
        ({
            let i = block_end(ctx, f, eh, s) - 1;
            let to = flow_edges(ctx, b, f, start, i)[k].to;
            begins_at(f, eh, to) || (!valid_at(f, to.0 as int) && f[i].insn.kind == InsnKind::Jump && f[i].insn.target
                == Some(to) && flow_edges(ctx, b, f, start, i)[k].kind == "jmp"@)
        }),
{
    lemma_block_end(ctx, f, eh, s);
    let e = block_end(ctx, f, eh, s);
    let i = e - 1;
    let x = f[i];
    let edges = flow_edges(ctx, b, f, start, i);
    let to = edges[k].to;
    assert(after(f, i) <= u64::MAX);
    match x.insn.kind {
        InsnKind::Jump => match x.insn.target {
            Some(t) => {
                if valid_at(f, t.0 as int) {
                    let j = choose|j: int| 0 <= j < f.len() && (#[trigger] f[j]).insn.va.0 == t.0;
                    assert(starts_block_at(f, i, f[j].insn.va.0 as int));
                    assert(f[j].insn.va == to && leads(f, eh, j));
                }
            },
            None => {
                let sw = x.dispatch->0;
                lemma_case_edges(f, sw, b.case_confidence, sw.cases@.len(), k);
                let c = choose|c: int|
                    0 <= c < sw.cases@.len() && #[trigger] sw.cases@[c] == to && valid_at(f, to.0 as int);
                let j = choose|j: int| 0 <= j < f.len() && (#[trigger] f[j]).insn.va.0 == to.0;
                assert(has_case(sw, to.0 as int));
                assert(starts_block_at(f, i, f[j].insn.va.0 as int));
                assert(f[j].insn.va == to && leads(f, eh, j));
            },
        },
        InsnKind::CondJump => {
            assert(valid_at(f, to.0 as int));
            let j = choose|j: int| 0 <= j < f.len() && (#[trigger] f[j]).insn.va.0 == to.0;
            assert(starts_block_at(f, i, f[j].insn.va.0 as int));
            assert(f[j].insn.va == to && leads(f, eh, j));
        },
        _ => {
            lemma_open_end(ctx, f, eh, s);
            assert(f[i + 1].insn.va == to && leads(f, eh, i + 1));
        },
    }
}

proof fn lemma_eh_edges(base: Seq<Edge>, eh: Seq<EhRegion>, m: nat, lo: int, hi: int, k: int)
    requires
        m <= eh.len(),
        0 <= k < with_eh(base, eh, m, lo, hi).len(),
    ensures
        base.len() <= with_eh(base, eh, m, lo, hi).len(),
        k < base.len() ==> with_eh(base, eh, m, lo, hi)[k] == base[k],
        k >= base.len() ==> with_eh(base, eh, m, lo, hi)[k].kind == "eh"@ && exists|r: int|
            0 <= r < eh.len() && (#[trigger] eh[r]).landing_pad == with_eh(base, eh, m, lo, hi)[k].to,
    decreases m,
{
    if m > 0 {
        let before = with_eh(base, eh, (m - 1) as nat, lo, hi);
        if k < before.len() {
            lemma_eh_edges(base, eh, (m - 1) as nat, lo, hi, k);
        } else {
            if before.len() > 0 {
                lemma_eh_edges(base, eh, (m - 1) as nat, lo, hi, 0);
            } else {
                lemma_eh_grows(base, eh, (m - 1) as nat, lo, hi);
            }
            assert(eh[m - 1].landing_pad == with_eh(base, eh, m, lo, hi)[k].to);
        }
    }
}

proof fn lemma_eh_grows(base: Seq<Edge>, eh: Seq<EhRegion>, m: nat, lo: int, hi: int)
    ensures
        base.len() <= with_eh(base, eh, m, lo, hi).len(),
    decreases m,
{
    if m > 0 {
        lemma_eh_grows(base, eh, (m - 1) as nat, lo, hi);
    }
}

/// Every edge of a block leads to where a block begins. The only others are a
/// direct jump and a landing pad that state an address at which no instruction
/// of the function stands.
pub proof fn edges_land_on_blocks(
    ctx: Ctx,
    b: BuildFacts,
    f: Seq<InsnFacts>,
    eh: Seq<EhRegion>,
    start: Va,
    s: int,
    idx: int,
    k: int,
)
    requires
        linear(f),
        0 <= s < f.len(),
        0 <= k < block_of(ctx, b, f, eh, start, s, idx).successors.len(),
    ensures
        ({
            let last = f[block_end(ctx, f, eh, s) - 1].insn;
            let edge = block_of(ctx, b, f, eh, start, s, idx).successors[k];
            let to = edge.to;
            begins_at(f, eh, to) || (!valid_at(f, to.0 as int) && ((edge.kind == "jmp"@ && last.kind == InsnKind::Jump
                && last.target == Some(to)) || (edge.kind == "eh"@ && exists|r: int|
                0 <= r < eh.len() && (#[trigger] eh[r]).landing_pad == to)))
        }),
{
    let e = block_end(ctx, f, eh, s);
    let base = flow_edges(ctx, b, f, start, e - 1);
    let lo = f[s].insn.va.0 as int;
    let hi = after(f, e - 1);
    lemma_eh_edges(base, eh, eh.len(), lo, hi, k);
    if k < base.len() {
        lemma_flow_edges(ctx, b, f, eh, start, s, k);
    } else {
        let to = with_eh(base, eh, eh.len(), lo, hi)[k].to;
        let r = choose|r: int| 0 <= r < eh.len() && (#[trigger] eh[r]).landing_pad == to;
        if valid_at(f, to.0 as int) {
            let j = choose|j: int| 0 <= j < f.len() && (#[trigger] f[j]).insn.va.0 == to.0;
            assert(eh[r].landing_pad == f[j].insn.va);
            assert(f[j].insn.va == to && leads(f, eh, j));
        }
    }
}

proof fn lemma_case_edges(f: Seq<InsnFacts>, s: ResolvedSwitch, confidence: u32, m: nat, k: int)
    requires
        m <= s.cases@.len(),
        0 <= k < case_edges(f, s, confidence, m).len(),
    ensures
        exists|c: int|
            0 <= c < m && #[trigger] s.cases@[c] == case_edges(f, s, confidence, m)[k].to && valid_at(
                f,
                case_edges(f, s, confidence, m)[k].to.0 as int,
            ),
    decreases m,
{
    let before = case_edges(f, s, confidence, (m - 1) as nat);
    if k < before.len() {
        lemma_case_edges(f, s, confidence, (m - 1) as nat, k);
        let c = choose|c: int|
            0 <= c < m - 1 && #[trigger] s.cases@[c] == before[k].to && valid_at(f, before[k].to.0 as int);
        assert(s.cases@[c] == case_edges(f, s, confidence, m)[k].to);
    } else {
        assert(s.cases@[m - 1] == case_edges(f, s, confidence, m)[k].to);
    }
}

/// A block that does not close itself ends where the next one begins.
proof fn lemma_open_end(ctx: Ctx, f: Seq<InsnFacts>, eh: Seq<EhRegion>, s: int)
    requires
        0 <= s < f.len(),
    ensures
        ({
            let e = block_end(ctx, f, eh, s);
            e < f.len() && !closes_block(ctx, f, e - 1) ==> leads(f, eh, e)
        }),
    decreases f.len() - s,
{
    if !(s + 1 >= f.len() || closes_block(ctx, f, s) || leads(f, eh, s + 1)) {
        lemma_open_end(ctx, f, eh, s + 1);
    }
}

/// The addresses of the instructions of a list of blocks, one after another.
pub open spec fn addresses(blocks: Seq<BlockNode>) -> Seq<Va>
    decreases blocks.len(),
{
    if blocks.len() == 0 {
        Seq::empty()
    } else {
        blocks[0].insns.map_values(|x: InsnNode| x.va) + addresses(blocks.drop_first())
    }
}

proof fn lemma_blocks_cover(
    ctx: Ctx,
    b: BuildFacts,
    f: Seq<InsnFacts>,
    eh: Seq<EhRegion>,
    start: Va,
    s: int,
    idx: int,
)
    requires
        0 <= s <= f.len(),
    ensures
        addresses(blocks_from(ctx, b, f, eh, start, s, idx)) == f.skip(s).map_values(|x: InsnFacts| x.insn.va),
    decreases f.len() - s,
{
    let all = blocks_from(ctx, b, f, eh, start, s, idx);
    if s < f.len() {
        lemma_block_end(ctx, f, eh, s);
        let e = block_end(ctx, f, eh, s);
        let rest = blocks_from(ctx, b, f, eh, start, e, idx + 1);
        lemma_blocks_cover(ctx, b, f, eh, start, e, idx + 1);
        assert(all.drop_first() =~= rest);
        assert(all[0].insns.map_values(|x: InsnNode| x.va) + f.skip(e).map_values(|x: InsnFacts| x.insn.va)
            =~= f.skip(s).map_values(|x: InsnFacts| x.insn.va));
    } else {
        assert(f.skip(s).map_values(|x: InsnFacts| x.insn.va) =~= Seq::<Va>::empty());
    }
}

/// The blocks of a graph are its instructions, each once and in order.
pub proof fn blocks_partition_the_function(
    ctx: Ctx,
    b: BuildFacts,
    f: Seq<InsnFacts>,
    start: Va,
    frame: FrameInfo,
    art: CfgArtifact,
)
    requires
        is_cfg(ctx, b, f, eh_of(ctx), start, frame, art),
    ensures
        addresses(block_nodes(art.blocks@)) == f.map_values(|x: InsnFacts| x.insn.va),
{
    lemma_blocks_cover(ctx, b, f, eh_of(ctx), start, 0, 0);
    assert(f.skip(0) =~= f);
}

/// One of the blocks starts at the address.
pub open spec fn starts_one(blocks: Seq<CfgBlock>, a: Va) -> bool {
    exists|k: int| 0 <= k < blocks.len() && (#[trigger] blocks[k]).start == a
}

proof fn lemma_end_before_leader(ctx: Ctx, f: Seq<InsnFacts>, eh: Seq<EhRegion>, s: int, j: int)
    requires
        0 <= s < j < f.len(),
        leads(f, eh, j),
    ensures
        block_end(ctx, f, eh, s) <= j,
    decreases j - s,
{
    if !(s + 1 >= f.len() || closes_block(ctx, f, s) || leads(f, eh, s + 1)) {
        lemma_end_before_leader(ctx, f, eh, s + 1, j);
    }
}

proof fn lemma_leader_found(
    ctx: Ctx,
    b: BuildFacts,
    f: Seq<InsnFacts>,
    eh: Seq<EhRegion>,
    start: Va,
    s: int,
    idx: int,
    j: int,
) -> (k: int)
    requires
        0 <= s <= j < f.len(),
        leads(f, eh, j),
    ensures
        0 <= k < blocks_from(ctx, b, f, eh, start, s, idx).len(),
        blocks_from(ctx, b, f, eh, start, s, idx)[k].start == f[j].insn.va,
    decreases j - s,
{
    let all = blocks_from(ctx, b, f, eh, start, s, idx);
    if s == j {
        assert(all[0] == block_of(ctx, b, f, eh, start, s, idx));
        0
    } else {
        lemma_block_end(ctx, f, eh, s);
        lemma_end_before_leader(ctx, f, eh, s, j);
        let e = block_end(ctx, f, eh, s);
        let k = lemma_leader_found(ctx, b, f, eh, start, e, idx + 1, j);
        assert(all[k + 1] == blocks_from(ctx, b, f, eh, start, e, idx + 1)[k]);
        k + 1
    }
}

proof fn lemma_block_at(
    ctx: Ctx,
    b: BuildFacts,
    f: Seq<InsnFacts>,
    eh: Seq<EhRegion>,
    start: Va,
    s: int,
    idx: int,
    k: int,
) -> (t: int)
    requires
        0 <= s <= f.len(),
        0 <= k < blocks_from(ctx, b, f, eh, start, s, idx).len(),
    ensures
        0 <= t < f.len(),
        blocks_from(ctx, b, f, eh, start, s, idx)[k] == block_of(ctx, b, f, eh, start, t, idx + k),
    decreases f.len() - s,
{
    let all = blocks_from(ctx, b, f, eh, start, s, idx);
    if k == 0 {
        assert(all[0] == block_of(ctx, b, f, eh, start, s, idx));
        s
    } else {
        lemma_block_end(ctx, f, eh, s);
        let e = block_end(ctx, f, eh, s);
        assert(all[k] == blocks_from(ctx, b, f, eh, start, e, idx + 1)[k - 1]);
        lemma_block_at(ctx, b, f, eh, start, e, idx + 1, k - 1)
    }
}

/// Wherever a block has to begin, one of the blocks of the graph starts.
pub proof fn leaders_start_blocks(
    ctx: Ctx,
    b: BuildFacts,
    f: Seq<InsnFacts>,
    start: Va,
    frame: FrameInfo,
    art: CfgArtifact,
    j: int,
)
    requires
        is_cfg(ctx, b, f, eh_of(ctx), start, frame, art),
        0 <= j < f.len(),
        leads(f, eh_of(ctx), j),
    ensures
        starts_one(art.blocks@, f[j].insn.va),
{
    let k = lemma_leader_found(ctx, b, f, eh_of(ctx), start, 0, 0, j);
    assert(block_nodes(art.blocks@)[k] == block_node(art.blocks@[k]));
    assert(art.blocks@[k].start == f[j].insn.va);
}

/// Every successor of a block is where a block of the graph starts. The only others
/// are a direct jump and a landing pad that state an address at which no instruction
/// of the function stands.
pub proof fn successors_start_blocks(
    ctx: Ctx,
    b: BuildFacts,
    f: Seq<InsnFacts>,
    start: Va,
    frame: FrameInfo,
    art: CfgArtifact,
    k: int,
    m: int,
)
    requires
        linear(f),
        is_cfg(ctx, b, f, eh_of(ctx), start, frame, art),
        0 <= k < art.blocks@.len(),
        0 <= m < art.blocks@[k].successors@.len(),
    ensures
        ({
            let edge = art.blocks@[k].successors@[m];
            &&& starts_one(art.blocks@, edge.to) || (!valid_at(f, edge.to.0 as int) && (edge.kind@ == "jmp"@
                || edge.kind@ == "eh"@))
            &&& edge.kind@ == "fall"@ || edge.kind@ == "cjmp-true"@ || edge.kind@ == "cjmp-false"@ || edge.kind@
                == "switch-case"@ ==> starts_one(art.blocks@, edge.to)
        }),
{
    let eh = eh_of(ctx);
    let nodes = block_nodes(art.blocks@);
    let s = lemma_block_at(ctx, b, f, eh, start, 0, 0, k);
    assert(nodes[k] == block_node(art.blocks@[k]));
    let edge = art.blocks@[k].successors@[m];
    assert(nodes[k].successors[m] == (Edge { to: edge.to, kind: edge.kind@, confidence: edge.confidence }));
    edges_land_on_blocks(ctx, b, f, eh, start, s, k, m);
    if begins_at(f, eh, edge.to) {
        let j = choose|j: int| 0 <= j < f.len() && (#[trigger] f[j]).insn.va == edge.to && leads(f, eh, j);
        leaders_start_blocks(ctx, b, f, start, frame, art, j);
    }
    reveal_strlit("jmp");
    reveal_strlit("eh");
    reveal_strlit("fall");
    reveal_strlit("cjmp-true");
    reveal_strlit("cjmp-false");
    reveal_strlit("switch-case");
}

// ---------------------------------------------------------------------------
// Where a function ends
// ---------------------------------------------------------------------------

/// A direct target inside the window.
pub open spec fn in_window(x: DecodedInsn, start: u64, end_cap: u64) -> Option<u64> {
    match x.target {
        Some(t) => if t.0 != 0 && start <= t.0 < end_cap {
            Some(t.0)
        } else {
            None
        },
        None => None,
    }
}

/// The furthest address that a branch among the first `i` instructions leads
/// to inside the window, and at least `floor`.
pub open spec fn furthest(f: Seq<InsnFacts>, start: u64, end_cap: u64, floor: u64, i: nat) -> u64
    decreases i,
{
    if i == 0 {
        if floor > start {
            floor
        } else {
            start
        }
    } else {
        let before = furthest(f, start, end_cap, floor, (i - 1) as nat);
        let x = f[i - 1].insn;
        match in_window(x, start, end_cap) {
            Some(t) => if (x.kind == InsnKind::CondJump || x.kind == InsnKind::Jump) && t > before {
                t
            } else {
                before
            },
            None => before,
        }
    }
}

/// The function ends with instruction `i`: it does not go on, and nothing seen
/// so far leads past it.
pub open spec fn ends_at(ctx: Ctx, f: Seq<InsnFacts>, start: u64, end_cap: u64, floor: u64, i: int) -> bool {
    let x = f[i].insn;
    &&& after(f, i) > furthest(f, start, end_cap, floor, (i + 1) as nat)
    &&& match x.kind {
        InsnKind::Jump => match in_window(x, start, end_cap) {
            Some(t) => t < after(f, i),
            None => true,
        },
        InsnKind::Ret | InsnKind::Int => true,
        InsnKind::Call => never_returns(ctx, f[i]),
        _ => false,
    }
}

/// How many of the instructions from `i` on belong to the function, counted
/// from the first one.
pub open spec fn cut_from(ctx: Ctx, f: Seq<InsnFacts>, start: u64, end_cap: u64, floor: u64, i: int) -> int
    decreases f.len() - i,
{
    if i >= f.len() {
        f.len() as int
    } else if ends_at(ctx, f, start, end_cap, floor, i) {
        i + 1
    } else {
        cut_from(ctx, f, start, end_cap, floor, i + 1)
    }
}

/// How many of the instructions belong to the function that starts at `start`:
/// up to the first one after which control does not go on and past which no
/// branch inside the window leads.
pub fn truncate_to_function(ctx: &Ctx, f: &[InsnFacts], start: u64, end_cap: u64, floor: u64) -> (cut: usize)
    requires
        ctx.wf(),
        linear(f@),
    ensures
        cut <= f@.len(),
        cut == cut_from(*ctx, f@, start, end_cap, floor, 0),
{
    let mut reach: u64 = if floor > start {
        floor
    } else {
        start
    };
    let mut i: usize = 0;
    while i < f.len()
        invariant
            ctx.wf(),
            linear(f@),
            i <= f@.len(),
            reach == furthest(f@, start, end_cap, floor, i as nat),
            cut_from(*ctx, f@, start, end_cap, floor, 0) == cut_from(*ctx, f@, start, end_cap, floor, i as int),
        decreases f@.len() - i,
    {
        let x = &f[i];
        assert(after(f@, i as int) <= u64::MAX);
        let next: u64 = x.insn.va.0 + x.insn.len as u64;
        let inside: Option<u64> = match x.insn.target {
            Some(t) => if t.0 != 0 && t.0 >= start && t.0 < end_cap {
                Some(t.0)
            } else {
                None
            },
            None => None,
        };
        let ends = match x.insn.kind {
            InsnKind::CondJump => {
                match inside {
                    Some(t) => if t > reach {
                        reach = t;
                    },
                    None => {},
                }
                false
            },
            InsnKind::Jump => {
                match inside {
                    Some(t) => {
                        if t > reach {
                            reach = t;
                        }
                        t < next
                    },
                    None => true,
                }
            },
            InsnKind::Ret | InsnKind::Int => true,
            InsnKind::Call => next > reach && is_noreturn_call(ctx, x),
            _ => false,
        };
        if ends && next > reach {
            return i + 1;
        }
        i = i + 1;
    }
    f.len()
}

/// The furthest case inside the window that the resolved and bounded switches
/// of the first `i` instructions lead to.
pub open spec fn cases_reach(f: Seq<InsnFacts>, start: u64, end_cap: u64, i: nat) -> u64
    decreases i,
{
    if i == 0 {
        start
    } else {
        let before = cases_reach(f, start, end_cap, (i - 1) as nat);
        let x = f[i - 1];
        if x.insn.kind == InsnKind::Jump && x.insn.target is None {
            match x.guarded {
                Some(s) => if s.resolved && s.bound is Some {
                    furthest_case(s.cases@, start, end_cap, before, s.cases@.len())
                } else {
                    before
                },
                None => before,
            }
        } else {
            before
        }
    }
}

/// The furthest of the first `k` cases inside the window, and at least `from`.
pub open spec fn furthest_case(cases: Seq<Va>, start: u64, end_cap: u64, from: u64, k: nat) -> u64
    decreases k,
{
    if k == 0 {
        from
    } else {
        let before = furthest_case(cases, start, end_cap, from, (k - 1) as nat);
        let c = cases[k - 1].0;
        if start <= c < end_cap && c > before {
            c
        } else {
            before
        }
    }
}

/// How far any resolved and bounded switch among the first `n` instructions
/// reaches. A table whose size no guard bounds is no evidence.
pub fn switch_case_reach(f: &[InsnFacts], n: usize, start: u64, end_cap: u64) -> (r: u64)
    requires
        n <= f@.len(),
    ensures
        r == cases_reach(f@, start, end_cap, n as nat),
{
    let mut reach: u64 = start;
    let mut i: usize = 0;
    while i < n
        invariant
            i <= n <= f@.len(),
            reach == cases_reach(f@, start, end_cap, i as nat),
        decreases n - i,
    {
        let x = &f[i];
        if x.insn.kind == InsnKind::Jump && x.insn.target.is_none() {
            match &x.guarded {
                Some(s) => if s.resolved && s.bound.is_some() {
                    let ghost from = reach;
                    let mut k: usize = 0;
                    while k < s.cases.len()
                        invariant
                            k <= s.cases@.len(),
                            reach == furthest_case(s.cases@, start, end_cap, from, k as nat),
                        decreases s.cases@.len() - k,
                    {
                        let c: u64 = s.cases[k].0;
                        if c >= start && c < end_cap && c > reach {
                            reach = c;
                        }
                        k = k + 1;
                    }
                },
                None => {},
            }
        }
        i = i + 1;
    }
    reach
}

/// Where the block of an instruction begins, for recognizing its jump table:
/// after the last instruction before it that ends the flow.
pub open spec fn table_start(f: Seq<InsnKind>, i: int, calls_too: bool) -> int
    decreases i,
{
    if i <= 0 {
        0
    } else if ends_flow(f[i - 1]) || (calls_too && f[i - 1] == InsnKind::Call) {
        i
    } else {
        table_start(f, i - 1, calls_too)
    }
}

fn block_start_before(f: &[InsnKind], i: usize, calls_too: bool) -> (r: usize)
    requires
        i <= f@.len(),
    ensures
        r == table_start(f@, i as int, calls_too),
        r <= i,
{
    let mut k: usize = i;
    while k > 0
        invariant
            k <= i <= f@.len(),
            table_start(f@, i as int, calls_too) == table_start(f@, k as int, calls_too),
        decreases k,
    {
        if is_flow_end(f[k - 1]) || (calls_too && f[k - 1] == InsnKind::Call) {
            return k;
        }
        k = k - 1;
    }
    0
}

/// Where the block of instruction `i` begins, as far as recognizing a dispatch
/// for the graph goes.
pub fn dispatch_block_start(kinds: &[InsnKind], i: usize) -> (r: usize)
    requires
        i <= kinds@.len(),
    ensures
        r == table_start(kinds@, i as int, false),
        r <= i,
{
    block_start_before(kinds, i, false)
}

/// Where the block of instruction `i` begins, as far as the guard of a dispatch
/// is looked for.
pub fn guard_block_start(kinds: &[InsnKind], i: usize) -> (r: usize)
    requires
        i <= kinds@.len(),
    ensures
        r == table_start(kinds@, i as int, true),
        r <= i,
{
    block_start_before(kinds, i, true)
}

/// The end that is declared first for the function at the address, from index
/// `k` on.
pub open spec fn stated_end_from(fs: Seq<StatedFunction>, va: Va, k: int) -> Option<u64>
    decreases fs.len() - k,
{
    if k < 0 || k >= fs.len() {
        None
    } else if fs[k].start == va {
        Some(fs[k].end.0)
    } else {
        stated_end_from(fs, va, k + 1)
    }
}

/// The exclusive end that the image itself declares for the function at
/// `start`: a symbol's size, or else the declared functions.
pub open spec fn extent_of(ctx: Ctx, start: Va) -> Option<u64> {
    let by_size = match ctx.symbols {
        Some(t) => match t.size(start) {
            Some(n) => if n > 0 && start.0 + n <= u64::MAX {
                Some((start.0 + n) as u64)
            } else {
                None
            },
            None => None,
        },
        None => None,
    };
    if by_size is Some {
        by_size
    } else {
        match ctx.functions {
            Some(fs) => match stated_end_from(fs@, start, 0) {
                Some(e) => if e > start.0 {
                    Some(e)
                } else {
                    None
                },
                None => None,
            },
            None => None,
        }
    }
}

/// The exclusive end that the image itself declares for the function at
/// `start`.
pub fn declared_extent(ctx: &Ctx, start: Va) -> (r: Option<u64>)
    ensures
        r == extent_of(*ctx, start),
        r matches Some(e) ==> e > start.0,
{
    match ctx.symbols {
        Some(t) => match t.symbol_size(start) {
            Some(n) => match start.0.checked_add(n) {
                Some(end) => if end > start.0 {
                    return Some(end);
                },
                None => {},
            },
            None => {},
        },
        None => {},
    }
    match ctx.functions {
        Some(fs) => match find_stated_end(fs, start) {
            Some(e) => if e > start.0 {
                Some(e)
            } else {
                None
            },
            None => None,
        },
        None => None,
    }
}

fn find_stated_end(fs: &[StatedFunction], start: Va) -> (r: Option<u64>)
    ensures
        r == stated_end_from(fs@, start, 0),
{
    let mut k: usize = 0;
    while k < fs.len()
        invariant
            k <= fs@.len(),
            stated_end_from(fs@, start, 0) == stated_end_from(fs@, start, k as int),
        decreases fs@.len() - k,
    {
        if fs[k].start.0 == start.0 {
            return Some(fs[k].end.0);
        }
        k = k + 1;
    }
    None
}

/// Largest declared extent that is read for one function. A length that comes
/// out of an image never sizes a read without bound.
pub const MAX_DECLARED_EXTENT: usize = 0x10_0000;

/// What to analyze.
#[derive(Clone, Copy, Debug, PartialEq, Eq, Structural)]
pub struct CfgInput {
    pub start: Va,
    /// How many bytes a function may take when its extent is not declared.
    pub max_bytes: usize,
    /// Stop at the end of the function.
    pub auto_end: bool,
}

impl CfgInput {
    pub fn new(start: Va, max_bytes: usize) -> (r: CfgInput)
        ensures
            r == (CfgInput { start, max_bytes, auto_end: true }),
    {
        CfgInput { start, max_bytes, auto_end: true }
    }
}

/// Control-flow graph construction.
#[derive(Clone, Copy, Debug, PartialEq, Eq, Structural)]
pub struct CfgPass;

/// How many bytes to read for a function: the budget, or the declared extent
/// where that is longer and believable.
pub open spec fn window_of(ctx: Ctx, input: CfgInput) -> nat {
    match extent_of(ctx, input.start) {
        Some(e) => {
            let n = e - input.start.0;
            let kept = if n < MAX_DECLARED_EXTENT {
                n
            } else {
                MAX_DECLARED_EXTENT as int
            };
            if kept > input.max_bytes {
                kept as nat
            } else {
                input.max_bytes as nat
            }
        },
        None => input.max_bytes as nat,
    }
}

/// How many instructions from `i` on start below `end`, counted from the first.
pub open spec fn below_from(f: Seq<InsnFacts>, end: u64, i: int) -> int
    decreases f.len() - i,
{
    if i >= f.len() {
        f.len() as int
    } else if f[i].insn.va.0 >= end {
        i
    } else {
        below_from(f, end, i + 1)
    }
}

/// Cuts at the end of the function, and again further on while a switch in
/// view has cases beyond the cut, at most `rounds` times.
pub open spec fn settle(ctx: Ctx, f: Seq<InsnFacts>, start: u64, end_cap: u64, floor: u64, rounds: nat) -> int
    decreases rounds,
{
    let cut = cut_from(ctx, f, start, end_cap, floor, 0);
    if rounds == 0 {
        cut
    } else {
        let reach = cases_reach(f, start, end_cap, cut as nat);
        if reach <= floor {
            cut
        } else {
            settle(ctx, f, start, end_cap, reach, (rounds - 1) as nat)
        }
    }
}

/// How many of the decoded instructions belong to the function: those inside
/// the declared extent, where it lies within the bytes that were read, and
/// otherwise those up to the end that control flow gives.
pub open spec fn member_count(ctx: Ctx, input: CfgInput, f: Seq<InsnFacts>, read: nat) -> int {
    let end_cap = (input.start.0 + read) as u64;
    if !input.auto_end {
        f.len() as int
    } else {
        match extent_of(ctx, input.start) {
            Some(e) => if e <= end_cap {
                below_from(f, e, 0)
            } else {
                settle(ctx, f, input.start.0, end_cap, input.start.0, 3)
            },
            None => settle(ctx, f, input.start.0, end_cap, input.start.0, 3),
        }
    }
}

/// The bytes that a function is decoded from.
pub open spec fn code_of(ctx: Ctx, input: CfgInput) -> Option<Seq<u8>> {
    ctx.source.read_of(input.start.0, window_of(ctx, input))
}

impl CfgPass {
    pub fn name(&self) -> (r: &'static str)
        ensures
            r@ == "ir.cfg"@,
    {
        "ir.cfg"
    }

    /// The bytes to decode for a function.
    pub fn code(&self, ctx: &Ctx, input: CfgInput) -> (r: Result<Vec<u8>, CoreError>)
        ensures
            match r {
                Ok(b) => code_of(*ctx, input) == Some(b@),
                Err(e) => code_of(*ctx, input) is None && e == CoreError::Source(
                    crate::source::SourceError::Unmapped(input.start),
                ),
            },
    {
        let want: usize = match declared_extent(ctx, input.start) {
            Some(e) => {
                let n: u64 = e - input.start.0;
                let kept: usize = if n < MAX_DECLARED_EXTENT as u64 {
                    n as usize
                } else {
                    MAX_DECLARED_EXTENT
                };
                if kept > input.max_bytes {
                    kept
                } else {
                    input.max_bytes
                }
            },
            None => input.max_bytes,
        };
        match ctx.source.read(input.start, want) {
            Ok(b) => Ok(b),
            Err(e) => Err(CoreError::Source(e)),
        }
    }

    /// How many of the instructions decoded from `code` belong to the function.
    pub fn members(&self, ctx: &Ctx, input: CfgInput, f: &[InsnFacts], code: &[u8]) -> (n: usize)
        requires
            ctx.wf(),
            linear(f@),
            input.start.0 + code@.len() <= u64::MAX,
        ensures
            n <= f@.len(),
            n == member_count(*ctx, input, f@, code@.len()),
    {
        let start: u64 = input.start.0;
        let end_cap: u64 = start + code.len() as u64;
        if !input.auto_end {
            return f.len();
        }
        match declared_extent(ctx, input.start) {
            Some(e) => if e <= end_cap {
                let mut i: usize = 0;
                while i < f.len() && f[i].insn.va.0 < e
                    invariant
                        i <= f@.len(),
                        below_from(f@, e, 0) == below_from(f@, e, i as int),
                    decreases f@.len() - i,
                {
                    i = i + 1;
                }
                return i;
            },
            None => {},
        }
        let mut floor: u64 = start;
        let mut cut: usize = truncate_to_function(ctx, f, start, end_cap, floor);
        let mut left: usize = 3;
        let mut going = true;
        while going
            invariant
                ctx.wf(),
                linear(f@),
                cut <= f@.len(),
                left <= 3,
                going ==> cut == cut_from(*ctx, f@, start, end_cap, floor, 0),
                going ==> settle(*ctx, f@, start, end_cap, start, 3) == settle(
                    *ctx,
                    f@,
                    start,
                    end_cap,
                    floor,
                    left as nat,
                ),
                !going ==> cut == settle(*ctx, f@, start, end_cap, start, 3),
            decreases left, going as int,
        {
            if left == 0 {
                going = false;
            } else {
                let reach: u64 = switch_case_reach(f, cut, start, end_cap);
                if reach <= floor {
                    going = false;
                } else {
                    floor = reach;
                    cut = truncate_to_function(ctx, f, start, end_cap, floor);
                    left = left - 1;
                }
            }
        }
        cut
    }

    /// The control-flow graph of the function, from the instructions that were
    /// decoded from `code` and the frame that its members reveal.
    pub fn run(
        &self,
        ctx: &Ctx,
        b: &BuildFacts,
        input: CfgInput,
        f: &[InsnFacts],
        code: &[u8],
        frame: FrameInfo,
    ) -> (art: CfgArtifact)
        requires
            ctx.wf(),
            linear(f@),
            2 * f@.len() <= usize::MAX,
            input.start.0 + code@.len() <= u64::MAX,
        ensures
            is_cfg(
                *ctx,
                *b,
                f@.take(member_count(*ctx, input, f@, code@.len())),
                eh_of(*ctx),
                input.start,
                frame,
                art,
            ),
    {
        let n: usize = self.members(ctx, input, f, code);
        let own = vstd::slice::slice_subrange(f, 0, n);
        proof {
            assert(own@ =~= f@.take(n as int));
            assert(linear(own@)) by {
                assert forall|i: int| 0 <= i < own@.len() implies #[trigger] after(own@, i) <= u64::MAX by {
                    assert(after(f@, i) <= u64::MAX);
                }
            }
        }
        build(ctx, b, own, input.start, frame)
    }
}

// ---------------------------------------------------------------------------
// A summary in words
// ---------------------------------------------------------------------------

/// `true` or `false`.
pub open spec fn yes_no(b: bool) -> Seq<char> {
    if b {
        "true"@
    } else {
        "false"@
    }
}

/// The opening line of a summary.
pub open spec fn head_line(art: CfgArtifact) -> Seq<char> {
    "Function "@ + art.start.text() + " .. "@ + art.end.text() + " — "@ + dec(art.insn_count as nat)
        + " instructions in "@ + dec(art.block_count as nat) + " blocks"@
}

/// The line of counts of a summary.
pub open spec fn stats_line(s: CfgStats) -> Seq<char> {
    "stats: "@ + dec(s.returns as nat) + " returns, "@ + dec(s.calls as nat) + " calls, "@ + dec(
        s.indirect_branches as nat,
    ) + " indirect branches, "@ + dec(s.tail_calls as nat) + " tail calls, "@ + dec(s.noreturn_calls as nat)
        + " noreturn calls"@
}

/// The line of a summary on the stack frame.
pub open spec fn frame_line(f: FrameInfo) -> Seq<char> {
    "frame: size=0x"@ + hex(f.frame_size as nat) + " uses_rbp="@ + yes_no(f.uses_rbp) + " spilled=["@ + join(
        text_list(f.spilled_regs@),
        ","@,
    ) + "]"@
}

/// An edge in a summary.
pub open spec fn edge_text(e: Successor) -> Seq<char> {
    e.kind@ + "→"@ + e.to.text()
}

/// The line of a summary on a block.
pub open spec fn block_line(b: CfgBlock) -> Seq<char> {
    "  block "@ + dec(b.id as nat) + " ["@ + b.start.text() + ".."@ + b.end.text() + "] "@ + b.terminator@ + " ("@
        + dec(b.insns@.len()) + " insns) "@ + join(
        b.successors@.map_values(|e: Successor| edge_text(e)),
        " "@,
    )
}

/// Whom a call site calls, in words.
pub open spec fn callee_of(c: Callsite) -> Seq<char> {
    match c.target_name {
        Some(n) => n@,
        None => match c.target {
            Some(t) => t.text(),
            None => "?"@,
        },
    }
}

/// The line of a summary on a call site.
pub open spec fn call_line(c: Callsite) -> Seq<char> {
    "  "@ + c.from.text() + " "@ + c.kind@ + " -> "@ + callee_of(c)
}

/// The lines of a summary on a switch.
pub open spec fn switch_lines(s: ResolvedSwitch) -> Seq<Seq<char>> {
    let table = match s.table {
        Some(t) => t.text(),
        None => "?"@,
    };
    let bound = match s.bound {
        Some(b) => dec(b as nat),
        None => "?"@,
    };
    let index = match s.index_reg {
        Some(r) => r@,
        None => "?"@,
    };
    seq![
        "  "@ + s.at.text() + " "@ + s.kind@ + " table="@ + table + " idx="@ + index + " scale="@ + dec(
            s.scale as nat,
        ) + " bound="@ + bound + " -> "@ + dec(s.cases@.len()) + " cases"@,
    ] + Seq::new(s.cases@.len(), |n: int| "    case["@ + dec(n as nat) + "] -> "@ + s.cases@[n].text())
}

/// The lines on the first `k` switches.
pub open spec fn all_switch_lines(s: Seq<ResolvedSwitch>, k: nat) -> Seq<Seq<char>>
    decreases k,
{
    if k == 0 {
        Seq::empty()
    } else {
        all_switch_lines(s, (k - 1) as nat) + switch_lines(s[k - 1])
    }
}

/// The summary of a graph.
pub open spec fn summary(art: CfgArtifact) -> Seq<Seq<char>> {
    let frame = if art.frame.frame_size > 0 || art.frame.uses_rbp || art.frame.spilled_regs@.len() > 0 {
        seq![frame_line(art.frame)]
    } else {
        Seq::empty()
    };
    let calls = if art.callsites@.len() > 0 {
        seq!["callsites: "@ + dec(art.callsites@.len())] + art.callsites@.map_values(|c: Callsite| call_line(c))
    } else {
        Seq::empty()
    };
    let switches = if art.switches@.len() > 0 {
        seq!["switches: "@ + dec(art.switches@.len())] + all_switch_lines(art.switches@, art.switches@.len())
    } else {
        Seq::empty()
    };
    seq![head_line(art)] + seq![stats_line(art.stats)] + frame + art.blocks@.map_values(
        |b: CfgBlock| block_line(b),
    ) + calls + switches
}

fn text_of(start: &str) -> (s: String)
    ensures
        s@ == start@,
{
    String::from_str(start)
}

fn put_dec(s: &mut String, n: u64)
    ensures
        final(s)@ == old(s)@ + dec(n as nat),
{
    s.append(decimal(n).as_str());
}

fn put_va(s: &mut String, va: Va)
    ensures
        final(s)@ == old(s)@ + va.text(),
{
    s.append(va.to_text().as_str());
}

fn push_line(lines: &mut Vec<String>, s: String)
    ensures
        text_list(final(lines)@) == text_list(old(lines)@).push(s@),
{
    let ghost t = s@;
    lines.push(s);
    assert(text_list(lines@) =~= text_list(old(lines)@).push(t));
}

fn explain_block(b: &CfgBlock) -> (s: String)
    ensures
        s@ == block_line(*b),
{
    let mut edges: Vec<String> = Vec::new();
    let mut k: usize = 0;
    while k < b.successors.len()
        invariant
            k <= b.successors@.len(),
            text_list(edges@) == b.successors@.take(k as int).map_values(|e: Successor| edge_text(e)),
        decreases b.successors@.len() - k,
    {
        let e = &b.successors[k];
        let mut t = e.kind.clone();
        t.append("→");
        put_va(&mut t, e.to);
        push_line(&mut edges, t);
        k = k + 1;
        assert(text_list(edges@) =~= b.successors@.take(k as int).map_values(|e: Successor| edge_text(e)));
    }
    assert(b.successors@.take(k as int) =~= b.successors@);
    let mut s = text_of("  block ");
    put_dec(&mut s, b.id as u64);
    s.append(" [");
    put_va(&mut s, b.start);
    s.append("..");
    put_va(&mut s, b.end);
    s.append("] ");
    s.append(b.terminator.as_str());
    s.append(" (");
    put_dec(&mut s, b.insns.len() as u64);
    s.append(" insns) ");
    s.append(join_texts(&edges, " ").as_str());
    s
}

fn explain_call(c: &Callsite) -> (s: String)
    ensures
        s@ == call_line(*c),
{
    let mut s = text_of("  ");
    put_va(&mut s, c.from);
    s.append(" ");
    s.append(c.kind.as_str());
    s.append(" -> ");
    match &c.target_name {
        Some(n) => s.append(n.as_str()),
        None => match c.target {
            Some(t) => put_va(&mut s, t),
            None => s.append("?"),
        },
    }
    s
}

fn explain_switch(sw: &ResolvedSwitch, lines: &mut Vec<String>)
    ensures
        text_list(final(lines)@) == text_list(old(lines)@) + switch_lines(*sw),
{
    let mut s = text_of("  ");
    put_va(&mut s, sw.at);
    s.append(" ");
    s.append(sw.kind.as_str());
    s.append(" table=");
    match sw.table {
        Some(t) => put_va(&mut s, t),
        None => s.append("?"),
    }
    s.append(" idx=");
    match &sw.index_reg {
        Some(r) => s.append(r.as_str()),
        None => s.append("?"),
    }
    s.append(" scale=");
    put_dec(&mut s, sw.scale as u64);
    s.append(" bound=");
    match sw.bound {
        Some(b) => put_dec(&mut s, b),
        None => s.append("?"),
    }
    s.append(" -> ");
    put_dec(&mut s, sw.cases.len() as u64);
    s.append(" cases");
    let ghost first = s@;
    push_line(lines, s);
    let ghost rest = Seq::new(
        sw.cases@.len(),
        |n: int| "    case["@ + dec(n as nat) + "] -> "@ + sw.cases@[n].text(),
    );
    let mut n: usize = 0;
    while n < sw.cases.len()
        invariant
            n <= sw.cases@.len(),
            rest == Seq::new(
                sw.cases@.len(),
                |n: int| "    case["@ + dec(n as nat) + "] -> "@ + sw.cases@[n].text(),
            ),
            text_list(lines@) == text_list(old(lines)@).push(first) + rest.take(n as int),
        decreases sw.cases@.len() - n,
    {
        let mut c = text_of("    case[");
        put_dec(&mut c, n as u64);
        c.append("] -> ");
        put_va(&mut c, sw.cases[n]);
        push_line(lines, c);
        n = n + 1;
        assert(text_list(lines@) =~= text_list(old(lines)@).push(first) + rest.take(n as int));
    }
    assert(rest.take(n as int) =~= rest);
    assert(text_list(lines@) =~= text_list(old(lines)@) + switch_lines(*sw));
}

/// A summary of a graph in words, line by line.
pub fn explain(art: &CfgArtifact) -> (lines: Vec<String>)
    ensures
        text_list(lines@) == summary(*art),
{
    let mut lines: Vec<String> = Vec::new();
    let mut s = text_of("Function ");
    put_va(&mut s, art.start);
    s.append(" .. ");
    put_va(&mut s, art.end);
    s.append(" — ");
    put_dec(&mut s, art.insn_count as u64);
    s.append(" instructions in ");
    put_dec(&mut s, art.block_count as u64);
    s.append(" blocks");
    push_line(&mut lines, s);
    let mut t = text_of("stats: ");
    put_dec(&mut t, art.stats.returns as u64);
    t.append(" returns, ");
    put_dec(&mut t, art.stats.calls as u64);
    t.append(" calls, ");
    put_dec(&mut t, art.stats.indirect_branches as u64);
    t.append(" indirect branches, ");
    put_dec(&mut t, art.stats.tail_calls as u64);
    t.append(" tail calls, ");
    put_dec(&mut t, art.stats.noreturn_calls as u64);
    t.append(" noreturn calls");
    push_line(&mut lines, t);
    let ghost mut all = seq![head_line(*art)] + seq![stats_line(art.stats)];
    assert(text_list(lines@) =~= all);
    if art.frame.frame_size > 0 || art.frame.uses_rbp || art.frame.spilled_regs.len() > 0 {
        let mut u = text_of("frame: size=0x");
        u.append(hexadecimal(art.frame.frame_size, false, 0).as_str());
        u.append(" uses_rbp=");
        u.append(
            if art.frame.uses_rbp {
                "true"
            } else {
                "false"
            },
        );
        u.append(" spilled=[");
        u.append(join_texts(&art.frame.spilled_regs, ",").as_str());
        u.append("]");
        push_line(&mut lines, u);
        proof {
            all = all + seq![frame_line(art.frame)];
        }
    } else {
        proof {
            all = all + Seq::<Seq<char>>::empty();
        }
    }
    assert(text_list(lines@) =~= all);
    let ghost before_blocks = all;
    let mut k: usize = 0;
    while k < art.blocks.len()
        invariant
            k <= art.blocks@.len(),
            text_list(lines@) == before_blocks + art.blocks@.take(k as int).map_values(
                |b: CfgBlock| block_line(b),
            ),
        decreases art.blocks@.len() - k,
    {
        push_line(&mut lines, explain_block(&art.blocks[k]));
        k = k + 1;
        assert(text_list(lines@) =~= before_blocks + art.blocks@.take(k as int).map_values(
            |b: CfgBlock| block_line(b),
        ));
    }
    proof {
        assert(art.blocks@.take(k as int) =~= art.blocks@);
        all = all + art.blocks@.map_values(|b: CfgBlock| block_line(b));
    }
    if art.callsites.len() > 0 {
        let mut u = text_of("callsites: ");
        put_dec(&mut u, art.callsites.len() as u64);
        let ghost title = u@;
        push_line(&mut lines, u);
        let mut c: usize = 0;
        while c < art.callsites.len()
            invariant
                c <= art.callsites@.len(),
                text_list(lines@) == all.push(title) + art.callsites@.take(c as int).map_values(
                    |c: Callsite| call_line(c),
                ),
            decreases art.callsites@.len() - c,
        {
            push_line(&mut lines, explain_call(&art.callsites[c]));
            c = c + 1;
            assert(text_list(lines@) =~= all.push(title) + art.callsites@.take(c as int).map_values(
                |c: Callsite| call_line(c),
            ));
        }
        proof {
            assert(art.callsites@.take(c as int) =~= art.callsites@);
            all = all + (seq![title] + art.callsites@.map_values(|c: Callsite| call_line(c)));
        }
    } else {
        proof {
            all = all + Seq::<Seq<char>>::empty();
        }
    }
    assert(text_list(lines@) =~= all);
    if art.switches.len() > 0 {
        let mut u = text_of("switches: ");
        put_dec(&mut u, art.switches.len() as u64);
        let ghost title = u@;
        push_line(&mut lines, u);
        let mut c: usize = 0;
        while c < art.switches.len()
            invariant
                c <= art.switches@.len(),
                text_list(lines@) == all.push(title) + all_switch_lines(art.switches@, c as nat),
            decreases art.switches@.len() - c,
        {
            let ghost sofar = all.push(title) + all_switch_lines(art.switches@, c as nat);
            explain_switch(&art.switches[c], &mut lines);
            c = c + 1;
            assert(text_list(lines@) =~= all.push(title) + all_switch_lines(art.switches@, c as nat));
        }
        proof {
            all = all + (seq![title] + all_switch_lines(art.switches@, art.switches@.len()));
        }
    } else {
        proof {
            all = all + Seq::<Seq<char>>::empty();
        }
    }
    assert(text_list(lines@) =~= all);
    lines
}

// ---------------------------------------------------------------------------
// What a graph says of its instructions
// ---------------------------------------------------------------------------

/// The block has an edge of the kind to the address.
pub open spec fn goes(b: CfgBlock, kind: Seq<char>, to: Va) -> bool {
    exists|m: int| 0 <= m < b.successors@.len() && (#[trigger] b.successors@[m]).kind@ == kind && b.successors@[m].to == to
}

/// Instruction `i` is the last one of the block.
pub open spec fn ends_with_insn(b: CfgBlock, f: Seq<InsnFacts>, i: int) -> bool {
    &&& 0 <= i < f.len()
    &&& b.insns@.len() > 0
    &&& b.insns@.last().va == f[i].insn.va
}

proof fn lemma_art_block(
    ctx: Ctx,
    b: BuildFacts,
    f: Seq<InsnFacts>,
    start: Va,
    frame: FrameInfo,
    art: CfgArtifact,
    k: int,
) -> (s: int)
    requires
        is_cfg(ctx, b, f, eh_of(ctx), start, frame, art),
        0 <= k < art.blocks@.len(),
    ensures
        0 <= s < block_end(ctx, f, eh_of(ctx), s) <= f.len(),
        block_node(art.blocks@[k]) == block_of(ctx, b, f, eh_of(ctx), start, s, k),
        art.blocks@[k].start == f[s].insn.va,
        art.blocks@[k].insns@.len() == block_end(ctx, f, eh_of(ctx), s) - s,
        forall|j: int|
            0 <= j < art.blocks@[k].insns@.len() ==> insn_node(#[trigger] art.blocks@[k].insns@[j]) == node_of(
                ctx,
                b,
                f,
                s,
                s + j,
            ),
{
    let eh = eh_of(ctx);
    let nodes = block_nodes(art.blocks@);
    let s = lemma_block_at(ctx, b, f, eh, start, 0, 0, k);
    lemma_block_end(ctx, f, eh, s);
    assert(nodes[k] == block_node(art.blocks@[k]));
    let blk = art.blocks@[k];
    let e = block_end(ctx, f, eh, s);
    assert(block_node(blk).insns.len() == e - s);
    assert forall|j: int| 0 <= j < blk.insns@.len() implies insn_node(#[trigger] blk.insns@[j]) == node_of(
        ctx,
        b,
        f,
        s,
        s + j,
    ) by {
        assert(block_node(blk).insns[j] == insn_node(blk.insns@[j]));
    }
    s
}

/// The edges of a block are those of its last instruction, and then exceptional ones.
proof fn lemma_art_edges(
    ctx: Ctx,
    b: BuildFacts,
    f: Seq<InsnFacts>,
    start: Va,
    frame: FrameInfo,
    art: CfgArtifact,
    k: int,
    i: int,
) -> (s: int)
    requires
        linear(f),
        is_cfg(ctx, b, f, eh_of(ctx), start, frame, art),
        0 <= k < art.blocks@.len(),
        ends_with_insn(art.blocks@[k], f, i),
    ensures
        0 <= s <= i,
        art.blocks@[k].start == f[s].insn.va,
        i + 1 == block_end(ctx, f, eh_of(ctx), s),
        art.blocks@[k].terminator@ == terminator_of(ctx, f, start, i),
        edges_of(art.blocks@[k].successors@) == with_eh(
            flow_edges(ctx, b, f, start, i),
            eh_of(ctx),
            eh_of(ctx).len(),
            f[s].insn.va.0 as int,
            after(f, i),
        ),
        flow_edges(ctx, b, f, start, i).len() <= art.blocks@[k].successors@.len(),
        forall|m: int|
            0 <= m < flow_edges(ctx, b, f, start, i).len() ==> {
                &&& (#[trigger] art.blocks@[k].successors@[m]).to == flow_edges(ctx, b, f, start, i)[m].to
                &&& art.blocks@[k].successors@[m].kind@ == flow_edges(ctx, b, f, start, i)[m].kind
                &&& art.blocks@[k].successors@[m].confidence == flow_edges(ctx, b, f, start, i)[m].confidence
            },
        forall|m: int|
            flow_edges(ctx, b, f, start, i).len() <= m < art.blocks@[k].successors@.len() ==> (
            #[trigger] art.blocks@[k].successors@[m]).kind@ == "eh"@,
{
    let eh = eh_of(ctx);
    let s = lemma_art_block(ctx, b, f, start, frame, art, k);
    let blk = art.blocks@[k];
    let e = block_end(ctx, f, eh, s);
    assert(insn_node(blk.insns@[e - s - 1]) == node_of(ctx, b, f, s, e - 1));
    assert(f[e - 1].insn.va == f[i].insn.va);
    assert(i == e - 1) by {
        if i < e - 1 {
            assert(f[i].insn.va.0 < f[e - 1].insn.va.0);
        } else if i > e - 1 {
            assert(f[e - 1].insn.va.0 < f[i].insn.va.0);
        }
    }
    let base = flow_edges(ctx, b, f, start, i);
    let lo = f[s].insn.va.0 as int;
    let all = with_eh(base, eh, eh.len(), lo, after(f, i));
    assert(block_node(blk).successors == edges_of(blk.successors@));
    assert(edges_of(blk.successors@) == all);
    lemma_eh_grows(base, eh, eh.len(), lo, after(f, i));
    assert forall|m: int| 0 <= m < blk.successors@.len() implies (#[trigger] blk.successors@[m]).to == all[m].to
        && blk.successors@[m].kind@ == all[m].kind && blk.successors@[m].confidence == all[m].confidence by {
        assert(edges_of(blk.successors@)[m] == all[m]);
    }
    assert forall|m: int| 0 <= m < base.len() implies {
        &&& (#[trigger] blk.successors@[m]).to == base[m].to
        &&& blk.successors@[m].kind@ == base[m].kind
        &&& blk.successors@[m].confidence == base[m].confidence
    } by {
        lemma_eh_edges(base, eh, eh.len(), lo, after(f, i), m);
    }
    assert forall|m: int| base.len() <= m < blk.successors@.len() implies (#[trigger] blk.successors@[m]).kind@
        == "eh"@ by {
        lemma_eh_edges(base, eh, eh.len(), lo, after(f, i), m);
    }
    s
}

proof fn lemma_kinds_differ()
    ensures
        "jmp"@.len() == 3,
        "eh"@.len() == 2,
        "fall"@.len() == 4,
        "cjmp-true"@.len() == 9,
        "cjmp-false"@.len() == 10,
        "switch-case"@.len() == 11,
{
    reveal_strlit("jmp");
    reveal_strlit("eh");
    reveal_strlit("fall");
    reveal_strlit("cjmp-true");
    reveal_strlit("cjmp-false");
    reveal_strlit("switch-case");
}

/// A block that ends in a conditional jump goes on, when the jump is taken, to the
/// target of the jump and, when it is not, to the address behind the jump. It does
/// so wherever an instruction stands at that address, and nowhere else.
pub proof fn conditional_jumps_have_two_sides(
    ctx: Ctx,
    b: BuildFacts,
    f: Seq<InsnFacts>,
    start: Va,
    frame: FrameInfo,
    art: CfgArtifact,
    k: int,
    i: int,
    to: Va,
)
    requires
        linear(f),
        is_cfg(ctx, b, f, eh_of(ctx), start, frame, art),
        0 <= k < art.blocks@.len(),
        ends_with_insn(art.blocks@[k], f, i),
        f[i].insn.kind == InsnKind::CondJump,
    ensures
        goes(art.blocks@[k], "cjmp-true"@, to) <==> f[i].insn.target == Some(to) && exists|j: int|
            0 <= j < f.len() && (#[trigger] f[j]).insn.va == to,
        goes(art.blocks@[k], "cjmp-false"@, to) <==> to.0 == f[i].insn.va.0 + f[i].insn.len && exists|j: int|
            0 <= j < f.len() && (#[trigger] f[j]).insn.va == to,
        !goes(art.blocks@[k], "jmp"@, to),
        !goes(art.blocks@[k], "fall"@, to),
        !goes(art.blocks@[k], "switch-case"@, to),
        art.blocks@[k].terminator@ == "cjmp"@,
{
    let blk = art.blocks@[k];
    let s = lemma_art_edges(ctx, b, f, start, frame, art, k, i);
    let base = flow_edges(ctx, b, f, start, i);
    lemma_kinds_differ();
    assert(after(f, i) <= u64::MAX);
    let x = f[i].insn;
    let stands = exists|j: int| 0 <= j < f.len() && (#[trigger] f[j]).insn.va == to;
    assert(stands == valid_at(f, to.0 as int)) by {
        if stands {
            let j = choose|j: int| 0 <= j < f.len() && (#[trigger] f[j]).insn.va == to;
            assert(f[j].insn.va.0 == to.0);
        }
        if valid_at(f, to.0 as int) {
            let j = choose|j: int| 0 <= j < f.len() && (#[trigger] f[j]).insn.va.0 == to.0 as int;
            assert(f[j].insn.va == to);
        }
    }
    if x.target == Some(to) && stands {
        assert(base[0] == (Edge { to, kind: "cjmp-true"@, confidence: 100 }));
        assert(blk.successors@[0].kind@ == "cjmp-true"@ && blk.successors@[0].to == to);
    }
    if to.0 == after(f, i) && stands {
        let n = base.len() - 1;
        assert(base[n] == (Edge { to, kind: "cjmp-false"@, confidence: 100 }));
        assert(blk.successors@[n].kind@ == "cjmp-false"@ && blk.successors@[n].to == to);
    }
    assert forall|m: int| 0 <= m < base.len() implies (#[trigger] base[m]).kind == "cjmp-true"@ && x.target == Some(
        base[m].to,
    ) && valid_at(f, base[m].to.0 as int) || base[m].kind == "cjmp-false"@ && base[m].to.0 == after(f, i) && valid_at(
        f,
        base[m].to.0 as int,
    ) by {}
    assert forall|kind: Seq<char>| #[trigger] goes(blk, kind, to) && kind != "eh"@ implies exists|m: int|
        0 <= m < base.len() && (#[trigger] base[m]).kind == kind && base[m].to == to by {
        let m = choose|m: int|
            0 <= m < blk.successors@.len() && (#[trigger] blk.successors@[m]).kind@ == kind && blk.successors@[m].to == to;
        assert(base[m].kind == kind);
    }
}

/// A block that ends in a direct jump within the function goes to the target of the
/// jump and nowhere else; a direct jump out of the function, or one through a slot
/// that is known by name, is a tail call and leaves the block no such edge.
pub proof fn jumps_go_to_their_targets(
    ctx: Ctx,
    b: BuildFacts,
    f: Seq<InsnFacts>,
    start: Va,
    frame: FrameInfo,
    art: CfgArtifact,
    k: int,
    i: int,
    t: Va,
    m: int,
)
    requires
        linear(f),
        is_cfg(ctx, b, f, eh_of(ctx), start, frame, art),
        0 <= k < art.blocks@.len(),
        ends_with_insn(art.blocks@[k], f, i),
        f[i].insn.kind == InsnKind::Jump,
        f[i].insn.target == Some(t),
        0 <= m < art.blocks@[k].successors@.len(),
    ensures
        art.blocks@[k].successors@[m].kind@ == "jmp"@ || art.blocks@[k].successors@[m].kind@ == "eh"@,
        start.0 <= t.0 < art.end.0 ==> {
            &&& goes(art.blocks@[k], "jmp"@, t)
            &&& art.blocks@[k].successors@[m].kind@ == "jmp"@ ==> art.blocks@[k].successors@[m].to == t
            &&& art.blocks@[k].terminator@ == "jmp"@
        },
        !(start.0 <= t.0 < art.end.0) ==> {
            &&& art.blocks@[k].successors@[m].kind@ == "eh"@
            &&& art.blocks@[k].terminator@ == "tail-call"@
        },
{
    let blk = art.blocks@[k];
    let s = lemma_art_edges(ctx, b, f, start, frame, art, k, i);
    let base = flow_edges(ctx, b, f, start, i);
    lemma_kinds_differ();
    if start.0 <= t.0 < art.end.0 {
        assert(base =~= seq![Edge { to: t, kind: "jmp"@, confidence: 100 }]);
        assert(blk.successors@[0].kind@ == "jmp"@ && blk.successors@[0].to == t);
    } else {
        assert(base =~= Seq::empty());
    }
}

proof fn lemma_case_kept(f: Seq<InsnFacts>, s: ResolvedSwitch, confidence: u32, m: nat, c: int)
    requires
        m <= s.cases@.len(),
        0 <= c < m,
        valid_at(f, s.cases@[c].0 as int),
    ensures
        exists|k: int|
            0 <= k < case_edges(f, s, confidence, m).len() && (#[trigger] case_edges(f, s, confidence, m)[k])
                == (Edge { to: s.cases@[c], kind: "switch-case"@, confidence }),
    decreases m,
{
    let all = case_edges(f, s, confidence, m);
    let before = case_edges(f, s, confidence, (m - 1) as nat);
    if c == m - 1 {
        assert(all[before.len() as int] == (Edge { to: s.cases@[c], kind: "switch-case"@, confidence }));
    } else {
        lemma_case_kept(f, s, confidence, (m - 1) as nat, c);
        let k = choose|k: int|
            0 <= k < before.len() && (#[trigger] before[k]) == (Edge { to: s.cases@[c], kind: "switch-case"@, confidence });
        assert(all[k] == before[k]);
    }
}

proof fn lemma_case_kinds(f: Seq<InsnFacts>, s: ResolvedSwitch, confidence: u32, m: nat, k: int)
    requires
        m <= s.cases@.len(),
        0 <= k < case_edges(f, s, confidence, m).len(),
    ensures
        case_edges(f, s, confidence, m)[k].kind == "switch-case"@,
        case_edges(f, s, confidence, m)[k].confidence == confidence,
    decreases m,
{
    if m > 0 && k < case_edges(f, s, confidence, (m - 1) as nat).len() {
        lemma_case_kinds(f, s, confidence, (m - 1) as nat, k);
    }
}

/// A block that ends in an indirect jump which is no tail call goes to every case of
/// its switch at which an instruction stands, and nowhere else; without a switch it
/// goes nowhere.
pub proof fn switches_go_to_their_cases(
    ctx: Ctx,
    b: BuildFacts,
    f: Seq<InsnFacts>,
    start: Va,
    frame: FrameInfo,
    art: CfgArtifact,
    k: int,
    i: int,
    to: Va,
)
    requires
        linear(f),
        is_cfg(ctx, b, f, eh_of(ctx), start, frame, art),
        0 <= k < art.blocks@.len(),
        ends_with_insn(art.blocks@[k], f, i),
        f[i].insn.kind == InsnKind::Jump,
        f[i].insn.target is None,
    ensures
        target_name_of(ctx, f[i]) is None ==> {
            &&& art.blocks@[k].terminator@ == "ijmp"@
            &&& (goes(art.blocks@[k], "switch-case"@, to) <==> f[i].dispatch is Some && f[i].dispatch->0.cases@.contains(
                to,
            ) && exists|j: int| 0 <= j < f.len() && (#[trigger] f[j]).insn.va == to)
        },
        target_name_of(ctx, f[i]) is Some ==> {
            &&& art.blocks@[k].terminator@ == "tail-call"@
            &&& !goes(art.blocks@[k], "switch-case"@, to)
        },
        !goes(art.blocks@[k], "jmp"@, to),
        !goes(art.blocks@[k], "fall"@, to),
        !goes(art.blocks@[k], "cjmp-true"@, to),
        !goes(art.blocks@[k], "cjmp-false"@, to),
{
    let blk = art.blocks@[k];
    let s = lemma_art_edges(ctx, b, f, start, frame, art, k, i);
    let base = flow_edges(ctx, b, f, start, i);
    lemma_kinds_differ();
    let stands = exists|j: int| 0 <= j < f.len() && (#[trigger] f[j]).insn.va == to;
    assert(stands == valid_at(f, to.0 as int)) by {
        if stands {
            let j = choose|j: int| 0 <= j < f.len() && (#[trigger] f[j]).insn.va == to;
            assert(f[j].insn.va.0 == to.0);
        }
        if valid_at(f, to.0 as int) {
            let j = choose|j: int| 0 <= j < f.len() && (#[trigger] f[j]).insn.va.0 == to.0 as int;
            assert(f[j].insn.va == to);
        }
    }
    let cases = target_name_of(ctx, f[i]) is None && f[i].dispatch is Some;
    if cases {
        let sw = f[i].dispatch->0;
        let n = sw.cases@.len();
        assert(base == case_edges(f, sw, b.case_confidence, n));
        assert forall|m: int| 0 <= m < base.len() implies (#[trigger] base[m]).kind == "switch-case"@ && sw.cases@.contains(
            base[m].to,
        ) && valid_at(f, base[m].to.0 as int) by {
            lemma_case_edges(f, sw, b.case_confidence, n, m);
            lemma_case_kinds(f, sw, b.case_confidence, n, m);
        }
        if stands && sw.cases@.contains(to) {
            let c = choose|c: int| 0 <= c < n && sw.cases@[c] == to;
            lemma_case_kept(f, sw, b.case_confidence, n, c);
            let m = choose|m: int|
                0 <= m < base.len() && (#[trigger] base[m]) == (Edge {
                    to,
                    kind: "switch-case"@,
                    confidence: b.case_confidence,
                });
            assert(blk.successors@[m].kind@ == "switch-case"@ && blk.successors@[m].to == to);
        }
    } else {
        assert(base =~= Seq::empty());
    }
    assert forall|kind: Seq<char>| #[trigger] goes(blk, kind, to) && kind != "eh"@ implies exists|m: int|
        0 <= m < base.len() && (#[trigger] base[m]).kind == kind && base[m].to == to by {
        let m = choose|m: int|
            0 <= m < blk.successors@.len() && (#[trigger] blk.successors@[m]).kind@ == kind && blk.successors@[m].to == to;
        assert(base[m].kind == kind);
    }
}

/// A block that ends in an ordinary instruction, or in a call that comes back, falls
/// through to the next instruction, if there is one; after a return, a trap or a call
/// that does not come back control goes nowhere.
pub proof fn other_blocks_fall_through(
    ctx: Ctx,
    b: BuildFacts,
    f: Seq<InsnFacts>,
    start: Va,
    frame: FrameInfo,
    art: CfgArtifact,
    k: int,
    i: int,
    m: int,
)
    requires
        linear(f),
        is_cfg(ctx, b, f, eh_of(ctx), start, frame, art),
        0 <= k < art.blocks@.len(),
        ends_with_insn(art.blocks@[k], f, i),
        f[i].insn.kind != InsnKind::Jump && f[i].insn.kind != InsnKind::CondJump,
    ensures
        ({
            let on = (f[i].insn.kind == InsnKind::Plain || f[i].insn.kind == InsnKind::Call) && !never_returns(ctx, f[i]);
            let edges = art.blocks@[k].successors@;
            &&& on && i + 1 < f.len() ==> goes(art.blocks@[k], "fall"@, f[i + 1].insn.va)
            &&& 0 <= m < edges.len() && edges[m].kind@ != "eh"@ ==> on && i + 1 < f.len() && edges[m].kind@ == "fall"@
                && edges[m].to == f[i + 1].insn.va
            &&& f[i].insn.kind == InsnKind::Ret ==> art.blocks@[k].terminator@ == "ret"@
            &&& f[i].insn.kind == InsnKind::Int ==> art.blocks@[k].terminator@ == "int"@
            &&& on ==> art.blocks@[k].terminator@ == "fall"@
            &&& f[i].insn.kind == InsnKind::Call && !on ==> art.blocks@[k].terminator@ == "call-noreturn"@
        }),
{
    let blk = art.blocks@[k];
    let s = lemma_art_edges(ctx, b, f, start, frame, art, k, i);
    let base = flow_edges(ctx, b, f, start, i);
    lemma_kinds_differ();
    let on = (f[i].insn.kind == InsnKind::Plain || f[i].insn.kind == InsnKind::Call) && !never_returns(ctx, f[i]);
    if on && i + 1 < f.len() {
        assert(base =~= seq![Edge { to: f[i + 1].insn.va, kind: "fall"@, confidence: 100 }]);
        assert(blk.successors@[0].kind@ == "fall"@ && blk.successors@[0].to == f[i + 1].insn.va);
    } else {
        assert(base =~= Seq::empty());
    }
}

proof fn lemma_eh_origin(base: Seq<Edge>, eh: Seq<EhRegion>, m: nat, lo: int, hi: int, k: int)
    requires
        m <= eh.len(),
        base.len() <= k < with_eh(base, eh, m, lo, hi).len(),
    ensures
        exists|r: int|
            0 <= r < m && (#[trigger] eh[r]).landing_pad == with_eh(base, eh, m, lo, hi)[k].to && lo < eh[r].try_end.0
                && eh[r].try_start.0 < hi && eh[r].landing_pad.0 != lo,
    decreases m,
{
    if m > 0 {
        let before = with_eh(base, eh, (m - 1) as nat, lo, hi);
        if k < before.len() {
            lemma_eh_origin(base, eh, (m - 1) as nat, lo, hi, k);
            let r = choose|r: int|
                0 <= r < m - 1 && (#[trigger] eh[r]).landing_pad == before[k].to && lo < eh[r].try_end.0
                    && eh[r].try_start.0 < hi && eh[r].landing_pad.0 != lo;
            assert(eh[r].landing_pad == with_eh(base, eh, m, lo, hi)[k].to);
        } else {
            assert(eh[m - 1].landing_pad == with_eh(base, eh, m, lo, hi)[k].to);
        }
    }
}

proof fn lemma_eh_reached(base: Seq<Edge>, eh: Seq<EhRegion>, m: nat, lo: int, hi: int, r: int)
    requires
        m <= eh.len(),
        0 <= r < m,
        lo < eh[r].try_end.0,
        eh[r].try_start.0 < hi,
        eh[r].landing_pad.0 != lo,
    ensures
        leads_to(with_eh(base, eh, m, lo, hi), eh[r].landing_pad),
    decreases m,
{
    let all = with_eh(base, eh, m, lo, hi);
    let before = with_eh(base, eh, (m - 1) as nat, lo, hi);
    if r < m - 1 {
        lemma_eh_reached(base, eh, (m - 1) as nat, lo, hi, r);
    }
    if leads_to(before, eh[r].landing_pad) {
        let k = choose|k: int| 0 <= k < before.len() && (#[trigger] before[k]).to == eh[r].landing_pad;
        assert(all[k].to == eh[r].landing_pad);
    } else {
        assert(all[before.len() as int].to == eh[r].landing_pad);
    }
}

/// A block that lies, even in part, in a protected range has an edge to the landing
/// pad of the range, unless it starts there itself. Exceptional edges come from such
/// ranges alone.
pub proof fn protected_blocks_reach_their_pads(
    ctx: Ctx,
    b: BuildFacts,
    f: Seq<InsnFacts>,
    start: Va,
    frame: FrameInfo,
    art: CfgArtifact,
    k: int,
    r: int,
    m: int,
)
    requires
        linear(f),
        is_cfg(ctx, b, f, eh_of(ctx), start, frame, art),
        0 <= k < art.blocks@.len(),
        0 <= r < eh_of(ctx).len(),
        0 <= m < art.blocks@[k].successors@.len(),
    ensures
        ({
            let blk = art.blocks@[k];
            let x = eh_of(ctx)[r];
            &&& blk.start.0 < x.try_end.0 && x.try_start.0 < blk.end.0 && x.landing_pad != blk.start ==> exists|j: int|
                0 <= j < blk.successors@.len() && (#[trigger] blk.successors@[j]).to == x.landing_pad
            &&& blk.successors@[m].kind@ == "eh"@ ==> exists|q: int|
                0 <= q < eh_of(ctx).len() && (#[trigger] eh_of(ctx)[q]).landing_pad == blk.successors@[m].to
                    && blk.start.0 < eh_of(ctx)[q].try_end.0 && eh_of(ctx)[q].try_start.0 < blk.end.0
        }),
{
    let eh = eh_of(ctx);
    let blk = art.blocks@[k];
    let s = lemma_art_block(ctx, b, f, start, frame, art, k);
    let i = block_end(ctx, f, eh, s) - 1;
    assert(insn_node(blk.insns@[i - s]) == node_of(ctx, b, f, s, i));
    assert(blk.insns@.last().va == f[i].insn.va);
    let t = lemma_art_edges(ctx, b, f, start, frame, art, k, i);
    assert(after(f, i) <= u64::MAX);
    assert(blk.end.0 == after(f, i));
    let base = flow_edges(ctx, b, f, start, i);
    let all = edges_of(blk.successors@);
    let x = eh[r];
    if blk.start.0 < x.try_end.0 && x.try_start.0 < blk.end.0 && x.landing_pad != blk.start {
        lemma_eh_reached(base, eh, eh.len(), blk.start.0 as int, blk.end.0 as int, r);
        let j = choose|j: int| 0 <= j < all.len() && (#[trigger] all[j]).to == x.landing_pad;
        assert(blk.successors@[j].to == x.landing_pad);
    }
    if blk.successors@[m].kind@ == "eh"@ {
        lemma_kinds_differ();
        assert(m >= base.len()) by {
            if m < base.len() {
                lemma_flow_kinds(ctx, b, f, start, i, m);
            }
        }
        lemma_eh_origin(base, eh, eh.len(), blk.start.0 as int, blk.end.0 as int, m);
        assert(all[m].to == blk.successors@[m].to);
    }
}

proof fn lemma_flow_kinds(ctx: Ctx, b: BuildFacts, f: Seq<InsnFacts>, start: Va, i: int, m: int)
    requires
        0 <= i < f.len(),
        0 <= m < flow_edges(ctx, b, f, start, i).len(),
    ensures
        flow_edges(ctx, b, f, start, i)[m].kind.len() >= 3,
{
    lemma_kinds_differ();
    if f[i].insn.kind == InsnKind::Jump && f[i].insn.target is None {
        let sw = f[i].dispatch->0;
        lemma_case_kinds(f, sw, b.case_confidence, sw.cases@.len(), m);
    }
}

/// A block covers its instructions from the first one's address to the end of the
/// last one, and holds of each what was decoded.
pub proof fn blocks_hold_their_instructions(
    ctx: Ctx,
    b: BuildFacts,
    f: Seq<InsnFacts>,
    start: Va,
    frame: FrameInfo,
    art: CfgArtifact,
    k: int,
    j: int,
)
    requires
        linear(f),
        is_cfg(ctx, b, f, eh_of(ctx), start, frame, art),
        0 <= k < art.blocks@.len(),
        0 <= j < art.blocks@[k].insns@.len(),
    ensures
        ({
            let blk = art.blocks@[k];
            let y = blk.insns@[j];
            &&& blk.start == blk.insns@[0].va
            &&& blk.end.0 == blk.insns@.last().va.0 + blk.insns@.last().len
            &&& exists|i: int| 0 <= i < f.len() && {
                let x = #[trigger] f[i];
                &&& y.va == x.insn.va
                &&& y.len == x.insn.len
                &&& y.mnemonic@ == x.insn.mnemonic@
                &&& y.text@ == x.insn.text@
                &&& y.flow == x.insn.kind
                &&& y.target == x.insn.target
                &&& opt_text(y.cond) == opt_text(x.insn.cond)
                &&& y.stack_adjust == x.insn.stack_adjust
                &&& text_list(y.reads@) == text_list(x.access.reads@)
            }
        }),
{
    let eh = eh_of(ctx);
    let blk = art.blocks@[k];
    let s = lemma_art_block(ctx, b, f, start, frame, art, k);
    let e = block_end(ctx, f, eh, s);
    assert(insn_node(blk.insns@[0]) == node_of(ctx, b, f, s, s + 0));
    assert(insn_node(blk.insns@[e - 1 - s]) == node_of(ctx, b, f, s, e - 1));
    assert(insn_node(blk.insns@[j]) == node_of(ctx, b, f, s, s + j));
    assert(after(f, e - 1) <= u64::MAX);
    assert(f[s + j].insn.va == blk.insns@[j].va);
}

/// An instruction of a block writes the registers that the decoder states; a call
/// also writes the register in which a callee leaves its result.
pub proof fn calls_define_the_result(b: BuildFacts, x: InsnFacts, reg: Seq<char>)
    ensures
        writes_of(b, x).contains(reg) <==> text_list(x.access.writes@).contains(reg) || (x.insn.kind == InsnKind::Call
            && b.return_register is Some && b.return_register->0@ == reg),
{
    let w = text_list(x.access.writes@);
    if b.return_register is Some {
        let r = b.return_register->0@;
        let p = w.push(r);
        assert(p[w.len() as int] == r);
        assert forall|k: int| 0 <= k < w.len() implies p[k] == w[k] by {}
        if p.contains(reg) {
            let k = choose|k: int| 0 <= k < p.len() && p[k] == reg;
            assert(k < w.len() ==> w[k] == reg);
        }
        if w.contains(reg) {
            let k = choose|k: int| 0 <= k < w.len() && w[k] == reg;
            assert(p[k] == reg);
        }
    }
}

proof fn lemma_last_writer(b: BuildFacts, f: Seq<InsnFacts>, s: int, i: int, reg: Seq<char>)
    requires
        s <= i,
    ensures
        match last_writer(b, f, s, i, reg) {
            Some(d) => s <= d < i && writes_of(b, f[d]).contains(reg) && forall|j: int|
                d < j < i ==> !writes_of(b, #[trigger] f[j]).contains(reg),
            None => forall|j: int| s <= j < i ==> !writes_of(b, #[trigger] f[j]).contains(reg),
        },
    decreases i - s,
{
    if i > s && !writes_of(b, f[i - 1]).contains(reg) {
        lemma_last_writer(b, f, s, i - 1, reg);
    }
}

proof fn lemma_def_uses(b: BuildFacts, f: Seq<InsnFacts>, s: int, i: int, m: nat, d: int)
    requires
        s <= i < f.len(),
        m <= f[i].access.reads@.len(),
        0 <= d < def_uses(b, f, s, i, m).len(),
    ensures
        ({
            let u = def_uses(b, f, s, i, m)[d];
            &&& exists|r: int| 0 <= r < m && (#[trigger] f[i].access.reads@[r])@ == u.reg
            &&& last_writer(b, f, s, i, u.reg) == Some(s + u.def_index)
            &&& u.def_addr == f[s + u.def_index].insn.va
        }),
    decreases m,
{
    let before = def_uses(b, f, s, i, (m - 1) as nat);
    if d < before.len() {
        lemma_def_uses(b, f, s, i, (m - 1) as nat, d);
    } else {
        assert(f[i].access.reads@[m - 1]@ == def_uses(b, f, s, i, m)[d].reg);
    }
}

proof fn lemma_def_uses_all(b: BuildFacts, f: Seq<InsnFacts>, s: int, i: int, m: nat, r: int)
    requires
        s <= i < f.len(),
        m <= f[i].access.reads@.len(),
        0 <= r < m,
        last_writer(b, f, s, i, f[i].access.reads@[r]@) is Some,
    ensures
        exists|d: int|
            0 <= d < def_uses(b, f, s, i, m).len() && (#[trigger] def_uses(b, f, s, i, m)[d]).reg
                == f[i].access.reads@[r]@,
    decreases m,
{
    let all = def_uses(b, f, s, i, m);
    let before = def_uses(b, f, s, i, (m - 1) as nat);
    if r < m - 1 {
        lemma_def_uses_all(b, f, s, i, (m - 1) as nat, r);
        let d = choose|d: int| 0 <= d < before.len() && (#[trigger] before[d]).reg == f[i].access.reads@[r]@;
        assert(all[d].reg == f[i].access.reads@[r]@);
    } else {
        assert(all[before.len() as int].reg == f[i].access.reads@[r]@);
    }
}

/// A read is linked to the instruction of its block that wrote the register last:
/// that one writes it, and none between them does. A register that is read is linked
/// exactly if an earlier instruction of the block writes it.
pub proof fn reads_go_back_to_the_last_write(
    ctx: Ctx,
    b: BuildFacts,
    f: Seq<InsnFacts>,
    start: Va,
    frame: FrameInfo,
    art: CfgArtifact,
    k: int,
    j: int,
    d: int,
    r: int,
)
    requires
        linear(f),
        is_cfg(ctx, b, f, eh_of(ctx), start, frame, art),
        0 <= k < art.blocks@.len(),
        0 <= j < art.blocks@[k].insns@.len(),
    ensures
        ({
            let all = art.blocks@[k].insns@;
            let uses = all[j].def_use@;
            &&& 0 <= d < uses.len() ==> {
                &&& uses[d].def_index < j
                &&& uses[d].def_addr == all[uses[d].def_index as int].va
                &&& text_list(all[j].reads@).contains(uses[d].reg@)
                &&& text_list(all[uses[d].def_index as int].writes@).contains(uses[d].reg@)
                &&& forall|q: int|
                    uses[d].def_index < q < j ==> !text_list((#[trigger] all[q]).writes@).contains(uses[d].reg@)
            }
            &&& 0 <= r < all[j].reads@.len() && (exists|q: int|
                0 <= q < j && text_list((#[trigger] all[q]).writes@).contains(all[j].reads@[r]@)) ==> exists|u: int|
                0 <= u < uses.len() && (#[trigger] uses[u]).reg@ == all[j].reads@[r]@
        }),
{
    let blk = art.blocks@[k];
    let all = blk.insns@;
    let s = lemma_art_block(ctx, b, f, start, frame, art, k);
    let uses = all[j].def_use@;
    let i = s + j;
    assert(insn_node(all[j]) == node_of(ctx, b, f, s, i));
    let n = f[i].access.reads@.len();
    let nodes = uses.map_values(|x: DefUse| def_use_node(x));
    assert(nodes == def_uses(b, f, s, i, n));
    assert(text_list(all[j].reads@).len() == text_list(f[i].access.reads@).len());
    assert forall|q: int| 0 <= q < all.len() implies text_list((#[trigger] all[q]).writes@) == writes_of(b, f[s + q]) by {
        assert(insn_node(all[q]) == node_of(ctx, b, f, s, s + q));
    }
    if 0 <= d < uses.len() {
        assert(nodes[d] == def_use_node(uses[d]));
        lemma_def_uses(b, f, s, i, n, d);
        let reg = uses[d].reg@;
        let x = choose|x: int| 0 <= x < n && (#[trigger] f[i].access.reads@[x])@ == reg;
        assert(text_list(f[i].access.reads@)[x] == reg);
        lemma_last_writer(b, f, s, i, reg);
        let q0 = uses[d].def_index as int;
        assert(insn_node(all[q0]) == node_of(ctx, b, f, s, s + q0));
        assert forall|q: int| q0 < q < j implies !text_list((#[trigger] all[q]).writes@).contains(reg) by {
            assert(!writes_of(b, f[s + q]).contains(reg));
        }
    }
    if 0 <= r < all[j].reads@.len() && (exists|q: int|
        0 <= q < j && text_list((#[trigger] all[q]).writes@).contains(all[j].reads@[r]@)) {
        let reg = all[j].reads@[r]@;
        assert(text_list(all[j].reads@)[r] == reg);
        assert(text_list(f[i].access.reads@)[r] == reg);
        let q = choose|q: int| 0 <= q < j && text_list((#[trigger] all[q]).writes@).contains(reg);
        lemma_last_writer(b, f, s, i, reg);
        assert(writes_of(b, f[s + q]).contains(reg));
        lemma_def_uses_all(b, f, s, i, n, r);
        let u = choose|u: int| 0 <= u < nodes.len() && (#[trigger] nodes[u]).reg == reg;
        assert(uses[u].reg@ == reg);
    }
}

// ---------------------------------------------------------------------------
// Names, call sites and the end of a function
// ---------------------------------------------------------------------------

/// A branch or call goes to the symbol at its direct target; failing that, to that of the
/// slot that it goes through; and failing that, to the import behind a stub at its target.
pub proof fn targets_are_named_by_symbol_slot_or_stub(t: SymbolTable, x: InsnFacts)
    ensures
        x.insn.target matches Some(v) ==> (t.at(v) matches Some(s) ==> target_symbol(t, x) == Some(s)),
        (x.insn.target is None || t.at(x.insn.target->0) is None) ==> (x.insn.rip_target matches Some(v) ==> (t.slot(v) matches
            Some(s) ==> target_symbol(t, x) == Some(s))),
        x.insn.target is None && (x.insn.rip_target is None || t.slot(x.insn.rip_target->0) is None) ==> target_symbol(t, x) is
            None,
        x.insn.target matches Some(v) ==> (t.at(v) is None && x.insn.rip_target is None ==> (x.at_target matches Some(y)
            ==> target_symbol(t, x) == stub_import(t, y))),
{
}

/// A stub is an indirect jump through the slot of an import, and forwards to that import.
pub proof fn stubs_forward_to_their_import(t: SymbolTable, x: DecodedInsn)
    ensures
        x.kind == InsnKind::Jump && x.target is None ==> (x.rip_target matches Some(s) ==> stub_import(t, x) == t.slot(s)),
        x.kind != InsnKind::Jump || x.target is Some || x.rip_target is None ==> stub_import(t, x) is None,
{
}

/// The entry of a function is named by the symbol exactly there, and otherwise by what a
/// stub there forwards to.
pub proof fn entries_are_named_by_what_stands_there(t: &SymbolTable, va: Va, x: DecodedInsn)
    ensures
        t.at(va) matches Some(s) ==> (s.va == va ==> entry_symbol(Some(t), va, Some(x)) == Some(s) && entry_symbol(
            Some(t),
            va,
            None,
        ) == Some(s)),
        t.at(va) matches Some(s) ==> (s.va != va ==> entry_symbol(Some(t), va, Some(x)) == stub_import(*t, x)),
        t.at(va) is None ==> entry_symbol(Some(t), va, Some(x)) == stub_import(*t, x) && entry_symbol(Some(t), va, None) is
            None,
        entry_symbol(None, va, Some(x)) is None,
{
}

/// A name without its module is what stands behind the last exclamation mark.
pub proof fn names_lose_their_module(module: Seq<char>, n: Seq<char>)
    requires
        forall|i: int| 0 <= i < n.len() ==> #[trigger] n[i] != '!',
    ensures
        bare_name(module + seq!['!'] + n) == n,
        bare_name(n) == n,
{
    reveal_strlit("!");
    assert("!"@ =~= seq!['!']);
    crate::text::texts_are_split_at_the_last(module, '!', n);
    let s = module + seq!['!'] + n;
    assert(s.skip(module.len() as int + 1) =~= n);
}

/// A call does not come back where its callee is known not to return, by its name without
/// the module or by its address; nothing but a call is such.
pub proof fn only_calls_never_return(ctx: Ctx, x: InsnFacts, n: Seq<char>, t: Va)
    ensures
        never_returns(ctx, x) ==> x.insn.kind == InsnKind::Call,
        x.insn.kind == InsnKind::Call && target_name_of(ctx, x) == Some(n) ==> (ctx.noreturn_names matches Some(s) ==> (
        s.set().contains(bare_name(n)) ==> never_returns(ctx, x))),
        x.insn.kind == InsnKind::Call && x.insn.target == Some(t) ==> (ctx.noreturn matches Some(s) ==> (s.set().contains(
            t.0,
        ) ==> never_returns(ctx, x))),
        ctx.noreturn_names is None && ctx.noreturn is None ==> !never_returns(ctx, x),
{
}

/// A block begins at the first instruction, behind one that ends the flow, where such a
/// one leads, at a case of a switch and at a landing pad; and nowhere else.
pub proof fn blocks_begin_where_control_can_come(f: Seq<InsnFacts>, eh: Seq<EhRegion>, i: int, j: int, k: int)
    requires
        0 <= i < f.len(),
        0 <= j < f.len(),
    ensures
        leads(f, eh, 0),
        ({
            let kind = f[i].insn.kind;
            let breaks = kind == InsnKind::CondJump || kind == InsnKind::Jump || kind == InsnKind::Ret || kind
                == InsnKind::Int;
            &&& breaks && f[i].insn.va.0 + f[i].insn.len == f[j].insn.va.0 ==> leads(f, eh, j)
            &&& breaks && f[i].insn.target == Some(f[j].insn.va) ==> leads(f, eh, j)
            &&& kind == InsnKind::Jump && f[i].insn.target is None ==> (f[i].dispatch matches Some(s) ==> (0 <= k
                < s.cases@.len() && s.cases@[k] == f[j].insn.va ==> leads(f, eh, j)))
        }),
        0 <= k < eh.len() && eh[k].landing_pad == f[j].insn.va ==> leads(f, eh, j),
        leads(f, eh, j) && j > 0 ==> (exists|m: int| 0 <= m < f.len() && #[trigger] starts_block_at(f, m, f[j].insn.va.0 as int))
            || (exists|r: int| 0 <= r < eh.len() && (#[trigger] eh[r]).landing_pad == f[j].insn.va),
        (f[i].insn.kind == InsnKind::Plain || f[i].insn.kind == InsnKind::Call) ==> !starts_block_at(
            f,
            i,
            f[j].insn.va.0 as int,
        ),
{
    let a = f[j].insn.va.0 as int;
    match f[i].dispatch {
        Some(s) => {
            if 0 <= k < s.cases@.len() && s.cases@[k] == f[j].insn.va {
                assert(s.cases@[k].0 == a);
                assert(has_case(s, a));
            }
        },
        None => {},
    }
    assert(starts_block_at(f, i, a) ==> leads(f, eh, j));
}

/// A jump is a tail call where its target lies outside the function, or where it goes
/// through a slot whose import is known; no other instruction is.
pub proof fn jumps_out_are_tail_calls(ctx: Ctx, f: Seq<InsnFacts>, start: Va, i: int)
    requires
        0 <= i < f.len(),
    ensures
        is_tail(ctx, f, start, i) ==> f[i].insn.kind == InsnKind::Jump,
        f[i].insn.kind == InsnKind::Jump ==> (f[i].insn.target matches Some(t) ==> (is_tail(ctx, f, start, i) <==> t.0 < start.0
            || t.0 >= f.last().insn.va.0 + f.last().insn.len)),
        f[i].insn.kind == InsnKind::Jump && f[i].insn.target is None ==> (is_tail(ctx, f, start, i) <==> target_name_of(
            ctx,
            f[i],
        ) is Some),
{
}

/// A block is said to end as its last instruction does.
pub proof fn blocks_end_as_their_last_instruction(ctx: Ctx, f: Seq<InsnFacts>, start: Va, i: int)
    requires
        0 <= i < f.len(),
    ensures
        ({
            let x = f[i];
            let t = terminator_of(ctx, f, start, i);
            &&& x.insn.kind == InsnKind::Ret ==> t == "ret"@
            &&& x.insn.kind == InsnKind::Int ==> t == "int"@
            &&& x.insn.kind == InsnKind::CondJump ==> t == "cjmp"@
            &&& x.insn.kind == InsnKind::Jump && is_tail(ctx, f, start, i) ==> t == "tail-call"@
            &&& x.insn.kind == InsnKind::Jump && !is_tail(ctx, f, start, i) && x.insn.target is Some ==> t == "jmp"@
            &&& x.insn.kind == InsnKind::Jump && !is_tail(ctx, f, start, i) && x.insn.target is None ==> t == "ijmp"@
            &&& x.insn.kind == InsnKind::Call && never_returns(ctx, x) ==> t == "call-noreturn"@
            &&& x.insn.kind == InsnKind::Call && !never_returns(ctx, x) ==> t == "fall"@
            &&& x.insn.kind == InsnKind::Plain ==> t == "fall"@
        }),
{
}

/// A call is a call site, named where its callee is known; a jump out of the function is
/// one too, and so is each side of a conditional jump that leads out of it.
pub proof fn calls_and_jumps_out_are_call_sites(ctx: Ctx, f: Seq<InsnFacts>, start: Va, i: int)
    requires
        0 <= i < f.len(),
        after(f, i) <= u64::MAX,
    ensures
        ({
            let x = f[i].insn;
            let name = target_name_of(ctx, f[i]);
            let c = calls_at(ctx, f, start, i);
            let out = match x.target {
                Some(t) => !valid_at(f, t.0 as int),
                None => false,
            };
            let past = !valid_at(f, x.va.0 + x.len);
            &&& x.kind == InsnKind::Call ==> c.len() == 1 && c[0].from == x.va && c[0].target == x.target
                && c[0].target_name == name && (name is Some ==> c[0].kind == "named"@) && (name is None ==> c[0].kind
                == "direct"@) && (x.target is None ==> c[0].via_slot == x.rip_target) && (x.target is Some
                ==> c[0].via_slot is None)
            &&& x.kind == InsnKind::Jump && is_tail(ctx, f, start, i) ==> c.len() == 1 && c[0].kind == "tail"@ && c[0].target
                == x.target && c[0].target_name == name && c[0].from == x.va
            &&& x.kind == InsnKind::Jump && !is_tail(ctx, f, start, i) ==> c.len() == 0
            &&& x.kind == InsnKind::CondJump && out ==> c.len() >= 1 && c[0].target == x.target && c[0].kind == "tail"@
            &&& x.kind == InsnKind::CondJump && past ==> c.len() >= 1 && c.last().target == Some(
                Va((x.va.0 + x.len) as u64),
            ) && c.last().kind == "tail"@
            &&& x.kind == InsnKind::CondJump && !out && !past ==> c.len() == 0
            &&& x.kind == InsnKind::Ret || x.kind == InsnKind::Int || x.kind == InsnKind::Plain ==> c.len() == 0
        }),
{
}

/// Returns, calls, calls that do not come back, indirect jumps and jumps out of the
/// function are counted, each where it stands.
pub proof fn instructions_are_counted_by_kind(ctx: Ctx, f: Seq<InsnFacts>, start: Va, i: nat)
    requires
        i < f.len(),
    ensures
        ({
            let x = f[i as int];
            let c = counts_upto(ctx, f, start, i);
            let d = counts_upto(ctx, f, start, i + 1);
            let k = x.insn.kind;
            &&& d.returns == c.returns + (if k == InsnKind::Ret {
                1nat
            } else {
                0
            })
            &&& d.calls == c.calls + (if k == InsnKind::Call {
                1nat
            } else {
                0
            })
            &&& d.noreturn == c.noreturn + (if never_returns(ctx, x) {
                1nat
            } else {
                0
            })
            &&& d.indirect == c.indirect + (if k == InsnKind::Jump && x.insn.target is None && !is_tail(
                ctx,
                f,
                start,
                i as int,
            ) {
                1nat
            } else {
                0
            })
            &&& d.tails == c.tails + (if k == InsnKind::Jump || k == InsnKind::CondJump {
                calls_at(ctx, f, start, i as int).len()
            } else {
                0
            })
        }),
{
}

/// A function ends with the first instruction that does not go on and that nothing seen
/// so far leads past; without one it has all that was decoded.
pub proof fn functions_end_where_nothing_leads_past(
    ctx: Ctx,
    f: Seq<InsnFacts>,
    start: u64,
    end_cap: u64,
    floor: u64,
    i: int,
    j: int,
)
    requires
        0 <= i <= f.len(),
    ensures
        ({
            let n = cut_from(ctx, f, start, end_cap, floor, i);
            &&& i <= n <= f.len()
            &&& i < f.len() ==> i < n
            &&& i <= j < n - 1 ==> !ends_at(ctx, f, start, end_cap, floor, j)
            &&& n > i ==> ends_at(ctx, f, start, end_cap, floor, n - 1) || n == f.len()
        }),
    decreases f.len() - i,
{
    let n = cut_from(ctx, f, start, end_cap, floor, i);
    if i < f.len() {
        if ends_at(ctx, f, start, end_cap, floor, i) {
            assert(n == i + 1);
            assert(ends_at(ctx, f, start, end_cap, floor, n - 1));
        } else {
            functions_end_where_nothing_leads_past(ctx, f, start, end_cap, floor, i + 1, j);
            let m = cut_from(ctx, f, start, end_cap, floor, i + 1);
            assert(n == m);
            if m == i + 1 {
                assert(i + 1 >= f.len());
            }
        }
    } else {
        assert(n == f.len());
    }
}

/// A return, a trap and a call that does not come back end a function that nothing leads
/// past them in; a jump back or out of the window does too. A conditional jump and any
/// other instruction do not.
pub proof fn what_ends_a_function(ctx: Ctx, f: Seq<InsnFacts>, start: u64, end_cap: u64, floor: u64, i: int)
    requires
        0 <= i < f.len(),
    ensures
        ({
            let x = f[i].insn;
            let last = furthest(f, start, end_cap, floor, (i + 1) as nat);
            let past = x.va.0 + x.len > last;
            let e = ends_at(ctx, f, start, end_cap, floor, i);
            &&& !past ==> !e
            &&& past && (x.kind == InsnKind::Ret || x.kind == InsnKind::Int) ==> e
            &&& past && x.kind == InsnKind::Call ==> e == never_returns(ctx, f[i])
            &&& x.kind == InsnKind::CondJump || x.kind == InsnKind::Plain ==> !e
            &&& past && x.kind == InsnKind::Jump && x.target is None ==> e
            &&& past && x.kind == InsnKind::Jump ==> (x.target matches Some(t) ==> (start <= t.0 < end_cap && t.0 != 0
                ==> e == (t.0 < x.va.0 + x.len)) && (t.0 < start || t.0 >= end_cap ==> e))
        }),
{
}

/// Each branch inside the window that was seen reaches no further than the furthest
/// address.
pub proof fn the_furthest_branch_counts(f: Seq<InsnFacts>, start: u64, end_cap: u64, floor: u64, n: nat, i: int)
    requires
        n <= f.len(),
    ensures
        furthest(f, start, end_cap, floor, n) >= start,
        furthest(f, start, end_cap, floor, n) >= floor,
        0 <= i < n && (f[i].insn.kind == InsnKind::Jump || f[i].insn.kind == InsnKind::CondJump) ==> (f[i].insn.target matches
            Some(t) ==> (start <= t.0 < end_cap ==> furthest(f, start, end_cap, floor, n) >= t.0)),
        furthest(f, start, end_cap, floor, n) == start || furthest(f, start, end_cap, floor, n) == floor || exists|j: int|
            0 <= j < n && (#[trigger] f[j]).insn.target == Some(Va(furthest(f, start, end_cap, floor, n))),
    decreases n,
{
    if n > 0 {
        the_furthest_branch_counts(f, start, end_cap, floor, (n - 1) as nat, i);
        let before = furthest(f, start, end_cap, floor, (n - 1) as nat);
        let now = furthest(f, start, end_cap, floor, n);
        if now != before {
            assert(f[n - 1].insn.target == Some(Va(now)));
        } else if before != start && before != floor {
            let j = choose|j: int| 0 <= j < n - 1 && (#[trigger] f[j]).insn.target == Some(Va(before));
            assert(f[j].insn.target == Some(Va(now)));
        }
    }
}

/// The furthest case of a switch counts among those inside the window.
pub proof fn the_furthest_case_counts(cases: Seq<Va>, start: u64, end_cap: u64, from: u64, k: nat, i: int)
    requires
        k <= cases.len(),
    ensures
        furthest_case(cases, start, end_cap, from, k) >= from,
        0 <= i < k && start <= cases[i].0 < end_cap ==> furthest_case(cases, start, end_cap, from, k) >= cases[i].0,
        furthest_case(cases, start, end_cap, from, k) == from || exists|j: int|
            0 <= j < k && (#[trigger] cases[j]).0 == furthest_case(cases, start, end_cap, from, k),
    decreases k,
{
    if k > 0 {
        the_furthest_case_counts(cases, start, end_cap, from, (k - 1) as nat, i);
        let before = furthest_case(cases, start, end_cap, from, (k - 1) as nat);
        let now = furthest_case(cases, start, end_cap, from, k);
        if now != before {
            assert(cases[k - 1].0 == now);
        } else if before != from {
            let j = choose|j: int| 0 <= j < k - 1 && (#[trigger] cases[j]).0 == before;
            assert(cases[j].0 == now);
        }
    }
}

/// The instructions of a jump table's block start behind the last one that ends the flow,
/// or behind the last call where that counts too.
pub proof fn tables_are_sought_back_to_the_flow(f: Seq<InsnKind>, i: int, calls_too: bool, j: int)
    requires
        0 <= i <= f.len(),
    ensures
        0 <= table_start(f, i, calls_too) <= i,
        table_start(f, i, calls_too) <= j < i ==> f[j] != InsnKind::Jump && f[j] != InsnKind::CondJump && f[j]
            != InsnKind::Ret && f[j] != InsnKind::Int && (calls_too ==> f[j] != InsnKind::Call),
        table_start(f, i, calls_too) > 0 ==> {
            let k = f[table_start(f, i, calls_too) - 1];
            k == InsnKind::Jump || k == InsnKind::CondJump || k == InsnKind::Ret || k == InsnKind::Int || (calls_too && k
                == InsnKind::Call)
        },
    decreases i,
{
    if i > 0 && !(ends_flow(f[i - 1]) || (calls_too && f[i - 1] == InsnKind::Call)) {
        tables_are_sought_back_to_the_flow(f, i - 1, calls_too, j);
    }
}

/// The extent of a function is what its symbol's size says, and failing that the end that
/// is stated first for its start.
pub proof fn sizes_count_before_stated_ends(ctx: Ctx, start: Va, n: u64)
    ensures
        ctx.symbols matches Some(t) ==> (t.size(start) == Some(n) && n > 0 && start.0 + n <= u64::MAX ==> (extent_of(
            ctx,
            start,
        ) matches Some(e) && e == start.0 + n)),
        (ctx.symbols is None || ctx.symbols->0.size(start) is None) && ctx.functions is None ==> extent_of(ctx, start) is None,
        (ctx.symbols is None || ctx.symbols->0.size(start) is None) ==> (ctx.functions matches Some(fs) ==> (fs@.len() > 0
            && fs@[0].start == start && fs@[0].end.0 > start.0 ==> extent_of(ctx, start) == Some(fs@[0].end.0))),
        extent_of(ctx, start) matches Some(e) ==> e > start.0,
{
}

/// As many bytes are read as the budget allows, or as the function is stated to have
/// where that is more and believable.
pub proof fn long_functions_are_read_whole(ctx: Ctx, input: CfgInput)
    ensures
        window_of(ctx, input) >= input.max_bytes,
        extent_of(ctx, input.start) is None ==> window_of(ctx, input) == input.max_bytes,
        extent_of(ctx, input.start) matches Some(e) ==> (e - input.start.0 <= input.max_bytes ==> window_of(ctx, input)
            == input.max_bytes) && (input.max_bytes < e - input.start.0 < MAX_DECLARED_EXTENT ==> window_of(ctx, input)
            == e - input.start.0),
{
}

/// The instructions of a function with a stated extent are those that start before its
/// end.
pub proof fn stated_extents_bound_the_function(f: Seq<InsnFacts>, end: u64, i: int, j: int)
    requires
        0 <= i <= f.len(),
    ensures
        ({
            let n = below_from(f, end, i);
            &&& i <= n <= f.len()
            &&& i <= j < n ==> f[j].insn.va.0 < end
            &&& n < f.len() ==> f[n].insn.va.0 >= end
        }),
    decreases f.len() - i,
{
    if i < f.len() && f[i].insn.va.0 < end {
        stated_extents_bound_the_function(f, end, i + 1, j);
    }
}

/// All instructions count where the end is not sought; those inside the stated extent
/// where there is one; and those up to the end of the flow otherwise.
pub proof fn members_are_counted(ctx: Ctx, input: CfgInput, f: Seq<InsnFacts>, read: nat)
    requires
        input.start.0 + read <= u64::MAX,
    ensures
        !input.auto_end ==> member_count(ctx, input, f, read) == f.len(),
        input.auto_end ==> (extent_of(ctx, input.start) matches Some(e) ==> (e <= input.start.0 + read ==> member_count(
            ctx,
            input,
            f,
            read,
        ) == below_from(f, e, 0))),
        input.auto_end && (extent_of(ctx, input.start) is None || extent_of(ctx, input.start)->0 > input.start.0 + read) && (
        forall|n: nat| #[trigger] cases_reach(f, input.start.0, (input.start.0 + read) as u64, n) <= input.start.0)
            ==> member_count(ctx, input, f, read) == cut_from(
            ctx,
            f,
            input.start.0,
            (input.start.0 + read) as u64,
            input.start.0,
            0,
        ),
{
}

/// A summary says where the function lies, what it holds, how each block goes on, whom it
/// calls and where its switches lead.
pub proof fn summaries_tell_the_graph(art: CfgArtifact, b: CfgBlock, e: Successor, c: Callsite)
    ensures
        summary(art)[0] == "Function "@ + ("0x"@ + hex(art.start.0 as nat)) + " .. "@ + ("0x"@ + hex(art.end.0 as nat))
            + " — "@ + dec(art.insn_count as nat) + " instructions in "@ + dec(art.block_count as nat) + " blocks"@,
        summary(art)[1] == stats_line(art.stats),
        b.successors@ == seq![e] ==> block_line(b) == "  block "@ + dec(b.id as nat) + " ["@ + ("0x"@ + hex(
            b.start.0 as nat,
        )) + ".."@ + ("0x"@ + hex(b.end.0 as nat)) + "] "@ + b.terminator@ + " ("@ + dec(b.insns@.len()) + " insns) "@ + (
        e.kind@ + "→"@ + ("0x"@ + hex(e.to.0 as nat))),
        c.target_name matches Some(n) ==> call_line(c) == "  "@ + ("0x"@ + hex(c.from.0 as nat)) + " "@ + c.kind@ + " -> "@
            + n@,
        c.target_name is None ==> (c.target matches Some(t) ==> call_line(c) == "  "@ + ("0x"@ + hex(c.from.0 as nat)) + " "@
            + c.kind@ + " -> "@ + ("0x"@ + hex(t.0 as nat))),
{
    if b.successors@ == seq![e] {
        assert(b.successors@.map_values(|x: Successor| edge_text(x)) =~= seq![edge_text(e)]);
        crate::text::texts_are_joined_with_the_separator_between(Seq::empty(), edge_text(e), " "@);
    }
}

/// A plain edge is trusted in full, and one that was worked out otherwise for four
/// fifths.
pub proof fn plain_edges_are_trusted_in_full(kind: Seq<char>)
    ensures
        edge_trust("fall"@) == 100,
        edge_trust("jmp"@) == 100,
        edge_trust("cjmp-true"@) == 100,
        edge_trust("cjmp-false"@) == 100,
        kind != "fall"@ && kind != "jmp"@ && kind != "cjmp-true"@ && kind != "cjmp-false"@ ==> edge_trust(kind) == 80,
{
}

/// Blocks are counted by their first instructions.
pub proof fn blocks_are_counted_by_their_leaders(f: Seq<InsnFacts>, eh: Seq<EhRegion>, s: nat, t: nat)
    requires
        s <= t,
    ensures
        leaders_before(f, eh, 0) == 0,
        leads(f, eh, s as int) ==> leaders_before(f, eh, s + 1) == leaders_before(f, eh, s) + 1,
        !leads(f, eh, s as int) ==> leaders_before(f, eh, s + 1) == leaders_before(f, eh, s),
        leaders_before(f, eh, s) <= leaders_before(f, eh, t),
        leaders_before(f, eh, t) <= t,
    decreases t,
{
    if t > s {
        blocks_are_counted_by_their_leaders(f, eh, s, (t - 1) as nat);
    } else if t > 0 {
        blocks_are_counted_by_their_leaders(f, eh, (s - 1) as nat, (t - 1) as nat);
    }
}

/// Every switch of the function is reported, in the order of the instructions.
pub proof fn switches_are_reported_in_order(ctx: Ctx, f: Seq<InsnFacts>, start: Va, i: nat)
    ensures
        switches_upto(ctx, f, start, 0).len() == 0,
        switch_at(ctx, f, start, i as int) matches Some(s) ==> switches_upto(ctx, f, start, i + 1) == switches_upto(
            ctx,
            f,
            start,
            i,
        ) + seq![switch_node(s)],
        switch_at(ctx, f, start, i as int) is None ==> switches_upto(ctx, f, start, i + 1) == switches_upto(ctx, f, start, i),
{
}

} // verus!
