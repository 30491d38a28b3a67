//! Pseudo-code of a function: its signature, its variables and its body.
//!
//! The pass stands at the top of a pipeline. What other stages say is handed to
//! it: the blocks in static single assignment form, before and after they are
//! optimized, the recovered types, and the rendered statements. It applies the
//! chosen types and names, resolves virtual calls, recovers texts and names for
//! addresses, and puts the function together.

use vstd::prelude::*;
use vstd::string::{StrSliceExecFns, StringExecFns};

use crate::bytes::{find_zero, zero_from};
use crate::classlayout::{class_has_table, constructed, ctor_class_of, has_table};
use crate::coalesce::{
    cfg_nodes, coalesce_vars, coalesced, destruct_ssa, destructed, lemma_plan_len, next_block_id, param_names, ssa_nodes,
    SYNTHETIC_VA_BASE,
};
use crate::ctx::{text_of, Ctx};
use crate::demangle::{in_word, is_word_char, qualified_name_in, qualified_text};
use crate::devirt::{
    block_defs, devirtualize, exact_name, found, known_tables, name_exactly_at, param_classes, pointee, pointee_of,
    resolved_node, resolved_nodes, rewritten, same_frame, stmt_target, Devirtualized, Resolved,
};
use crate::ir::{text_list, CfgArtifact, CfgBlock, Successor};
use crate::micro::{leads_down, part_of, CallTarget, MicroExpr, MicroStmt};
use crate::order::{
    firsts, keep_firsts, lemma_firsts_map, lemma_stable_map, sort_stable, stable, Comparable, Ranked, Repeats, Sortable,
};
use crate::sorted::{lex_lt, name_less, NameMap, SortKey, SortedMap, SortedSet};
use crate::source::Snapshot;
use crate::symbols::SymbolTable;
use crate::ssa::{CType, LocalVar, ParamInfo, RecoveredSignature, RecoveredType, SsaBlock, SsaStmt, TypeArtifact};
use crate::text::{
    before_char, before_dot, chars_of, contains_text, dec, decimal, hex, is_digit, join, join_texts, matches_at,
    occurs, occurs_at, parse_number, parsed, root_name, same, skip_space, strip, strip_text, trim, trim_start,
    trim_text, up_to,
};
use crate::va::Va;

verus! {

/// How pseudo-code is written.
#[derive(Clone, Copy, Debug, PartialEq, Eq, Structural)]
pub enum DecompStyle {
    /// Flat, with labels and jumps.
    Goto,
    /// With loops and conditions, not optimized.
    Structured,
    /// With loops and conditions, and optimized.
    Ssa,
}

impl DecompStyle {
    pub open spec fn text(self) -> Seq<char> {
        match self {
            DecompStyle::Goto => "goto"@,
            DecompStyle::Structured => "structured"@,
            DecompStyle::Ssa => "ssa"@,
        }
    }

    pub fn as_str(self) -> (r: &'static str)
        ensures
            r@ == self.text(),
    {
        match self {
            DecompStyle::Goto => "goto",
            DecompStyle::Structured => "structured",
            DecompStyle::Ssa => "ssa",
        }
    }
}

// ---------------------------------------------------------------------------
// The signature
// ---------------------------------------------------------------------------

/// The name of an integer type in C.
pub open spec fn c_type_name(bits: u32, signed: bool) -> Seq<char> {
    (if signed {
        "int"@
    } else {
        "uint"@
    }) + dec(bits as nat) + "_t"@
}

/// The name of an integer type in C.
pub fn c_type(bits: u32, signed: bool) -> (s: String)
    ensures
        s@ == c_type_name(bits, signed),
{
    let head = if signed {
        "int"
    } else {
        "uint"
    };
    String::from_str(head).concat(decimal(bits as u64).as_str()).concat("_t")
}

/// How a type is written.
pub open spec fn type_name_of(t: CType) -> Seq<char> {
    match t.name {
        Some(n) => n@,
        None => c_type_name(t.bits, t.signed),
    }
}

fn write_type(t: &CType) -> (s: String)
    ensures
        s@ == type_name_of(*t),
{
    match &t.name {
        Some(n) => n.clone(),
        None => c_type(t.bits, t.signed),
    }
}

/// How a parameter is written. The star of a pointer stands next to the name.
pub open spec fn param_text(p: ParamInfo) -> Seq<char> {
    let t = type_name_of(p.ty);
    if t.len() > 0 && t.last() == '*' {
        t + p.name@
    } else {
        t + " "@ + p.name@
    }
}

fn write_param(p: &ParamInfo) -> (s: String)
    ensures
        s@ == param_text(*p),
{
    let t = write_type(&p.ty);
    let n: usize = t.as_str().unicode_len();
    if n > 0 && t.as_str().get_char(n - 1) == '*' {
        t.concat(p.name.as_str())
    } else {
        t.concat(" ").concat(p.name.as_str())
    }
}

pub open spec fn param_texts(ps: Seq<ParamInfo>) -> Seq<Seq<char>> {
    ps.map_values(|p: ParamInfo| param_text(p))
}

/// The name holds its own parameters.
pub open spec fn is_prototype(n: Seq<char>) -> bool {
    occurs(n, "("@)
}

/// The signature of a function. A name that is a whole prototype stands as it
/// is, and a function without a name is called by its address.
pub open spec fn signature_text(va: Va, sig: RecoveredSignature, name: Option<Seq<char>>) -> Seq<char> {
    let ret = match sig.ret {
        Some(t) => type_name_of(t),
        None => "void"@,
    };
    let params = if sig.params@.len() == 0 {
        "void"@
    } else {
        join(param_texts(sig.params@), ", "@)
    };
    match name {
        Some(n) => if is_prototype(n) {
            n
        } else {
            ret + " "@ + n + "("@ + params + ")"@
        },
        None => ret + " sub_"@ + hex(va.0 as nat) + "("@ + params + ")"@,
    }
}

/// Writes the signature of a function.
pub fn format_signature(va: Va, sig: &RecoveredSignature, name: Option<&str>) -> (s: String)
    ensures
        s@ == signature_text(
            va,
            *sig,
            match name {
                Some(n) => Some(n@),
                None => None,
            },
        ),
{
    match name {
        Some(n) => {
            if contains_text(n, "(") {
                return String::from_str(n);
            }
        },
        None => {},
    }
    let ret = match &sig.ret {
        Some(t) => write_type(t),
        None => String::from_str("void"),
    };
    let params = if sig.params.len() == 0 {
        String::from_str("void")
    } else {
        let mut v: Vec<String> = Vec::new();
        let mut k: usize = 0;
        while k < sig.params.len()
            invariant
                k <= sig.params@.len(),
                v@.len() == k,
                forall|j: int| 0 <= j < k ==> (#[trigger] v@[j])@ == param_text(sig.params@[j]),
            decreases sig.params@.len() - k,
        {
            v.push(write_param(&sig.params[k]));
            k = k + 1;
        }
        assert(v@.map_values(|s: String| s@) =~= param_texts(sig.params@));
        join_texts(&v, ", ")
    };
    match name {
        Some(n) => ret.concat(" ").concat(n).concat("(").concat(params.as_str()).concat(")"),
        None => {
            let digits = crate::text::hexadecimal(va.0, false, 0);
            ret.concat(" sub_").concat(digits.as_str()).concat("(").concat(params.as_str()).concat(")")
        },
    }
}

/// The structure that a pointer type names.
pub fn struct_name_of(ty: &str) -> (s: String)
    ensures
        s@ == pointee(ty@),
{
    String::from_str(pointee_of(ty))
}

// ---------------------------------------------------------------------------
// Labels
// ---------------------------------------------------------------------------

/// Where the digits end that stand from index `k` on.
pub open spec fn digits_end(s: Seq<char>, k: int) -> int
    decreases s.len() - k,
{
    if 0 <= k < s.len() && is_digit(s[k]) {
        digits_end(s, k + 1)
    } else {
        k
    }
}

/// The block to which a jump at index `k` of a line leads.
pub open spec fn jump_at(l: Seq<char>, k: int) -> Option<usize> {
    if occurs_at(l, "goto block_"@, k) {
        parsed(l.subrange(k + 11, digits_end(l, k + 11)))
    } else {
        None
    }
}

/// The line jumps to the block.
pub open spec fn jumps_to(l: Seq<char>, n: usize) -> bool {
    exists|k: int| 0 <= k < l.len() && #[trigger] jump_at(l, k) == Some(n)
}

/// The block that a line is the label of.
pub open spec fn labels(l: Seq<char>) -> Option<usize> {
    match strip(trim_start(l), "// block_"@) {
        Some(r) => parsed(trim(up_to(r, ':'))),
        None => None,
    }
}

/// Some line jumps to the block.
pub open spec fn is_target(lines: Seq<Seq<char>>, n: usize) -> bool {
    exists|i: int| 0 <= i < lines.len() && jumps_to(#[trigger] lines[i], n)
}

/// The line is kept: it is no label, or one that some line jumps to.
pub open spec fn is_kept(lines: Seq<Seq<char>>, l: Seq<char>) -> bool {
    match labels(l) {
        Some(n) => is_target(lines, n),
        None => true,
    }
}

/// The first `k` lines, without the labels that nothing jumps to.
pub open spec fn stripped(lines: Seq<Seq<char>>, k: int) -> Seq<Seq<char>>
    decreases k,
{
    if k <= 0 {
        Seq::empty()
    } else if is_kept(lines, lines[k - 1]) {
        stripped(lines, k - 1).push(lines[k - 1])
    } else {
        stripped(lines, k - 1)
    }
}

fn find_jump(l: &str, v: &Vec<char>, word: &Vec<char>, k: usize) -> (r: Option<usize>)
    requires
        v@ == l@,
        word@ == "goto block_"@,
        k < v@.len(),
    ensures
        r == jump_at(l@, k as int),
{
    proof {
        reveal_strlit("goto block_");
    }
    if !matches_at(v, word, k) {
        return None;
    }
    let n: usize = v.len();
    assert(k + 11 <= n);
    let from: usize = k + 11;
    let mut e: usize = from;
    while e < v.len() && v[e] >= '0' && v[e] <= '9'
        invariant
            v@ == l@,
            from <= e <= v@.len(),
            digits_end(l@, from as int) == digits_end(l@, e as int),
        decreases v@.len() - e,
    {
        e = e + 1;
    }
    parse_number(l.substring_char(from, e))
}

/// Adds the blocks that a line jumps to.
fn add_targets(l: &str, out: &mut SortedSet<u64>)
    requires
        old(out).wf(),
    ensures
        final(out).wf(),
        forall|n: usize| #[trigger]
            final(out).set().contains(n as u64) <==> old(out).set().contains(n as u64) || jumps_to(l@, n),
{
    let v = chars_of(l);
    let word = chars_of("goto block_");
    let ghost first = out.set();
    let mut k: usize = 0;
    while k < v.len()
        invariant
            out.wf(),
            v@ == l@,
            word@ == "goto block_"@,
            k <= v@.len(),
            forall|n: usize| #[trigger]
                out.set().contains(n as u64) <==> first.contains(n as u64) || exists|i: int|
                    0 <= i < k && #[trigger] jump_at(l@, i) == Some(n),
        decreases v@.len() - k,
    {
        let ghost before = out.set();
        let got = find_jump(l, &v, &word, k);
        match got {
            Some(n) => {
                out.insert(n as u64);
            },
            None => {},
        }
        proof {
            assert forall|n: usize| #[trigger]
                out.set().contains(n as u64) <==> first.contains(n as u64) || exists|i: int|
                    0 <= i < k + 1 && #[trigger] jump_at(l@, i) == Some(n) by {
                assert(before.contains(n as u64) <==> first.contains(n as u64) || exists|i: int|
                    0 <= i < k && #[trigger] jump_at(l@, i) == Some(n));
                if got == Some(n) {
                    assert(jump_at(l@, k as int) == Some(n));
                }
            }
        }
        k = k + 1;
    }
    proof {
        assert forall|n: usize| #[trigger]
            out.set().contains(n as u64) <==> first.contains(n as u64) || jumps_to(l@, n) by {}
    }
}

fn find_label(l: &str) -> (r: Option<usize>)
    ensures
        r == labels(l@),
{
    let v = chars_of(l);
    let a: usize = skip_space(&v, 0, v.len());
    assert(v@.subrange(0, v@.len() as int) =~= v@);
    match strip_text(l.substring_char(a, v.len()), "// block_") {
        Some(rest) => parse_number(trim_text(before_char(rest, ':'))),
        None => None,
    }
}

fn collect_targets(lines: &Vec<String>) -> (out: SortedSet<u64>)
    ensures
        out.wf(),
        forall|n: usize| #[trigger] out.set().contains(n as u64) <==> is_target(text_list(lines@), n),
{
    let mut out: SortedSet<u64> = SortedSet::new();
    let mut k: usize = 0;
    let ghost ts = text_list(lines@);
    while k < lines.len()
        invariant
            out.wf(),
            k <= lines@.len(),
            ts == text_list(lines@),
            forall|n: usize| #[trigger]
                out.set().contains(n as u64) <==> exists|i: int| 0 <= i < k && jumps_to(#[trigger] ts[i], n),
        decreases lines@.len() - k,
    {
        let ghost before = out.set();
        assert(ts[k as int] == lines@[k as int]@);
        add_targets(lines[k].as_str(), &mut out);
        proof {
            assert forall|n: usize| #[trigger]
                out.set().contains(n as u64) <==> exists|i: int| 0 <= i < k + 1 && jumps_to(#[trigger] ts[i], n) by {
                assert(before.contains(n as u64) <==> exists|i: int| 0 <= i < k && jumps_to(#[trigger] ts[i], n));
                if jumps_to(ts[k as int], n) {
                    assert(jumps_to(ts[k as int], n));
                }
            }
        }
        k = k + 1;
    }
    out
}

/// Drops the labels that no line jumps to.
pub fn strip_unreferenced_block_labels(lines: &Vec<String>) -> (out: Vec<String>)
    ensures
        text_list(out@) == stripped(text_list(lines@), lines@.len() as int),
{
    let targets = collect_targets(lines);
    let mut out: Vec<String> = Vec::new();
    let mut k: usize = 0;
    let ghost ts = text_list(lines@);
    assert(text_list(out@) =~= Seq::<Seq<char>>::empty());
    while k < lines.len()
        invariant
            targets.wf(),
            k <= lines@.len(),
            ts == text_list(lines@),
            forall|n: usize| #[trigger] targets.set().contains(n as u64) <==> is_target(ts, n),
            text_list(out@) == stripped(ts, k as int),
        decreases lines@.len() - k,
    {
        assert(ts[k as int] == lines@[k as int]@);
        let keep = match find_label(lines[k].as_str()) {
            Some(n) => targets.contains(&(n as u64)),
            None => true,
        };
        if keep {
            let l = lines[k].clone();
            assert(text_list(out@.push(l)) =~= text_list(out@).push(l@));
            out.push(l);
        }
        k = k + 1;
    }
    out
}

// ---------------------------------------------------------------------------
// Local variables
// ---------------------------------------------------------------------------

/// A local variable that is declared, by its place on the stack.
#[derive(Clone, Debug, PartialEq, Eq)]
pub struct Declared {
    pub offset: i64,
    pub line: String,
}

/// A declaration, by contents.
pub ghost struct DeclaredNode {
    pub offset: i64,
    pub line: Seq<char>,
}

impl Ranked for Declared {
    open spec fn at_most(self, other: Declared) -> bool {
        self.offset <= other.offset
    }

    proof fn rank_laws(a: Declared, b: Declared, c: Declared) {
    }
}

impl Ranked for DeclaredNode {
    open spec fn at_most(self, other: DeclaredNode) -> bool {
        self.offset <= other.offset
    }

    proof fn rank_laws(a: DeclaredNode, b: DeclaredNode, c: DeclaredNode) {
    }
}

impl Sortable for Declared {
    fn not_after(&self, other: &Declared) -> (r: bool) {
        self.offset <= other.offset
    }
}

pub open spec fn declared_node(d: Declared) -> DeclaredNode {
    DeclaredNode { offset: d.offset, line: d.line@ }
}

/// How a local variable is declared.
pub open spec fn declaration(l: LocalVar) -> DeclaredNode {
    let t = match l.type_override {
        Some(t) => t@,
        None => c_type_name(l.size_bits, l.signed),
    };
    DeclaredNode { offset: l.offset, line: "    "@ + t + " "@ + l.name@ + ";"@ }
}

/// The name stands at index `k` of a text, and is no part of a longer one.
pub open spec fn stands_alone(s: Seq<char>, n: Seq<char>, k: int) -> bool {
    &&& occurs_at(s, n, k)
    &&& k == 0 || !in_word(s[k - 1])
    &&& k + n.len() >= s.len() || !in_word(s[k + n.len()])
}

/// The text holds the name.
pub open spec fn holds_name(s: Seq<char>, n: Seq<char>) -> bool {
    exists|k: int| 0 <= k <= s.len() && #[trigger] stands_alone(s, n, k)
}

fn has_name(s: &Vec<char>, name: &str) -> (r: bool)
    ensures
        r == holds_name(s@, name@),
{
    let n = chars_of(name);
    let mut k: usize = 0;
    while k < s.len()
        invariant
            n@ == name@,
            k <= s@.len(),
            forall|j: int| 0 <= j < k ==> !#[trigger] stands_alone(s@, name@, j),
        decreases s@.len() - k,
    {
        if matches_at(s, &n, k) && (k == 0 || !is_word_char(s[k - 1])) && (s.len() - k <= n.len() || !is_word_char(
            s[k + n.len()],
        )) {
            assert(stands_alone(s@, name@, k as int));
            return true;
        }
        k = k + 1;
    }
    let last = matches_at(s, &n, k) && (k == 0 || !is_word_char(s[k - 1]));
    assert(last == stands_alone(s@, name@, k as int));
    last
}

/// The declarations of those of the first `k` variables that the body names.
pub open spec fn declared_in(locals: Seq<LocalVar>, body: Seq<char>, k: int) -> Seq<DeclaredNode>
    decreases k,
{
    if k <= 0 {
        Seq::empty()
    } else if holds_name(body, locals[k - 1].name@) {
        declared_in(locals, body, k - 1).push(declaration(locals[k - 1]))
    } else {
        declared_in(locals, body, k - 1)
    }
}

/// The declarations of the variables that the body names, by their place on the
/// stack.
pub open spec fn declarations(locals: Seq<LocalVar>, body: Seq<Seq<char>>) -> Seq<Seq<char>> {
    stable(declared_in(locals, join(body, "\n"@), locals.len() as int)).map_values(|d: DeclaredNode| d.line)
}

fn declare(l: &LocalVar) -> (d: Declared)
    ensures
        declared_node(d) == declaration(*l),
{
    let t = match &l.type_override {
        Some(t) => t.clone(),
        None => c_type(l.size_bits, l.signed),
    };
    Declared {
        offset: l.offset,
        line: String::from_str("    ").concat(t.as_str()).concat(" ").concat(l.name.as_str()).concat(";"),
    }
}

/// Declares the variables that the body names, by their place on the stack.
pub fn local_decls(types: &TypeArtifact, body: &Vec<String>) -> (out: Vec<String>)
    ensures
        text_list(out@) == declarations(types.locals@, text_list(body@)),
{
    let joined = join_texts(body, "\n");
    let chars = chars_of(joined.as_str());
    let mut v: Vec<Declared> = Vec::new();
    let mut k: usize = 0;
    let ghost f = |d: Declared| declared_node(d);
    assert(v@.map_values(f) =~= Seq::<DeclaredNode>::empty());
    while k < types.locals.len()
        invariant
            k <= types.locals@.len(),
            f == (|d: Declared| declared_node(d)),
            chars@ == joined@,
            v@.map_values(f) == declared_in(types.locals@, joined@, k as int),
        decreases types.locals@.len() - k,
    {
        let l = &types.locals[k];
        if has_name(&chars, l.name.as_str()) {
            let d = declare(l);
            assert(v@.push(d).map_values(f) =~= v@.map_values(f).push(declared_node(d)));
            v.push(d);
        }
        k = k + 1;
    }
    proof {
        lemma_stable_map(v@, f);
    }
    let sorted = sort_stable(v);
    let mut out: Vec<String> = Vec::new();
    let mut i: usize = 0;
    while i < sorted.len()
        invariant
            i <= sorted@.len(),
            out@.len() == i,
            forall|j: int| 0 <= j < i ==> (#[trigger] out@[j])@ == sorted@[j].line@,
        decreases sorted@.len() - i,
    {
        out.push(sorted[i].line.clone());
        i = i + 1;
    }
    proof {
        let nodes = stable(declared_in(types.locals@, joined@, types.locals@.len() as int));
        assert(nodes == sorted@.map_values(f));
        assert(text_list(out@) =~= nodes.map_values(|d: DeclaredNode| d.line)) by {
            assert forall|j: int| 0 <= j < out@.len() implies text_list(out@)[j] == nodes[j].line by {
                assert(nodes[j] == declared_node(sorted@[j]));
            }
        }
    }
    out
}

// ---------------------------------------------------------------------------
// Coverage
// ---------------------------------------------------------------------------

/// The statement is an instruction that was not understood.
pub open spec fn is_unlifted(s: SsaStmt) -> bool {
    s.stmt is Unlifted
}

/// The number of instructions in the first `k` statements that were not
/// understood.
pub open spec fn unlifted_in(s: Seq<SsaStmt>, k: int) -> nat
    decreases k,
{
    if k <= 0 {
        0
    } else {
        unlifted_in(s, k - 1) + (if is_unlifted(s[k - 1]) {
            1nat
        } else {
            0
        })
    }
}

/// The number of instructions in the first `k` blocks that were not understood.
pub open spec fn unlifted(blocks: Seq<SsaBlock>, k: int) -> nat
    decreases k,
{
    if k <= 0 {
        0
    } else {
        unlifted(blocks, k - 1) + unlifted_in(blocks[k - 1].stmts@, blocks[k - 1].stmts@.len() as int)
    }
}

/// The number as far as it fits a machine word.
pub open spec fn at_most_word(n: nat) -> usize {
    if n <= usize::MAX {
        n as usize
    } else {
        usize::MAX
    }
}

/// Counts the instructions that were not understood.
pub fn count_unlifted(blocks: &Vec<SsaBlock>) -> (n: usize)
    ensures
        n == at_most_word(unlifted(blocks@, blocks@.len() as int)),
{
    let mut n: usize = 0;
    let mut b: usize = 0;
    while b < blocks.len()
        invariant
            b <= blocks@.len(),
            n == at_most_word(unlifted(blocks@, b as int)),
        decreases blocks@.len() - b,
    {
        let stmts = &blocks[b].stmts;
        let ghost base = unlifted(blocks@, b as int);
        let mut i: usize = 0;
        while i < stmts.len()
            invariant
                i <= stmts@.len(),
                n == at_most_word(base + unlifted_in(stmts@, i as int)),
            decreases stmts@.len() - i,
        {
            match &stmts[i].stmt {
                MicroStmt::Unlifted { .. } => {
                    if n < usize::MAX {
                        n = n + 1;
                    }
                },
                _ => {},
            }
            i = i + 1;
        }
        b = b + 1;
    }
    n
}

// ---------------------------------------------------------------------------
// The flat form
// ---------------------------------------------------------------------------

/// The texts of one block.
#[derive(Clone, Debug, PartialEq, Eq)]
pub struct RenderedBlock {
    /// The text of each statement, where it has one.
    pub stmts: Vec<Option<String>>,
    /// The text of the condition that the block branches on.
    pub condition: Option<String>,
}

/// The number of the first block from index `k` on that starts at the address.
pub open spec fn block_id_from(blocks: Seq<CfgBlock>, addr: Va, k: int) -> Option<usize>
    decreases blocks.len() - k,
{
    if k < 0 || k >= blocks.len() {
        None
    } else if blocks[k].start == addr {
        Some(blocks[k].id)
    } else {
        block_id_from(blocks, addr, k + 1)
    }
}

/// The number of the block that starts at the address.
pub fn addr_to_id(cfg: &CfgArtifact, addr: Va) -> (r: Option<usize>)
    ensures
        r == block_id_from(cfg.blocks@, addr, 0),
{
    let mut k: usize = 0;
    while k < cfg.blocks.len()
        invariant
            k <= cfg.blocks@.len(),
            block_id_from(cfg.blocks@, addr, 0) == block_id_from(cfg.blocks@, addr, k as int),
        decreases cfg.blocks@.len() - k,
    {
        if cfg.blocks[k].start == addr {
            return Some(cfg.blocks[k].id);
        }
        k = k + 1;
    }
    None
}

/// The first edge of the kind, from index `k` on.
pub open spec fn edge_from(s: Seq<Successor>, kind: Seq<char>, k: int) -> Option<int>
    decreases s.len() - k,
{
    if k < 0 || k >= s.len() {
        None
    } else if s[k].kind@ == kind {
        Some(k)
    } else {
        edge_from(s, kind, k + 1)
    }
}

fn find_edge(s: &Vec<Successor>, kind: &str) -> (r: Option<usize>)
    ensures
        match (r, edge_from(s@, kind@, 0)) {
            (Some(i), Some(j)) => i == j && i < s@.len(),
            (None, None) => true,
            _ => false,
        },
{
    let mut k: usize = 0;
    while k < s.len()
        invariant
            k <= s@.len(),
            edge_from(s@, kind@, 0) == edge_from(s@, kind@, k as int),
        decreases s@.len() - k,
    {
        if same(s[k].kind.as_str(), kind) {
            return Some(k);
        }
        k = k + 1;
    }
    None
}

/// The block that the first edge of the kind leads to.
pub open spec fn edge_block(cfg: CfgArtifact, s: Seq<Successor>, kind: Seq<char>) -> Option<usize> {
    match edge_from(s, kind, 0) {
        Some(k) => block_id_from(cfg.blocks@, s[k].to, 0),
        None => None,
    }
}

fn find_edge_block(cfg: &CfgArtifact, s: &Vec<Successor>, kind: &str) -> (r: Option<usize>)
    ensures
        r == edge_block(*cfg, s@, kind@),
{
    match find_edge(s, kind) {
        Some(k) => addr_to_id(cfg, s[k].to),
        None => None,
    }
}

/// A jump to a block, behind some words.
pub open spec fn jump_line(head: Seq<char>, id: usize) -> Seq<char> {
    head + "goto block_"@ + dec(id as nat) + ";"@
}

fn write_jump(head: &str, id: usize) -> (s: String)
    ensures
        s@ == jump_line(head@, id),
{
    String::from_str(head).concat("goto block_").concat(decimal(id as u64).as_str()).concat(";")
}

/// The cases of a dispatch, from its first `k` edges.
pub open spec fn case_lines(cfg: CfgArtifact, s: Seq<Successor>, k: int) -> Seq<Seq<char>>
    decreases k,
{
    if k <= 0 {
        Seq::empty()
    } else {
        match block_id_from(cfg.blocks@, s[k - 1].to, 0) {
            Some(j) => case_lines(cfg, s, k - 1).push(jump_line("    //   case -> "@, j)),
            None => case_lines(cfg, s, k - 1),
        }
    }
}

/// How a block ends. Its condition is written as `cond`.
pub open spec fn last_lines(cfg: CfgArtifact, b: SsaBlock, cond: Seq<char>) -> Seq<Seq<char>> {
    let t = b.terminator@;
    let s = b.successors@;
    if t == "ijmp"@ {
        if edge_from(s, "switch-case"@, 0) is Some {
            seq!["    // switch dispatch:"@] + case_lines(cfg, s, s.len() as int)
        } else {
            seq!["    // indirect jump (unrecovered)"@]
        }
    } else if t == "jmp"@ || t == "fall"@ {
        if s.len() == 0 {
            Seq::empty()
        } else {
            match block_id_from(cfg.blocks@, s[0].to, 0) {
                Some(j) => seq![jump_line("    "@, j)],
                None => Seq::empty(),
            }
        }
    } else if t == "cjmp"@ {
        (match edge_block(cfg, s, "cjmp-true"@) {
            Some(j) => seq![jump_line("    if ("@ + cond + ") "@, j)],
            None => Seq::empty(),
        }) + (match edge_block(cfg, s, "cjmp-false"@) {
            Some(j) => seq![jump_line("    "@, j)],
            None => Seq::empty(),
        })
    } else {
        Seq::empty()
    }
}

/// The texts of the first `k` statements.
pub open spec fn stmt_lines(texts: Seq<Option<String>>, k: int) -> Seq<Seq<char>>
    decreases k,
{
    if k <= 0 {
        Seq::empty()
    } else {
        match texts[k - 1] {
            Some(t) => stmt_lines(texts, k - 1).push("    "@ + t@),
            None => stmt_lines(texts, k - 1),
        }
    }
}

/// How a block is written.
pub open spec fn block_lines(cfg: CfgArtifact, b: SsaBlock, r: RenderedBlock) -> Seq<Seq<char>> {
    let cond = match r.condition {
        Some(c) => c@,
        None => "/*?*/"@,
    };
    seq!["block_"@ + dec(b.id as nat) + ":    // "@ + b.start.text()] + stmt_lines(r.stmts@, r.stmts@.len() as int)
        + last_lines(cfg, b, cond)
}

/// The first `k` blocks, with an empty line between two.
pub open spec fn goto_lines(cfg: CfgArtifact, blocks: Seq<SsaBlock>, r: Seq<RenderedBlock>, k: int) -> Seq<Seq<char>>
    decreases k,
{
    if k <= 0 {
        Seq::empty()
    } else if k == 1 {
        block_lines(cfg, blocks[0], r[0])
    } else {
        goto_lines(cfg, blocks, r, k - 1).push(""@) + block_lines(cfg, blocks[k - 1], r[k - 1])
    }
}

fn push_line(lines: &mut Vec<String>, s: String)
    ensures
        text_list(final(lines)@) == text_list(old(lines)@).push(s@),
{
    assert(text_list(lines@.push(s)) =~= text_list(lines@).push(s@));
    lines.push(s);
}

fn push_cases(cfg: &CfgArtifact, s: &Vec<Successor>, lines: &mut Vec<String>)
    ensures
        text_list(final(lines)@) == text_list(old(lines)@) + case_lines(*cfg, s@, s@.len() as int),
{
    let ghost before = text_list(lines@);
    let mut k: usize = 0;
    assert(before + Seq::<Seq<char>>::empty() =~= before);
    while k < s.len()
        invariant
            k <= s@.len(),
            text_list(lines@) == before + case_lines(*cfg, s@, k as int),
        decreases s@.len() - k,
    {
        let got = addr_to_id(cfg, s[k].to);
        let ghost was = case_lines(*cfg, s@, k as int);
        match got {
            Some(j) => {
                let l = write_jump("    //   case -> ", j);
                assert((before + was).push(l@) =~= before + was.push(l@));
                push_line(lines, l);
            },
            None => {},
        }
        k = k + 1;
    }
}

fn push_last(cfg: &CfgArtifact, b: &SsaBlock, cond: &str, lines: &mut Vec<String>)
    ensures
        text_list(final(lines)@) == text_list(old(lines)@) + last_lines(*cfg, *b, cond@),
{
    let ghost before = text_list(lines@);
    let t = b.terminator.as_str();
    assert(before + Seq::<Seq<char>>::empty() =~= before);
    if same(t, "ijmp") {
        if find_edge(&b.successors, "switch-case").is_some() {
            push_line(lines, String::from_str("    // switch dispatch:"));
            push_cases(cfg, &b.successors, lines);
        } else {
            push_line(lines, String::from_str("    // indirect jump (unrecovered)"));
        }
    } else if same(t, "jmp") || same(t, "fall") {
        if b.successors.len() > 0 {
            match addr_to_id(cfg, b.successors[0].to) {
                Some(j) => push_line(lines, write_jump("    ", j)),
                None => {},
            }
        }
    } else if same(t, "cjmp") {
        match find_edge_block(cfg, &b.successors, "cjmp-true") {
            Some(j) => {
                let head = String::from_str("    if (").concat(cond).concat(") ");
                push_line(lines, write_jump(head.as_str(), j));
            },
            None => {},
        }
        match find_edge_block(cfg, &b.successors, "cjmp-false") {
            Some(j) => push_line(lines, write_jump("    ", j)),
            None => {},
        }
    }
    assert(text_list(lines@) =~= before + last_lines(*cfg, *b, cond@));
}

fn push_block(cfg: &CfgArtifact, b: &SsaBlock, r: &RenderedBlock, lines: &mut Vec<String>)
    ensures
        text_list(final(lines)@) == text_list(old(lines)@) + block_lines(*cfg, *b, *r),
{
    let ghost before = text_list(lines@);
    let head = String::from_str("block_").concat(decimal(b.id as u64).as_str()).concat(":    // ").concat(
        b.start.to_text().as_str(),
    );
    let ghost h = head@;
    push_line(lines, head);
    let mut i: usize = 0;
    assert(before.push(h) + Seq::<Seq<char>>::empty() =~= before.push(h));
    while i < r.stmts.len()
        invariant
            i <= r.stmts@.len(),
            text_list(lines@) == before.push(h) + stmt_lines(r.stmts@, i as int),
        decreases r.stmts@.len() - i,
    {
        let ghost was = stmt_lines(r.stmts@, i as int);
        match &r.stmts[i] {
            Some(t) => {
                let l = String::from_str("    ").concat(t.as_str());
                assert((before.push(h) + was).push(l@) =~= before.push(h) + was.push(l@));
                push_line(lines, l);
            },
            None => {},
        }
        i = i + 1;
    }
    let cond = match &r.condition {
        Some(c) => c.as_str(),
        None => "/*?*/",
    };
    push_last(cfg, b, cond, lines);
    assert(text_list(lines@) =~= before + block_lines(*cfg, *b, *r));
}

/// The flat form of a function: its blocks, each with a label, its statements
/// and its jumps. There is one text for each block.
pub fn render_goto(cfg: &CfgArtifact, blocks: &Vec<SsaBlock>, rendered: &Vec<RenderedBlock>) -> (lines: Vec<String>)
    requires
        rendered@.len() == blocks@.len(),
    ensures
        text_list(lines@) == goto_lines(*cfg, blocks@, rendered@, blocks@.len() as int),
{
    let mut lines: Vec<String> = Vec::new();
    let mut k: usize = 0;
    assert(text_list(lines@) =~= Seq::<Seq<char>>::empty());
    while k < blocks.len()
        invariant
            k <= blocks@.len(),
            rendered@.len() == blocks@.len(),
            text_list(lines@) == goto_lines(*cfg, blocks@, rendered@, k as int),
        decreases blocks@.len() - k,
    {
        if k > 0 {
            push_line(&mut lines, String::from_str(""));
        }
        let ghost before = text_list(lines@);
        push_block(cfg, &blocks[k], &rendered[k], &mut lines);
        assert(k == 0 ==> before + block_lines(*cfg, blocks@[0], rendered@[0]) =~= block_lines(
            *cfg,
            blocks@[0],
            rendered@[0],
        ));
        k = k + 1;
    }
    lines
}

// ---------------------------------------------------------------------------
// Addresses among the constants
// ---------------------------------------------------------------------------

/// The constants in an expression that can be addresses.
pub open spec fn consts_of(e: MicroExpr) -> Set<u64>
    decreases e, 0nat,
{
    match e {
        MicroExpr::Const { value, .. } => if 0 <= value <= u64::MAX {
            Set::<u64>::empty().insert(value as u64)
        } else {
            Set::empty()
        },
        MicroExpr::Load { addr, .. } => consts_of(*addr),
        MicroExpr::Unary(_, v) => consts_of(*v),
        MicroExpr::Binary(_, l, r) => consts_of(*l).union(consts_of(*r)),
        MicroExpr::Cast { expr, .. } => consts_of(*expr),
        MicroExpr::AddrOf(inner) => consts_of(*inner),
        MicroExpr::Select { cond, a, b } => consts_of(*cond).union(consts_of(*a)).union(consts_of(*b)),
        MicroExpr::Compare { lhs, rhs, .. } => consts_of(*lhs).union(consts_of(*rhs)),
        MicroExpr::Call { target, args } => target_consts(target).union(list_consts(args, args@.len())),
        _ => Set::empty(),
    }
}

/// The constants in a call target.
pub open spec fn target_consts(t: CallTarget) -> Set<u64>
    decreases t, 0nat,
{
    match t {
        CallTarget::Indirect(e) => consts_of(*e),
        _ => Set::empty(),
    }
}

/// The constants in the first `k` arguments.
pub open spec fn list_consts(args: Vec<MicroExpr>, k: nat) -> Set<u64>
    decreases args, k,
{
    if k == 0 || k > args@.len() {
        Set::empty()
    } else {
        list_consts(args, (k - 1) as nat).union(consts_of(args[k - 1]))
    }
}

/// The constants in a statement that can be addresses.
pub open spec fn stmt_consts(s: MicroStmt) -> Set<u64> {
    match s {
        MicroStmt::Assign { value, .. } => consts_of(value),
        MicroStmt::Store { addr, value, .. } => consts_of(addr).union(consts_of(value)),
        MicroStmt::Call { target, args, .. } => target_consts(target).union(list_consts(args, args@.len())),
        MicroStmt::Return(Some(e)) => consts_of(e),
        _ => Set::empty(),
    }
}

/// Adds the constants in an expression that can be addresses.
pub fn collect_const_exprs(e: &MicroExpr, out: &mut SortedSet<u64>)
    requires
        old(out).wf(),
    ensures
        final(out).wf(),
        final(out).set() == old(out).set().union(consts_of(*e)),
    decreases *e, 0nat,
{
    match e {
        MicroExpr::Const { value, .. } => {
            if 0 <= *value && *value <= u64::MAX as i128 {
                out.insert(*value as u64);
            }
            assert(out.set() =~= old(out).set().union(consts_of(*e)));
        },
        MicroExpr::Load { addr, .. } => collect_const_exprs(addr, out),
        MicroExpr::Unary(_, v) => collect_const_exprs(v, out),
        MicroExpr::Binary(_, l, r) => {
            collect_const_exprs(l, out);
            collect_const_exprs(r, out);
            assert(out.set() =~= old(out).set().union(consts_of(*e)));
        },
        MicroExpr::Cast { expr, .. } => collect_const_exprs(expr, out),
        MicroExpr::AddrOf(inner) => collect_const_exprs(inner, out),
        MicroExpr::Select { cond, a, b } => {
            collect_const_exprs(cond, out);
            collect_const_exprs(a, out);
            collect_const_exprs(b, out);
            assert(out.set() =~= old(out).set().union(consts_of(*e)));
        },
        MicroExpr::Compare { lhs, rhs, .. } => {
            collect_const_exprs(lhs, out);
            collect_const_exprs(rhs, out);
            assert(out.set() =~= old(out).set().union(consts_of(*e)));
        },
        MicroExpr::Call { target, args } => {
            collect_target(target, out);
            collect_list(args, args.len(), out);
            assert(out.set() =~= old(out).set().union(consts_of(*e)));
        },
        MicroExpr::Var(_) | MicroExpr::OpaqueFlags { .. } | MicroExpr::Unknown(_) => {
            assert(out.set() =~= old(out).set().union(consts_of(*e)));
        },
    }
}

fn collect_target(t: &CallTarget, out: &mut SortedSet<u64>)
    requires
        old(out).wf(),
    ensures
        final(out).wf(),
        final(out).set() == old(out).set().union(target_consts(*t)),
    decreases *t, 0nat,
{
    match t {
        CallTarget::Indirect(e) => collect_const_exprs(e, out),
        _ => {
            assert(out.set() =~= old(out).set().union(target_consts(*t)));
        },
    }
}

fn collect_list(args: &Vec<MicroExpr>, k: usize, out: &mut SortedSet<u64>)
    requires
        old(out).wf(),
        k <= args@.len(),
    ensures
        final(out).wf(),
        final(out).set() == old(out).set().union(list_consts(*args, k as nat)),
    decreases *args, k as nat,
{
    if k > 0 {
        collect_list(args, k - 1, out);
        collect_const_exprs(&args[k - 1], out);
    }
    assert(out.set() =~= old(out).set().union(list_consts(*args, k as nat)));
}

/// Adds the constants in a statement that can be addresses.
pub fn collect_const_addrs(s: &MicroStmt, out: &mut SortedSet<u64>)
    requires
        old(out).wf(),
    ensures
        final(out).wf(),
        final(out).set() == old(out).set().union(stmt_consts(*s)),
{
    match s {
        MicroStmt::Assign { value, .. } => collect_const_exprs(value, out),
        MicroStmt::Store { addr, value, .. } => {
            collect_const_exprs(addr, out);
            collect_const_exprs(value, out);
        },
        MicroStmt::Call { target, args, .. } => {
            collect_target(target, out);
            collect_list(args, args.len(), out);
        },
        MicroStmt::Return(Some(e)) => collect_const_exprs(e, out),
        MicroStmt::Return(None) | MicroStmt::Nop | MicroStmt::Unlifted { .. } => {},
    }
    assert(out.set() =~= old(out).set().union(stmt_consts(*s)));
}

/// A constant of some statement.
pub open spec fn names_addr(sets: Seq<&[SsaBlock]>, a: u64) -> bool {
    exists|n: int, b: int, i: int|
        0 <= n < sets.len() && 0 <= b < sets[n]@.len() && 0 <= i < sets[n]@[b].stmts@.len() && stmt_consts(
            (#[trigger] sets[n]@[b].stmts@[i]).stmt,
        ).contains(a)
}

/// The place (`n`, `b`, `i`) comes before (`m`, `c`, `j`).
spec fn comes_before(n: int, b: int, i: int, m: int, c: int, j: int) -> bool {
    n < m || (n == m && (b < c || (b == c && i < j)))
}

/// A constant of some statement before the place.
spec fn names_before(sets: Seq<&[SsaBlock]>, a: u64, m: int, c: int, j: int) -> bool {
    exists|n: int, b: int, i: int|
        comes_before(n, b, i, m, c, j) && 0 <= n < sets.len() && 0 <= b < sets[n]@.len() && 0 <= i
            < sets[n]@[b].stmts@.len() && stmt_consts((#[trigger] sets[n]@[b].stmts@[i]).stmt).contains(a)
}

fn collect_addrs(sets: &[&[SsaBlock]]) -> (out: SortedSet<u64>)
    ensures
        out.wf(),
        forall|a: u64| #[trigger] out.set().contains(a) <==> names_addr(sets@, a),
{
    let mut out: SortedSet<u64> = SortedSet::new();
    let mut n: usize = 0;
    while n < sets.len()
        invariant
            n <= sets@.len(),
            out.wf(),
            forall|a: u64| #[trigger] out.set().contains(a) <==> names_before(sets@, a, n as int, 0, 0),
        decreases sets@.len() - n,
    {
        let blocks: &[SsaBlock] = sets[n];
        let mut b: usize = 0;
        while b < blocks.len()
            invariant
                n < sets@.len(),
                b <= blocks@.len(),
                blocks == sets@[n as int],
                out.wf(),
                forall|a: u64| #[trigger] out.set().contains(a) <==> names_before(sets@, a, n as int, b as int, 0),
            decreases blocks@.len() - b,
        {
            let stmts = &blocks[b].stmts;
            let mut i: usize = 0;
            while i < stmts.len()
                invariant
                    n < sets@.len(),
                    b < blocks@.len(),
                    i <= stmts@.len(),
                    blocks == sets@[n as int],
                    stmts == blocks@[b as int].stmts,
                    out.wf(),
                    forall|a: u64| #[trigger]
                        out.set().contains(a) <==> names_before(sets@, a, n as int, b as int, i as int),
                decreases stmts@.len() - i,
            {
                let ghost before = out.set();
                collect_const_addrs(&stmts[i].stmt, &mut out);
                proof {
                    assert forall|a: u64| #[trigger]
                        out.set().contains(a) <==> names_before(sets@, a, n as int, b as int, i + 1) by {
                        assert(before.contains(a) <==> names_before(sets@, a, n as int, b as int, i as int));
                        if stmt_consts(stmts@[i as int].stmt).contains(a) {
                            assert(stmt_consts(sets@[n as int]@[b as int].stmts@[i as int].stmt).contains(a));
                        }
                    }
                }
                i = i + 1;
            }
            proof {
                assert forall|a: u64| #[trigger]
                    out.set().contains(a) <==> names_before(sets@, a, n as int, b + 1, 0) by {
                    assert(out.set().contains(a) <==> names_before(
                        sets@,
                        a,
                        n as int,
                        b as int,
                        stmts@.len() as int,
                    ));
                }
            }
            b = b + 1;
        }
        proof {
            assert forall|a: u64| #[trigger] out.set().contains(a) <==> names_before(sets@, a, n + 1, 0, 0) by {
                assert(out.set().contains(a) <==> names_before(sets@, a, n as int, blocks@.len() as int, 0));
            }
        }
        n = n + 1;
    }
    proof {
        assert forall|a: u64| #[trigger] out.set().contains(a) <==> names_addr(sets@, a) by {
            assert(out.set().contains(a) <==> names_before(sets@, a, sets@.len() as int, 0, 0));
        }
    }
    out
}

// ---------------------------------------------------------------------------
// Texts and names for addresses
// ---------------------------------------------------------------------------

/// No text is sought further.
pub const MAX_STRING_LEN: usize = 200;

/// A shorter text is taken for a coincidence.
pub const MIN_STRING_LEN: usize = 4;

/// What a map of texts holds.
pub open spec fn spelled<K>(m: Map<K, String>) -> Map<K, Seq<char>> {
    Map::new(|k: K| m.contains_key(k), |k: K| m[k]@)
}

/// A printable byte, or white space.
pub open spec fn is_text_byte(b: u8) -> bool {
    0x20 <= b <= 0x7e || b == 9 || b == 10 || b == 13
}

pub open spec fn all_text(b: Seq<u8>) -> bool {
    forall|i: int| 0 <= i < b.len() ==> is_text_byte(#[trigger] b[i])
}

/// How a byte is written in a literal.
pub open spec fn escape(b: u8) -> Seq<char> {
    if b == 34 {
        seq!['\\', '"']
    } else if b == 92 {
        seq!['\\', '\\']
    } else if b == 9 {
        seq!['\\', 't']
    } else if b == 10 {
        seq!['\\', 'n']
    } else if b == 13 {
        seq!['\\', 'r']
    } else {
        seq![b as char]
    }
}

/// How the first `k` bytes are written in a literal.
pub open spec fn escaped(b: Seq<u8>, k: int) -> Seq<char>
    decreases k,
{
    if k <= 0 {
        Seq::empty()
    } else {
        escaped(b, k - 1) + escape(b[k - 1])
    }
}

/// A text as a literal, in quotes.
pub open spec fn quoted(b: Seq<u8>) -> Seq<char> {
    seq!['"'] + escaped(b, b.len() as int) + seq!['"']
}

/// The literal for the text at an address: printable, ended by a zero, and
/// neither too short nor too long.
pub open spec fn literal_at(src: Snapshot, va: u64) -> Option<Seq<char>> {
    match src.read_of(va, MAX_STRING_LEN as nat) {
        Some(b) => match zero_from(b, 0) {
            Some(z) => if z >= MIN_STRING_LEN && all_text(b.take(z)) {
                Some(quoted(b.take(z)))
            } else {
                None
            },
            None => None,
        },
        None => None,
    }
}

fn push_escape(s: &mut String, b: u8)
    requires
        is_text_byte(b),
    ensures
        final(s)@ == old(s)@ + escape(b),
{
    let ghost before = s@;
    if b == 34 {
        s.push('\\');
        s.push('"');
    } else if b == 92 {
        s.push('\\');
        s.push('\\');
    } else if b == 9 {
        s.push('\\');
        s.push('t');
    } else if b == 10 {
        s.push('\\');
        s.push('n');
    } else if b == 13 {
        s.push('\\');
        s.push('r');
    } else {
        s.push(b as char);
    }
    assert(s@ =~= before + escape(b));
}

fn is_all_text(b: &Vec<u8>, n: usize) -> (r: bool)
    requires
        n <= b@.len(),
    ensures
        r == all_text(b@.take(n as int)),
{
    let mut k: usize = 0;
    while k < n
        invariant
            k <= n <= b@.len(),
            forall|i: int| 0 <= i < k ==> is_text_byte(#[trigger] b@.take(n as int)[i]),
        decreases n - k,
    {
        let c: u8 = b[k];
        assert(b@.take(n as int)[k as int] == c);
        if !(0x20 <= c && c <= 0x7e || c == 9 || c == 10 || c == 13) {
            return false;
        }
        k = k + 1;
    }
    true
}

/// Reads the text at an address as a literal.
pub fn read_c_string(source: &Snapshot, va: u64) -> (r: Option<String>)
    ensures
        text_of(r) == literal_at(*source, va),
{
    let bytes = match source.read(Va(va), MAX_STRING_LEN) {
        Ok(b) => b,
        Err(_) => {
            return None;
        },
    };
    let z: usize = match find_zero(&bytes, 0) {
        Some(z) => z,
        None => {
            return None;
        },
    };
    if z < MIN_STRING_LEN || !is_all_text(&bytes, z) {
        return None;
    }
    let mut s = String::from_str("");
    proof {
        reveal_strlit("");
    }
    s.push('"');
    let ghost t = bytes@.take(z as int);
    let mut k: usize = 0;
    assert(s@ =~= seq!['"'] + escaped(t, 0));
    while k < z
        invariant
            k <= z <= bytes@.len(),
            t == bytes@.take(z as int),
            all_text(t),
            s@ == seq!['"'] + escaped(t, k as int),
        decreases z - k,
    {
        assert(t[k as int] == bytes@[k as int]);
        let ghost was = escaped(t, k as int);
        push_escape(&mut s, bytes[k]);
        assert(seq!['"'] + was + escape(t[k as int]) =~= seq!['"'] + (was + escape(t[k as int])));
        k = k + 1;
    }
    let ghost was = s@;
    s.push('"');
    assert(s@ =~= was + seq!['"']);
    Some(s)
}

/// The constants of the statements that are addresses of texts, each with its
/// literal.
pub open spec fn string_refs(sets: Seq<&[SsaBlock]>, src: Snapshot) -> Map<u64, Seq<char>> {
    Map::new(
        |a: u64| names_addr(sets, a) && literal_at(src, a) is Some,
        |a: u64| literal_at(src, a)->0,
    )
}

/// Finds the texts that constants of the statements are addresses of.
pub fn recover_strings(sets: &[&[SsaBlock]], source: &Snapshot) -> (out: SortedMap<u64, String>)
    ensures
        out.wf(),
        spelled(out.map()) == string_refs(sets@, *source),
{
    let addrs = collect_addrs(sets);
    let mut out: SortedMap<u64, String> = SortedMap::new();
    let mut k: usize = 0;
    while k < addrs.items.len()
        invariant
            addrs.wf(),
            k <= addrs.items@.len(),
            out.wf(),
            forall|a: u64| #[trigger]
                out.map().contains_key(a) <==> literal_at(*source, a) is Some && exists|i: int|
                    0 <= i < k && #[trigger] addrs.items@[i] == a,
            forall|a: u64| #[trigger] out.map().contains_key(a) ==> Some(out.map()[a]@) == literal_at(*source, a),
        decreases addrs.items@.len() - k,
    {
        let va: u64 = addrs.items[k];
        let ghost before = out.map();
        match read_c_string(source, va) {
            Some(lit) => {
                out.insert(va, lit);
            },
            None => {},
        }
        proof {
            assert forall|a: u64| #[trigger]
                out.map().contains_key(a) <==> literal_at(*source, a) is Some && exists|i: int|
                    0 <= i < k + 1 && #[trigger] addrs.items@[i] == a by {
                assert(before.contains_key(a) <==> literal_at(*source, a) is Some && exists|i: int|
                    0 <= i < k && #[trigger] addrs.items@[i] == a);
                if a == va {
                    assert(addrs.items@[k as int] == a);
                }
            }
        }
        k = k + 1;
    }
    proof {
        assert forall|a: u64| #[trigger] spelled(out.map()).contains_key(a) <==> string_refs(
            sets@,
            *source,
        ).contains_key(a) by {
            assert(addrs.set().contains(a) <==> names_addr(sets@, a));
            lemma_holds_word(addrs.items@, a);
            assert(out.map().contains_key(a) <==> literal_at(*source, a) is Some && exists|i: int|
                0 <= i < addrs.items@.len() && #[trigger] addrs.items@[i] == a);
        }
        assert(spelled(out.map()) =~= string_refs(sets@, *source));
    }
    out
}

proof fn lemma_holds_word(s: Seq<u64>, a: u64)
    ensures
        crate::sorted::holds(s, a) <==> exists|i: int| 0 <= i < s.len() && #[trigger] s[i] == a,
{
    if crate::sorted::holds(s, a) {
        let i = choose|i: int| 0 <= i < s.len() && (#[trigger] s[i]).model() == a;
        assert(s[i] == a);
    }
    if exists|i: int| 0 <= i < s.len() && #[trigger] s[i] == a {
        let i = choose|i: int| 0 <= i < s.len() && #[trigger] s[i] == a;
        assert(s[i].model() == a);
    }
}

/// How a symbol's name is displayed: as the table of displayed names has it, and
/// else as it is.
pub open spec fn displayed(rendered: Map<Seq<char>, Seq<char>>, name: Seq<char>) -> Seq<char> {
    if rendered.contains_key(name) {
        rendered[name]
    } else {
        name
    }
}

fn display_name(rendered: &NameMap<String>, name: &String) -> (s: String)
    requires
        rendered.wf(),
    ensures
        s@ == displayed(spelled(rendered.map()), name@),
{
    match rendered.get(name) {
        Some(s) => s.clone(),
        None => name.clone(),
    }
}

/// The name of what stands exactly at an address, as it is displayed.
pub open spec fn shown_at(
    symbols: Option<&SymbolTable>,
    rendered: Map<Seq<char>, Seq<char>>,
    va: Va,
) -> Option<Seq<char>> {
    match name_exactly_at(symbols, va) {
        Some(n) => Some(displayed(rendered, n)),
        None => None,
    }
}

fn show_at(symbols: Option<&SymbolTable>, rendered: &NameMap<String>, va: Va) -> (r: Option<String>)
    requires
        rendered.wf(),
    ensures
        text_of(r) == shown_at(symbols, spelled(rendered.map()), va),
{
    match exact_name(symbols, va) {
        Some(n) => Some(display_name(rendered, n)),
        None => None,
    }
}

/// The constants of the statements that are exact addresses of symbols, each
/// with the symbol's name behind `&`.
pub open spec fn data_refs(
    sets: Seq<&[SsaBlock]>,
    symbols: Option<&SymbolTable>,
    rendered: Map<Seq<char>, Seq<char>>,
) -> Map<u64, Seq<char>> {
    Map::new(
        |a: u64| names_addr(sets, a) && name_exactly_at(symbols, Va(a)) is Some,
        |a: u64| "&"@ + shown_at(symbols, rendered, Va(a))->0,
    )
}

/// Finds the symbols that constants of the statements are exact addresses of.
pub fn recover_data_refs(sets: &[&[SsaBlock]], symbols: Option<&SymbolTable>, rendered: &NameMap<String>) -> (out:
    SortedMap<u64, String>)
    requires
        rendered.wf(),
    ensures
        out.wf(),
        spelled(out.map()) == data_refs(sets@, symbols, spelled(rendered.map())),
{
    let addrs = collect_addrs(sets);
    let mut out: SortedMap<u64, String> = SortedMap::new();
    let mut k: usize = 0;
    let ghost shown = spelled(rendered.map());
    while k < addrs.items.len()
        invariant
            addrs.wf(),
            rendered.wf(),
            shown == spelled(rendered.map()),
            k <= addrs.items@.len(),
            out.wf(),
            forall|a: u64| #[trigger]
                out.map().contains_key(a) <==> name_exactly_at(symbols, Va(a)) is Some && exists|i: int|
                    0 <= i < k && #[trigger] addrs.items@[i] == a,
            forall|a: u64| #[trigger]
                out.map().contains_key(a) ==> out.map()[a]@ == "&"@ + shown_at(symbols, shown, Va(a))->0,
        decreases addrs.items@.len() - k,
    {
        let va: u64 = addrs.items[k];
        let ghost before = out.map();
        match show_at(symbols, rendered, Va(va)) {
            Some(n) => {
                let t = String::from_str("&").concat(n.as_str());
                out.insert(va, t);
            },
            None => {},
        }
        proof {
            assert forall|a: u64| #[trigger]
                out.map().contains_key(a) <==> name_exactly_at(symbols, Va(a)) is Some && exists|i: int|
                    0 <= i < k + 1 && #[trigger] addrs.items@[i] == a by {
                assert(before.contains_key(a) <==> name_exactly_at(symbols, Va(a)) is Some && exists|i: int|
                    0 <= i < k && #[trigger] addrs.items@[i] == a);
                if a == va {
                    assert(addrs.items@[k as int] == a);
                }
            }
        }
        k = k + 1;
    }
    proof {
        assert forall|a: u64| #[trigger] spelled(out.map()).contains_key(a) <==> data_refs(
            sets@,
            symbols,
            shown,
        ).contains_key(a) by {
            assert(addrs.set().contains(a) <==> names_addr(sets@, a));
            lemma_holds_word(addrs.items@, a);
            assert(out.map().contains_key(a) <==> name_exactly_at(symbols, Va(a)) is Some && exists|i: int|
                0 <= i < addrs.items@.len() && #[trigger] addrs.items@[i] == a);
        }
        assert(spelled(out.map()) =~= data_refs(sets@, symbols, shown));
    }
    out
}

// ---------------------------------------------------------------------------
// Chosen types and names
// ---------------------------------------------------------------------------

/// A type, by contents.
pub ghost struct CTypeNode {
    pub bits: u32,
    pub signed: bool,
    pub name: Option<Seq<char>>,
}

/// A local variable, by contents.
pub ghost struct LocalNode {
    pub name: Seq<char>,
    pub offset: i64,
    pub size_bits: u32,
    pub signed: bool,
    pub type_override: Option<Seq<char>>,
}

/// A parameter, by contents.
pub ghost struct ParamNode {
    pub reg: Seq<char>,
    pub name: Seq<char>,
    pub ty: CTypeNode,
}

/// What type recovery says, by contents.
pub ghost struct TypesNode {
    pub locals: Seq<LocalNode>,
    pub structs: Seq<RecoveredType>,
    pub params: Seq<ParamNode>,
    pub ret: Option<CTypeNode>,
}

pub open spec fn ctype_node(t: CType) -> CTypeNode {
    CTypeNode { bits: t.bits, signed: t.signed, name: text_of(t.name) }
}

pub open spec fn local_node(l: LocalVar) -> LocalNode {
    LocalNode {
        name: l.name@,
        offset: l.offset,
        size_bits: l.size_bits,
        signed: l.signed,
        type_override: text_of(l.type_override),
    }
}

pub open spec fn param_node(p: ParamInfo) -> ParamNode {
    ParamNode { reg: p.reg@, name: p.name@, ty: ctype_node(p.ty) }
}

pub open spec fn types_node(t: TypeArtifact) -> TypesNode {
    TypesNode {
        locals: t.locals@.map_values(|l: LocalVar| local_node(l)),
        structs: t.structs@,
        params: t.signature.params@.map_values(|p: ParamInfo| param_node(p)),
        ret: match t.signature.ret {
            Some(c) => Some(ctype_node(c)),
            None => None,
        },
    }
}

/// A type that has a name.
pub open spec fn named_type(n: Seq<char>) -> CTypeNode {
    CTypeNode { bits: 64, signed: false, name: Some(n) }
}

/// The type that is chosen for a name. One of white space alone chooses nothing.
pub open spec fn choice(chosen: Map<Seq<char>, Seq<char>>, name: Seq<char>) -> Option<Seq<char>> {
    if chosen.contains_key(name) && trim(chosen[name]).len() > 0 {
        Some(chosen[name])
    } else {
        None
    }
}

pub open spec fn retyped_local(chosen: Map<Seq<char>, Seq<char>>, l: LocalNode) -> LocalNode {
    match choice(chosen, l.name) {
        Some(t) => LocalNode { type_override: Some(t), ..l },
        None => l,
    }
}

pub open spec fn retyped_param(chosen: Map<Seq<char>, Seq<char>>, p: ParamNode) -> ParamNode {
    match choice(chosen, p.name) {
        Some(t) => ParamNode { ty: named_type(t), ..p },
        None => p,
    }
}

/// The key under which the type of the result is chosen.
pub const RETURN_KEY: &'static str = "@return";

/// The type of the result. Where the choice is empty or `void` there is none.
pub open spec fn retyped_ret(chosen: Map<Seq<char>, Seq<char>>, ret: Option<CTypeNode>) -> Option<CTypeNode> {
    if chosen.contains_key("@return"@) {
        let t = trim(chosen["@return"@]);
        if t.len() == 0 || t == "void"@ {
            None
        } else {
            Some(named_type(t))
        }
    } else {
        ret
    }
}

/// What type recovery says, with the chosen types in place.
pub open spec fn retyped(chosen: Map<Seq<char>, Seq<char>>, t: TypesNode) -> TypesNode {
    TypesNode {
        locals: t.locals.map_values(|l: LocalNode| retyped_local(chosen, l)),
        structs: t.structs,
        params: t.params.map_values(|p: ParamNode| retyped_param(chosen, p)),
        ret: retyped_ret(chosen, t.ret),
    }
}

/// What type recovery says, with the chosen names in place.
pub open spec fn renamed(names: Map<Seq<char>, Seq<char>>, t: TypesNode) -> TypesNode {
    TypesNode {
        locals: t.locals.map_values(|l: LocalNode| LocalNode { name: displayed(names, l.name), ..l }),
        structs: t.structs,
        params: t.params.map_values(|p: ParamNode| ParamNode { name: displayed(names, p.name), ..p }),
        ret: t.ret,
    }
}

fn chosen_type(chosen: &NameMap<String>, name: &String) -> (r: Option<String>)
    requires
        chosen.wf(),
    ensures
        text_of(r) == choice(spelled(chosen.map()), name@),
{
    match chosen.get(name) {
        Some(t) => {
            if trim_text(t.as_str()).is_empty() {
                None
            } else {
                Some(t.clone())
            }
        },
        None => None,
    }
}

/// Puts the chosen types in place: of locals, of parameters and of the result.
pub fn apply_types(types: &mut TypeArtifact, chosen: &NameMap<String>)
    requires
        chosen.wf(),
    ensures
        types_node(*final(types)) == retyped(spelled(chosen.map()), types_node(*old(types))),
{
    let ghost first = *types;
    let ghost c = spelled(chosen.map());
    let mut k: usize = 0;
    while k < types.locals.len()
        invariant
            chosen.wf(),
            c == spelled(chosen.map()),
            k <= types.locals@.len(),
            types.locals@.len() == first.locals@.len(),
            types.structs == first.structs,
            types.signature == first.signature,
            forall|j: int|
                0 <= j < k ==> local_node(#[trigger] types.locals@[j]) == retyped_local(c, local_node(first.locals@[j])),
            forall|j: int| k <= j < types.locals@.len() ==> #[trigger] types.locals@[j] == first.locals@[j],
        decreases types.locals@.len() - k,
    {
        match chosen_type(chosen, &types.locals[k].name) {
            Some(t) => {
                types.locals[k].type_override = Some(t);
            },
            None => {},
        }
        k = k + 1;
    }
    let mut i: usize = 0;
    let ghost locals = types.locals;
    while i < types.signature.params.len()
        invariant
            chosen.wf(),
            c == spelled(chosen.map()),
            i <= types.signature.params@.len(),
            types.signature.params@.len() == first.signature.params@.len(),
            types.locals == locals,
            types.structs == first.structs,
            types.signature.ret == first.signature.ret,
            forall|j: int|
                0 <= j < i ==> param_node(#[trigger] types.signature.params@[j]) == retyped_param(
                    c,
                    param_node(first.signature.params@[j]),
                ),
            forall|j: int|
                i <= j < types.signature.params@.len() ==> #[trigger] types.signature.params@[j]
                    == first.signature.params@[j],
        decreases types.signature.params@.len() - i,
    {
        match chosen_type(chosen, &types.signature.params[i].name) {
            Some(t) => {
                types.signature.params[i].ty = CType { bits: 64, signed: false, name: Some(t) };
            },
            None => {},
        }
        i = i + 1;
    }
    let key = String::from_str(RETURN_KEY);
    match chosen.get(&key) {
        Some(t) => {
            let w = trim_text(t.as_str());
            types.signature.ret = if w.is_empty() || same(w, "void") {
                None
            } else {
                Some(CType { bits: 64, signed: false, name: Some(String::from_str(w)) })
            };
        },
        None => {},
    }
    proof {
        let want = retyped(c, types_node(first));
        let got = types_node(*types);
        assert(got.locals =~= want.locals);
        assert(got.params =~= want.params);
    }
}

/// Puts the chosen names in place: of locals and of parameters.
pub fn apply_names(types: &mut TypeArtifact, names: &NameMap<String>)
    requires
        names.wf(),
    ensures
        types_node(*final(types)) == renamed(spelled(names.map()), types_node(*old(types))),
{
    let ghost first = *types;
    let ghost c = spelled(names.map());
    let mut k: usize = 0;
    while k < types.locals.len()
        invariant
            names.wf(),
            c == spelled(names.map()),
            k <= types.locals@.len(),
            types.locals@.len() == first.locals@.len(),
            types.structs == first.structs,
            types.signature == first.signature,
            forall|j: int|
                0 <= j < k ==> local_node(#[trigger] types.locals@[j]) == (LocalNode {
                    name: displayed(c, first.locals@[j].name@),
                    ..local_node(first.locals@[j])
                }),
            forall|j: int| k <= j < types.locals@.len() ==> #[trigger] types.locals@[j] == first.locals@[j],
        decreases types.locals@.len() - k,
    {
        let n = display_name(names, &types.locals[k].name);
        types.locals[k].name = n;
        k = k + 1;
    }
    let mut i: usize = 0;
    let ghost locals = types.locals;
    while i < types.signature.params.len()
        invariant
            names.wf(),
            c == spelled(names.map()),
            i <= types.signature.params@.len(),
            types.signature.params@.len() == first.signature.params@.len(),
            types.locals == locals,
            types.structs == first.structs,
            types.signature.ret == first.signature.ret,
            forall|j: int|
                0 <= j < i ==> param_node(#[trigger] types.signature.params@[j]) == (ParamNode {
                    name: displayed(c, first.signature.params@[j].name@),
                    ..param_node(first.signature.params@[j])
                }),
            forall|j: int|
                i <= j < types.signature.params@.len() ==> #[trigger] types.signature.params@[j]
                    == first.signature.params@[j],
        decreases types.signature.params@.len() - i,
    {
        let n = display_name(names, &types.signature.params[i].name);
        types.signature.params[i].name = n;
        i = i + 1;
    }
    proof {
        let want = renamed(c, types_node(first));
        let got = types_node(*types);
        assert(got.locals =~= want.locals);
        assert(got.params =~= want.params);
    }
}

// ---------------------------------------------------------------------------
// The fields of structures
// ---------------------------------------------------------------------------

/// The type of the last of the first `k` parameters that comes in the register
/// and has a type with a name.
pub open spec fn param_type(params: Seq<ParamInfo>, reg: Seq<char>, k: int) -> Option<Seq<char>>
    decreases k,
{
    if k <= 0 {
        None
    } else if params[k - 1].reg@ == reg && params[k - 1].ty.name is Some {
        text_of(params[k - 1].ty.name)
    } else {
        param_type(params, reg, k - 1)
    }
}

/// The type behind a pointer: that of the parameter in its register, and else
/// the one that is chosen for the register.
pub open spec fn base_type(
    params: Seq<ParamInfo>,
    chosen: Map<Seq<char>, Seq<char>>,
    base_var: Seq<char>,
) -> Option<Seq<char>> {
    let root = root_name(base_var);
    match param_type(params, root, params.len() as int) {
        Some(t) => Some(t),
        None => if chosen.contains_key(root) {
            Some(chosen[root])
        } else {
            None
        },
    }
}

/// Fields by their offsets.
pub type Fields = SortedMap<i64, String>;

/// The named fields of a structure, from the catalog. A class with a table of
/// virtual functions carries a pointer to it at its start.
pub open spec fn fields_of(ctx: Ctx, defs: Map<Seq<char>, Fields>, name: Seq<char>) -> Map<i64, Seq<char>> {
    let own = if defs.contains_key(name) {
        spelled(defs[name].map())
    } else {
        Map::empty()
    };
    if has_table(ctx, name) && !own.contains_key(0) {
        own.insert(0, "vftable"@)
    } else {
        own
    }
}

/// The fields behind one pointer.
pub open spec fn fields_behind(
    ctx: Ctx,
    params: Seq<ParamInfo>,
    chosen: Map<Seq<char>, Seq<char>>,
    defs: Map<Seq<char>, Fields>,
    base_var: Seq<char>,
) -> Map<i64, Seq<char>> {
    match base_type(params, chosen, base_var) {
        Some(t) => fields_of(ctx, defs, pointee(t)),
        None => Map::empty(),
    }
}

/// The fields behind the pointers of the first `k` structures, where any are
/// named.
pub open spec fn field_binds(
    ctx: Ctx,
    params: Seq<ParamInfo>,
    chosen: Map<Seq<char>, Seq<char>>,
    defs: Map<Seq<char>, Fields>,
    structs: Seq<RecoveredType>,
    k: int,
) -> Map<Seq<char>, Map<i64, Seq<char>>>
    decreases k,
{
    if k <= 0 {
        Map::empty()
    } else {
        let before = field_binds(ctx, params, chosen, defs, structs, k - 1);
        let base = structs[k - 1].base_var@;
        let f = fields_behind(ctx, params, chosen, defs, base);
        if f == Map::<i64, Seq<char>>::empty() {
            before
        } else {
            before.insert(base, f)
        }
    }
}

/// What a map of fields holds.
pub open spec fn field_texts(m: Map<Seq<char>, Fields>) -> Map<Seq<char>, Map<i64, Seq<char>>> {
    Map::new(|k: Seq<char>| m.contains_key(k), |k: Seq<char>| spelled(m[k].map()))
}

/// Each structure of a catalog is well formed.
pub open spec fn catalog_wf(m: NameMap<Fields>) -> bool {
    m.wf() && forall|k: Seq<char>| #[trigger] m.map().contains_key(k) ==> m.map()[k].wf()
}

fn copy_fields(m: &Fields) -> (r: Fields)
    requires
        m.wf(),
    ensures
        r.wf(),
        spelled(r.map()) == spelled(m.map()),
        r.keys@ == m.keys@,
{
    let mut keys: Vec<i64> = Vec::new();
    let mut vals: Vec<String> = Vec::new();
    let mut k: usize = 0;
    while k < m.keys.len()
        invariant
            m.wf(),
            k <= m.keys@.len(),
            keys@.len() == k,
            vals@.len() == k,
            forall|j: int| 0 <= j < k ==> #[trigger] keys@[j] == m.keys@[j],
            forall|j: int| 0 <= j < k ==> (#[trigger] vals@[j])@ == m.vals@[j]@,
        decreases m.keys@.len() - k,
    {
        keys.push(m.keys[k]);
        vals.push(m.vals[k].clone());
        k = k + 1;
    }
    let r = SortedMap { keys, vals };
    proof {
        assert(r.keys@ =~= m.keys@);
        assert forall|a: i64| #[trigger] m.map().contains_key(a) implies spelled(r.map())[a] == spelled(m.map())[a] by {
            let i = crate::sorted::index_of_model(m.keys@, a);
            assert(m.keys@[i].model() == a);
            assert(r.vals@[i]@ == m.vals@[i]@);
        }
        assert(spelled(r.map()) =~= spelled(m.map()));
    }
    r
}

fn find_base_type(params: &Vec<ParamInfo>, chosen: &NameMap<String>, base_var: &str) -> (r: Option<String>)
    requires
        chosen.wf(),
    ensures
        text_of(r) == base_type(params@, spelled(chosen.map()), base_var@),
{
    let root = before_dot(base_var);
    let mut k: usize = params.len();
    while k > 0
        invariant
            k <= params@.len(),
            root@ == root_name(base_var@),
            chosen.wf(),
            param_type(params@, root@, params@.len() as int) == param_type(params@, root@, k as int),
        decreases k,
    {
        let p = &params[k - 1];
        if same(p.reg.as_str(), root) {
            match &p.ty.name {
                Some(n) => {
                    return Some(n.clone());
                },
                None => {},
            }
        }
        k = k - 1;
    }
    let key = String::from_str(root);
    match chosen.get(&key) {
        Some(t) => Some(t.clone()),
        None => None,
    }
}

fn find_fields(ctx: &Ctx, defs: &NameMap<Fields>, name: &String) -> (r: Fields)
    requires
        catalog_wf(*defs),
    ensures
        r.wf(),
        spelled(r.map()) == fields_of(*ctx, defs.map(), name@),
{
    let mut own: Fields = match defs.get(name) {
        Some(f) => copy_fields(f),
        None => SortedMap::new(),
    };
    proof {
        if !defs.map().contains_key(name@) {
            assert(spelled(own.map()) =~= Map::empty());
        }
    }
    if class_has_table(ctx, name.as_str()) && own.get(&0).is_none() {
        let ghost before = own.map();
        own.insert(0, String::from_str("vftable"));
        assert(spelled(own.map()) =~= spelled(before).insert(0, "vftable"@));
    }
    own
}

/// Binds the pointers of a function to the named fields of what they point to.
pub fn bind_fields(ctx: &Ctx, types: &TypeArtifact, chosen: &NameMap<String>, defs: &NameMap<Fields>) -> (out: NameMap<
    Fields,
>)
    requires
        chosen.wf(),
        catalog_wf(*defs),
    ensures
        catalog_wf(out),
        field_texts(out.map()) == field_binds(
            *ctx,
            types.signature.params@,
            spelled(chosen.map()),
            defs.map(),
            types.structs@,
            types.structs@.len() as int,
        ),
{
    let mut out: NameMap<Fields> = SortedMap::new();
    let mut k: usize = 0;
    let ghost params = types.signature.params@;
    let ghost c = spelled(chosen.map());
    assert(field_texts(out.map()) =~= Map::empty());
    while k < types.structs.len()
        invariant
            chosen.wf(),
            catalog_wf(*defs),
            catalog_wf(out),
            params == types.signature.params@,
            c == spelled(chosen.map()),
            k <= types.structs@.len(),
            field_texts(out.map()) == field_binds(*ctx, params, c, defs.map(), types.structs@, k as int),
        decreases types.structs@.len() - k,
    {
        let base = &types.structs[k].base_var;
        match find_base_type(&types.signature.params, chosen, base.as_str()) {
            Some(t) => {
                let f = find_fields(ctx, defs, &struct_name_of(t.as_str()));
                let ghost before = out.map();
                let ghost fm = f.map();
                proof {
                    lemma_no_fields(&f);
                }
                if f.keys.len() > 0 {
                    out.insert(base.clone(), f);
                    assert(field_texts(out.map()) =~= field_texts(before).insert(base@, spelled(fm)));
                }
            },
            None => {},
        }
        k = k + 1;
    }
    out
}

proof fn lemma_no_fields(f: &Fields)
    requires
        f.wf(),
    ensures
        f.keys@.len() == 0 <==> spelled(f.map()) == Map::<i64, Seq<char>>::empty(),
{
    if f.keys@.len() == 0 {
        assert(spelled(f.map()) =~= Map::<i64, Seq<char>>::empty());
    } else {
        assert(f.keys@[0].model() == f.keys@[0]);
        assert(f.map().contains_key(f.keys@[0]));
        assert(spelled(f.map()).contains_key(f.keys@[0]));
    }
}

// ---------------------------------------------------------------------------
// The order of resolved calls
// ---------------------------------------------------------------------------

/// By method, slot and class.
pub open spec fn call_at_most(a: Resolved, b: Resolved) -> bool {
    a.method.0 < b.method.0 || (a.method.0 == b.method.0 && (a.slot < b.slot || (a.slot == b.slot && !lex_lt(
        b.class,
        a.class,
    ))))
}

/// The same method, slot and class.
pub open spec fn same_call(a: Resolved, b: Resolved) -> bool {
    a.method == b.method && a.slot == b.slot && a.class == b.class
}

proof fn lemma_call_order(a: Resolved, b: Resolved, c: Resolved)
    ensures
        call_at_most(a, b) || call_at_most(b, a),
        call_at_most(a, b) && call_at_most(b, c) ==> call_at_most(a, c),
{
    <String as SortKey>::order_laws();
    assert(String::before(a.class, b.class) == lex_lt(a.class, b.class));
    assert(String::before(b.class, a.class) == lex_lt(b.class, a.class));
    assert(String::before(c.class, b.class) == lex_lt(c.class, b.class));
    assert(String::before(b.class, c.class) == lex_lt(b.class, c.class));
    assert(String::before(c.class, a.class) == lex_lt(c.class, a.class));
}

impl Ranked for Resolved {
    open spec fn at_most(self, other: Resolved) -> bool {
        call_at_most(self, other)
    }

    proof fn rank_laws(a: Resolved, b: Resolved, c: Resolved) {
        lemma_call_order(a, b, c);
    }
}

impl Ranked for Devirtualized {
    open spec fn at_most(self, other: Devirtualized) -> bool {
        call_at_most(resolved_node(self), resolved_node(other))
    }

    proof fn rank_laws(a: Devirtualized, b: Devirtualized, c: Devirtualized) {
        lemma_call_order(resolved_node(a), resolved_node(b), resolved_node(c));
    }
}

impl Sortable for Devirtualized {
    fn not_after(&self, other: &Devirtualized) -> (r: bool) {
        self.method.0 < other.method.0 || (self.method.0 == other.method.0 && (self.slot < other.slot || (self.slot
            == other.slot && !name_less(other.class.as_str(), self.class.as_str()))))
    }
}

impl Repeats for Resolved {
    open spec fn repeats(self, other: Resolved) -> bool {
        same_call(self, other)
    }
}

impl Repeats for Devirtualized {
    open spec fn repeats(self, other: Devirtualized) -> bool {
        same_call(resolved_node(self), resolved_node(other))
    }
}

impl Comparable for Devirtualized {
    fn is_repeat(&self, other: &Devirtualized) -> (r: bool) {
        self.method == other.method && self.slot == other.slot && same(self.class.as_str(), other.class.as_str())
    }
}

/// The resolved calls in order, each once.
pub open spec fn each_call_once(s: Seq<Resolved>) -> Seq<Resolved> {
    firsts(stable(s), s.len() as int)
}

fn list_calls(v: Vec<Devirtualized>) -> (out: Vec<Devirtualized>)
    ensures
        resolved_nodes(out@) == each_call_once(resolved_nodes(v@)),
{
    let ghost f = |d: Devirtualized| resolved_node(d);
    proof {
        lemma_stable_map(v@, f);
        crate::order::sorting_permutes(v@);
        assert(v@.map_values(f) =~= resolved_nodes(v@));
        lemma_firsts_map(stable(v@), v@.len() as int, f);
    }
    let sorted = sort_stable(v);
    let out = keep_firsts(sorted);
    assert(resolved_nodes(out@) =~= out@.map_values(f));
    out
}

// ---------------------------------------------------------------------------
// The pass
// ---------------------------------------------------------------------------

/// What is to be written, and how.
pub struct DecompInput {
    pub cfg: CfgArtifact,
    pub style: DecompStyle,
    /// Carry what each round of the optimizer changed.
    pub explain: bool,
    /// Drop the labels that no line jumps to.
    pub strip_block_labels: bool,
    /// Chosen names of variables, by the names they are displayed with.
    pub var_names: NameMap<String>,
    /// Chosen types of variables, by the names they were given at first; the
    /// type of the result stands under `@return`.
    pub var_types: NameMap<String>,
    /// The names of the fields of each known structure.
    pub struct_defs: NameMap<Fields>,
}

impl DecompInput {
    pub open spec fn wf(&self) -> bool {
        self.var_names.wf() && self.var_types.wf() && catalog_wf(self.struct_defs)
    }
}

/// What is known once types are settled and virtual calls are resolved.
#[derive(Clone, Debug, PartialEq, Eq)]
pub struct Prepared {
    /// The number of instructions that were not understood.
    pub unlifted: usize,
    /// The resolved calls, each once.
    pub devirtualized: Vec<Devirtualized>,
}

/// The names that a function is written with.
pub struct DecompNames {
    /// The literal of each text, by its address.
    pub strings: SortedMap<u64, String>,
    /// The name of each symbol, by its address.
    pub data_refs: SortedMap<u64, String>,
    /// The named fields behind each pointer.
    pub struct_fields: NameMap<Fields>,
    /// The name of the function itself.
    pub own_name: Option<String>,
    /// The function is a constructor or a destructor.
    pub is_ctor_or_dtor: bool,
    pub signature: String,
}

/// The body of a function, as it was rendered.
#[derive(Clone, Debug, PartialEq, Eq)]
pub struct RenderedBody {
    pub lines: Vec<String>,
    pub has_loop: bool,
    /// The number of places that could not be structured.
    pub fallback_count: usize,
    /// What each round of the optimizer changed.
    pub delta: Vec<String>,
}

/// The pseudo-code of a function. Of its `instruction_count` instructions,
/// `unlifted` were not understood.
#[derive(Clone, Debug, PartialEq, Eq)]
pub struct PseudoFunction {
    pub address: Va,
    pub end_address: Va,
    pub signature: String,
    pub style: &'static str,
    pub pseudo: Vec<String>,
    pub unlifted: usize,
    pub flags: Vec<&'static str>,
    pub instruction_count: usize,
    pub delta: Vec<String>,
    pub devirtualized: Vec<Devirtualized>,
}

/// Texts, by contents.
pub open spec fn words(v: Seq<&'static str>) -> Seq<Seq<char>> {
    v.map_values(|s: &'static str| s@)
}

/// The function's name is that of a constructor or a destructor.
pub open spec fn is_ctor_name(n: Option<Seq<char>>) -> bool {
    match n {
        Some(n) => match qualified_text(n) {
            Some(q) => constructed(q) is Some,
            None => false,
        },
        None => false,
    }
}

/// Fewer than four of five instructions were understood.
pub open spec fn is_low(unlifted: usize, total: usize) -> bool {
    total == 0 || 5 * (total - unlifted) < 4 * total
}

/// What is remarkable about a function.
pub open spec fn flag_words(style: DecompStyle, cfg: CfgArtifact, has_loop: bool, fallbacks: usize, unlifted: usize) -> Seq<
    Seq<char>,
> {
    seq![style.text()] + flag(cfg.switches@.len() > 0, "has-switch"@) + flag(
        cfg.stats.indirect_branches > 0,
        "has-indirect"@,
    ) + flag(cfg.stats.tail_calls > 0, "has-tail"@) + flag(has_loop, "has-loop"@) + flag(
        fallbacks > 0,
        "structured-partial"@,
    ) + flag(is_low(unlifted, cfg.insn_count), "low-coverage"@)
}

/// The word, where it applies.
pub open spec fn flag(b: bool, w: Seq<char>) -> Seq<Seq<char>> {
    if b {
        seq![w]
    } else {
        Seq::empty()
    }
}

fn push_flag(flags: &mut Vec<&'static str>, b: bool, w: &'static str)
    ensures
        words(final(flags)@) == words(old(flags)@) + flag(b, w@),
{
    let ghost before = words(flags@);
    if b {
        flags.push(w);
    }
    assert(words(flags@) =~= before + flag(b, w@));
}

/// The lines of the body, without idle labels where that is asked for.
pub open spec fn shown_body(strip: bool, lines: Seq<Seq<char>>) -> Seq<Seq<char>> {
    if strip {
        stripped(lines, lines.len() as int)
    } else {
        lines
    }
}

/// The declarations in front of a body, and an empty line behind them. The flat
/// form has none.
pub open spec fn preamble(style: DecompStyle, locals: Seq<LocalVar>, body: Seq<Seq<char>>) -> Seq<Seq<char>> {
    let d = declarations(locals, body);
    if style is Goto || d.len() == 0 {
        Seq::empty()
    } else {
        d.push(""@)
    }
}

/// The whole function.
pub open spec fn pseudo_lines(
    style: DecompStyle,
    signature: Seq<char>,
    locals: Seq<LocalVar>,
    body: Seq<Seq<char>>,
) -> Seq<Seq<char>> {
    seq![signature + " {"@] + preamble(style, locals, body) + body + seq!["}"@]
}

fn push_all(out: &mut Vec<String>, v: Vec<String>)
    ensures
        text_list(final(out)@) == text_list(old(out)@) + text_list(v@),
{
    let ghost before = out@;
    let mut rest = v;
    out.append(&mut rest);
    assert(text_list(out@) =~= text_list(before) + text_list(v@));
}

/// Types and blocks once types and names are in place and virtual calls resolved.
pub open spec fn is_prepared(
    ctx: Ctx,
    input: DecompInput,
    blocks: Seq<SsaBlock>,
    after: Seq<SsaBlock>,
    types: TypeArtifact,
    types_after: TypeArtifact,
    r: Prepared,
) -> bool {
    let params = types_after.signature.params@;
    let classes = param_classes(params, params.len() as int);
    let defs = block_defs(blocks, blocks.len() as int);
    let tables = known_tables(ctx);
    &&& types_node(types_after) == renamed(
        spelled(input.var_names.map()),
        retyped(spelled(input.var_types.map()), types_node(types)),
    )
    &&& r.unlifted == at_most_word(unlifted(blocks, blocks.len() as int))
    &&& resolved_nodes(r.devirtualized@) == each_call_once(
        found(ctx, tables, classes, defs, blocks, blocks.len() as int),
    )
    &&& after.len() == blocks.len()
    &&& forall|b: int| 0 <= b < blocks.len() ==> same_frame(#[trigger] after[b], blocks[b])
    &&& forall|b: int, i: int|
        0 <= b < blocks.len() && 0 <= i < blocks[b].stmts@.len() ==> (#[trigger] after[b].stmts@[i]).va
            == blocks[b].stmts@[i].va && after[b].stmts@[i].stmt == rewritten(
            blocks[b].stmts@[i].stmt,
            stmt_target(ctx, tables, classes, defs, blocks[b].stmts@[i].stmt),
        )
}

/// Numbers and addresses are left for the blocks that lowering adds: at most one
/// for any two blocks.
pub open spec fn leaves_room(cfg: CfgArtifact, blocks: Seq<SsaBlock>) -> bool {
    &&& blocks.len() <= cfg.blocks@.len()
    &&& next_block_id(blocks, blocks.len()) + blocks.len() * blocks.len() <= usize::MAX
    &&& SYNTHETIC_VA_BASE + blocks.len() * blocks.len() <= u64::MAX
}

/// Versions are merged under one name, and the joins have their copies.
pub open spec fn is_lowered(
    cfg: CfgArtifact,
    blocks: Seq<SsaBlock>,
    types: TypeArtifact,
    names: NameMap<String>,
    cfg_after: CfgArtifact,
    after: Seq<SsaBlock>,
) -> bool {
    let texts = crate::coalesce::texts(names);
    let params = types.signature.params@;
    &&& names.wf()
    &&& coalesced(blocks, param_names(params, params.len()), texts)
    &&& cfg_nodes(cfg_after.blocks@) == destructed(cfg.blocks@, blocks, texts).cfg
    &&& ssa_nodes(after) == destructed(cfg.blocks@, blocks, texts).ssa
    &&& cfg_after == (CfgArtifact { blocks: cfg_after.blocks, ..cfg })
}

/// The names that a function is written with.
pub open spec fn is_named(
    ctx: Ctx,
    input: DecompInput,
    types: TypeArtifact,
    sets: Seq<&[SsaBlock]>,
    rendered: NameMap<String>,
    r: DecompNames,
) -> bool {
    let own = shown_at(ctx.symbols, spelled(rendered.map()), input.cfg.start);
    &&& r.strings.wf()
    &&& spelled(r.strings.map()) == string_refs(sets, *ctx.source)
    &&& r.data_refs.wf()
    &&& spelled(r.data_refs.map()) == data_refs(sets, ctx.symbols, spelled(rendered.map()))
    &&& catalog_wf(r.struct_fields)
    &&& field_texts(r.struct_fields.map()) == field_binds(
        ctx,
        types.signature.params@,
        spelled(input.var_types.map()),
        input.struct_defs.map(),
        types.structs@,
        types.structs@.len() as int,
    )
    &&& text_of(r.own_name) == own
    &&& r.is_ctor_or_dtor == is_ctor_name(own)
    &&& r.signature@ == signature_text(input.cfg.start, types.signature, own)
}

/// The function as it is put together.
pub open spec fn is_written(
    input: DecompInput,
    prepared: Prepared,
    names: DecompNames,
    types: TypeArtifact,
    body: RenderedBody,
    r: PseudoFunction,
) -> bool {
    &&& r.address == input.cfg.start
    &&& r.end_address == input.cfg.end
    &&& r.signature@ == names.signature@
    &&& r.style@ == input.style.text()
    &&& text_list(r.pseudo@) == pseudo_lines(
        input.style,
        names.signature@,
        types.locals@,
        shown_body(input.strip_block_labels, text_list(body.lines@)),
    )
    &&& r.unlifted == prepared.unlifted
    &&& words(r.flags@) == flag_words(input.style, input.cfg, body.has_loop, body.fallback_count, prepared.unlifted)
    &&& r.instruction_count == input.cfg.insn_count
    &&& r.delta@ == if input.style is Ssa && input.explain {
        body.delta@
    } else {
        Seq::empty()
    }
    &&& r.devirtualized == prepared.devirtualized
}

/// Writes functions as pseudo-code.
#[derive(Clone, Copy, Debug, Default)]
pub struct DecompPass;

impl DecompPass {
    pub fn name(&self) -> (r: &'static str)
        ensures
            r@ == "decomp.pseudo"@,
    {
        "decomp.pseudo"
    }

    /// Puts the chosen types and names in place, and resolves the virtual calls
    /// of the blocks, which have not been optimized yet: the optimizer would hide
    /// the dispatch. Where any was resolved, the blocks are to be optimized anew.
    pub fn prepare(&self, ctx: &Ctx, input: &DecompInput, blocks: &mut Vec<SsaBlock>, types: &mut TypeArtifact) -> (r:
        Prepared)
        requires
            ctx.wf(),
            input.wf(),
        ensures
            is_prepared(*ctx, *input, old(blocks)@, final(blocks)@, *old(types), *final(types), r),
    {
        let n: usize = count_unlifted(blocks);
        apply_types(types, &input.var_types);
        apply_names(types, &input.var_names);
        let found = devirtualize(ctx, blocks, types);
        Prepared { unlifted: n, devirtualized: list_calls(found) }
    }

    /// Merges versions of variables under one name, and places the copies that
    /// the joins then still need. This is for the optimized form alone.
    pub fn lower(&self, cfg: CfgArtifact, blocks: Vec<SsaBlock>, types: &TypeArtifact) -> (r: (
        NameMap<String>,
        CfgArtifact,
        Vec<SsaBlock>,
    ))
        requires
            leaves_room(cfg, blocks@),
        ensures
            is_lowered(cfg, blocks@, *types, r.0, r.1, r.2@),
    {
        let names = coalesce_vars(blocks.as_slice(), &types.signature);
        proof {
            lemma_plan_len(blocks@, crate::coalesce::texts(names), blocks@.len());
        }
        let (c, b) = destruct_ssa(cfg, blocks, &names);
        (names, c, b)
    }

    /// Finds the names that the function is written with. `sets` holds the blocks
    /// before and after they were optimized, and `rendered` how names of symbols
    /// are displayed.
    pub fn names(
        &self,
        ctx: &Ctx,
        input: &DecompInput,
        types: &TypeArtifact,
        sets: &[&[SsaBlock]],
        rendered: &NameMap<String>,
    ) -> (r: DecompNames)
        requires
            input.wf(),
            rendered.wf(),
        ensures
            is_named(*ctx, *input, *types, sets@, *rendered, r),
    {
        let own = show_at(ctx.symbols, rendered, input.cfg.start);
        let is_ctor_or_dtor = match &own {
            Some(n) => match qualified_name_in(n.as_str()) {
                Some(q) => ctor_class_of(q).is_some(),
                None => false,
            },
            None => false,
        };
        let name = match &own {
            Some(n) => Some(n.as_str()),
            None => None,
        };
        let signature = format_signature(input.cfg.start, &types.signature, name);
        DecompNames {
            strings: recover_strings(sets, ctx.source),
            data_refs: recover_data_refs(sets, ctx.symbols, rendered),
            struct_fields: bind_fields(ctx, types, &input.var_types, &input.struct_defs),
            own_name: own,
            is_ctor_or_dtor,
            signature,
        }
    }

    /// Puts the function together.
    pub fn run(
        &self,
        input: &DecompInput,
        prepared: Prepared,
        names: &DecompNames,
        types: &TypeArtifact,
        body: RenderedBody,
    ) -> (r: PseudoFunction)
        ensures
            is_written(*input, prepared, *names, *types, body, r),
    {
        let cfg = &input.cfg;
        let lines = if input.strip_block_labels {
            strip_unreferenced_block_labels(&body.lines)
        } else {
            body.lines
        };
        let ghost shown = text_list(lines@);
        let mut flags: Vec<&'static str> = Vec::new();
        flags.push(input.style.as_str());
        assert(words(flags@) =~= seq![input.style.text()]);
        push_flag(&mut flags, cfg.switches.len() > 0, "has-switch");
        push_flag(&mut flags, cfg.stats.indirect_branches > 0, "has-indirect");
        push_flag(&mut flags, cfg.stats.tail_calls > 0, "has-tail");
        push_flag(&mut flags, body.has_loop, "has-loop");
        push_flag(&mut flags, body.fallback_count > 0, "structured-partial");
        let low = cfg.insn_count == 0 || (cfg.insn_count as u128) < 5 * (prepared.unlifted as u128);
        push_flag(&mut flags, low, "low-coverage");
        let mut pseudo: Vec<String> = Vec::new();
        pseudo.push(names.signature.clone().concat(" {"));
        let ghost head = names.signature@ + " {"@;
        assert(text_list(pseudo@) =~= seq![head]);
        if !matches!(input.style, DecompStyle::Goto) {
            let decls = local_decls(types, &lines);
            let any: bool = decls.len() > 0;
            let ghost d = text_list(decls@);
            push_all(&mut pseudo, decls);
            if any {
                push_line(&mut pseudo, String::from_str(""));
                assert((seq![head] + d).push(""@) =~= seq![head] + d.push(""@));
            }
            assert(!any ==> seq![head] + d =~= seq![head] + Seq::<Seq<char>>::empty());
        } else {
            assert(seq![head] =~= seq![head] + Seq::<Seq<char>>::empty());
        }
        let ghost pre = text_list(pseudo@);
        assert(pre == seq![head] + preamble(input.style, types.locals@, shown));
        push_all(&mut pseudo, lines);
        push_line(&mut pseudo, String::from_str("}"));
        assert((pre + shown).push("}"@) =~= pre + shown + seq!["}"@]);
        let delta = if matches!(input.style, DecompStyle::Ssa) && input.explain {
            body.delta
        } else {
            Vec::new()
        };
        PseudoFunction {
            address: cfg.start,
            end_address: cfg.end,
            signature: names.signature.clone(),
            style: input.style.as_str(),
            pseudo,
            unlifted: prepared.unlifted,
            flags,
            instruction_count: cfg.insn_count,
            delta,
            devirtualized: prepared.devirtualized,
        }
    }
}

// ---------------------------------------------------------------------------
// Laws
// ---------------------------------------------------------------------------

proof fn lemma_stripped_holds(lines: Seq<Seq<char>>, k: int, l: Seq<char>)
    requires
        0 <= k <= lines.len(),
    ensures
        stripped(lines, k).contains(l) <==> is_kept(lines, l) && lines.take(k).contains(l),
    decreases k,
{
    if k > 0 {
        lemma_stripped_holds(lines, k - 1, l);
        let last = lines[k - 1];
        let s = stripped(lines, k - 1);
        assert(lines.take(k) =~= lines.take(k - 1).push(last));
        assert(lines.take(k - 1).push(last).contains(l) <==> lines.take(k - 1).contains(l) || l == last) by {
            let t = lines.take(k - 1).push(last);
            if lines.take(k - 1).contains(l) {
                let p = lines.take(k - 1);
                let i = choose|i: int| 0 <= i < p.len() && p[i] == l;
                assert(t[i] == l);
            }
            if l == last {
                assert(t[k - 1] == l);
            }
        }
        assert(s.push(last).contains(l) <==> s.contains(l) || l == last) by {
            let t = s.push(last);
            if s.contains(l) {
                let i = choose|i: int| 0 <= i < s.len() && s[i] == l;
                assert(t[i] == l);
            }
            if l == last {
                assert(t[s.len() as int] == l);
            }
        }
    }
}

/// Stripping keeps every line that is no label, and of the labels exactly those
/// that some line jumps to.
pub proof fn stripping_keeps_what_is_jumped_to(lines: Seq<Seq<char>>, l: Seq<char>)
    ensures
        stripped(lines, lines.len() as int).contains(l) <==> lines.contains(l) && match labels(l) {
            Some(n) => is_target(lines, n),
            None => true,
        },
{
    lemma_stripped_holds(lines, lines.len() as int, l);
    assert(lines.take(lines.len() as int) =~= lines);
}

proof fn lemma_declared(locals: Seq<LocalVar>, body: Seq<char>, k: int, d: DeclaredNode)
    requires
        0 <= k <= locals.len(),
        declared_in(locals, body, k).contains(d),
    ensures
        exists|i: int| 0 <= i < k && holds_name(body, (#[trigger] locals[i]).name@) && d == declaration(locals[i]),
    decreases k,
{
    if k > 0 {
        let s = declared_in(locals, body, k - 1);
        if holds_name(body, locals[k - 1].name@) && d == declaration(locals[k - 1]) {
            assert(holds_name(body, locals[k - 1].name@));
        } else {
            if holds_name(body, locals[k - 1].name@) {
                let t = s.push(declaration(locals[k - 1]));
                let i = choose|i: int| 0 <= i < t.len() && t[i] == d;
                assert(s[i] == d);
            }
            assert(s.contains(d));
            lemma_declared(locals, body, k - 1, d);
        }
    }
}

/// Only variables that the body names are declared.
pub proof fn declared_variables_are_used(locals: Seq<LocalVar>, body: Seq<Seq<char>>, i: int)
    requires
        0 <= i < declarations(locals, body).len(),
    ensures
        exists|j: int|
            0 <= j < locals.len() && holds_name(join(body, "\n"@), (#[trigger] locals[j]).name@) && declarations(
                locals,
                body,
            )[i] == declaration(locals[j]).line,
{
    let b = join(body, "\n"@);
    let s = declared_in(locals, b, locals.len() as int);
    crate::order::sorting_permutes(s);
    let d = stable(s)[i];
    assert(stable(s).contains(d));
    lemma_declared(locals, b, locals.len() as int, d);
}

/// A constant is named after a symbol only where it is the symbol's own address.
pub proof fn inner_addresses_have_no_name(
    sets: Seq<&[SsaBlock]>,
    symbols: &SymbolTable,
    rendered: Map<Seq<char>, Seq<char>>,
    a: u64,
)
    requires
        data_refs(sets, Some(symbols), rendered).contains_key(a),
    ensures
        symbols.at(Va(a)) matches Some(s) && s.va == Va(a) && data_refs(sets, Some(symbols), rendered)[a] == "&"@
            + displayed(rendered, s.name@),
{
}

/// Every constant that can be an address and occurs in an expression is collected, at
/// any depth and also as the address of a load.
pub proof fn constants_are_collected_at_any_depth(path: Seq<MicroExpr>, v: u64, bits: crate::micro::Bits)
    requires
        leads_down(path),
        path.last() == (MicroExpr::Const { value: v as i128, bits }),
    ensures
        consts_of(path[0]).contains(v),
    decreases path.len(),
{
    if path.len() > 1 {
        let rest = path.skip(1);
        assert forall|i: int| 0 < i < rest.len() implies part_of(#[trigger] rest[i], rest[i - 1]) by {
            assert(part_of(path[i + 1], path[i + 1 - 1]));
        }
        assert(rest.last() == path.last());
        constants_are_collected_at_any_depth(rest, v, bits);
        lemma_part_collected(path[1], path[0], v);
    }
}

proof fn lemma_part_collected(x: MicroExpr, e: MicroExpr, v: u64)
    requires
        part_of(x, e),
        consts_of(x).contains(v),
    ensures
        consts_of(e).contains(v),
{
    match e {
        MicroExpr::Call { target, args } => {
            if args@.contains(x) {
                let i = choose|i: int| 0 <= i < args@.len() && args@[i] == x;
                lemma_list_collected(args, args@.len(), i, v);
            } else {
                match target {
                    CallTarget::Indirect(t) => {
                        assert(target_consts(target) == consts_of(*t));
                    },
                    _ => {},
                }
            }
        },
        _ => {},
    }
}

proof fn lemma_list_collected(args: Vec<MicroExpr>, k: nat, i: int, v: u64)
    requires
        0 <= i < k <= args@.len(),
        consts_of(args@[i]).contains(v),
    ensures
        list_consts(args, k).contains(v),
    decreases k,
{
    if i < k - 1 {
        lemma_list_collected(args, (k - 1) as nat, i, v);
    }
}

/// Nothing is collected but constants that occur in the expression.
pub proof fn only_constants_are_collected(e: MicroExpr, v: u64)
    requires
        consts_of(e).contains(v),
    ensures
        exists|path: Seq<MicroExpr>| #[trigger]
            leads_down(path) && path[0] == e && (path.last() matches MicroExpr::Const { value, .. } && value == v as i128),
    decreases e, 0nat,
{
    match e {
        MicroExpr::Const { .. } => {
            let path = seq![e];
            assert(leads_down(path) && path[0] == e && path.last() == e);
        },
        MicroExpr::Load { addr, .. } => {
            only_constants_are_collected(*addr, v);
            lemma_one_more(e, *addr, v);
        },
        MicroExpr::Unary(_, x) => {
            only_constants_are_collected(*x, v);
            lemma_one_more(e, *x, v);
        },
        MicroExpr::Binary(_, l, r) => {
            if consts_of(*l).contains(v) {
                only_constants_are_collected(*l, v);
                lemma_one_more(e, *l, v);
            } else {
                only_constants_are_collected(*r, v);
                lemma_one_more(e, *r, v);
            }
        },
        MicroExpr::Cast { expr, .. } => {
            only_constants_are_collected(*expr, v);
            lemma_one_more(e, *expr, v);
        },
        MicroExpr::AddrOf(inner) => {
            only_constants_are_collected(*inner, v);
            lemma_one_more(e, *inner, v);
        },
        MicroExpr::Compare { lhs, rhs, .. } => {
            if consts_of(*lhs).contains(v) {
                only_constants_are_collected(*lhs, v);
                lemma_one_more(e, *lhs, v);
            } else {
                only_constants_are_collected(*rhs, v);
                lemma_one_more(e, *rhs, v);
            }
        },
        MicroExpr::Select { cond, a, b } => {
            if consts_of(*cond).contains(v) {
                only_constants_are_collected(*cond, v);
                lemma_one_more(e, *cond, v);
            } else if consts_of(*a).contains(v) {
                only_constants_are_collected(*a, v);
                lemma_one_more(e, *a, v);
            } else {
                only_constants_are_collected(*b, v);
                lemma_one_more(e, *b, v);
            }
        },
        MicroExpr::Call { target, args } => {
            if target_consts(target).contains(v) {
                match target {
                    CallTarget::Indirect(t) => {
                        only_constants_are_collected(*t, v);
                        lemma_one_more(e, *t, v);
                    },
                    _ => {},
                }
            } else {
                let i = lemma_list_only(args, args@.len(), v);
                assert(args@.contains(args@[i]));
                lemma_one_more(e, args@[i], v);
            }
        },
        _ => {},
    }
}

proof fn lemma_list_only(args: Vec<MicroExpr>, k: nat, v: u64) -> (i: int)
    requires
        list_consts(args, k).contains(v),
        k <= args@.len(),
    ensures
        0 <= i < args@.len(),
        exists|path: Seq<MicroExpr>| #[trigger]
            leads_down(path) && path[0] == args@[i] && (path.last() matches MicroExpr::Const { value, .. } && value
                == v as i128),
    decreases args, k,
{
    if list_consts(args, (k - 1) as nat).contains(v) {
        lemma_list_only(args, (k - 1) as nat, v)
    } else {
        only_constants_are_collected(args[k - 1], v);
        k - 1
    }
}

proof fn lemma_one_more(e: MicroExpr, x: MicroExpr, v: u64)
    requires
        part_of(x, e),
        exists|path: Seq<MicroExpr>| #[trigger]
            leads_down(path) && path[0] == x && (path.last() matches MicroExpr::Const { value, .. } && value == v as i128),
    ensures
        exists|path: Seq<MicroExpr>| #[trigger]
            leads_down(path) && path[0] == e && (path.last() matches MicroExpr::Const { value, .. } && value == v as i128),
{
    let rest = choose|path: Seq<MicroExpr>| #[trigger]
        leads_down(path) && path[0] == x && (path.last() matches MicroExpr::Const { value, .. } && value == v as i128);
    let path = seq![e] + rest;
    assert forall|i: int| 0 < i < path.len() implies part_of(#[trigger] path[i], path[i - 1]) by {
        if i > 1 {
            assert(part_of(rest[i - 1], rest[i - 1 - 1]));
        }
    }
    assert(path.last() == rest.last());
    assert(leads_down(path));
}

/// A load has the constants of its address, and a statement those of each expression
/// in it; where a value is assigned to, or returned into, holds none.
pub proof fn statements_have_the_constants_of_their_parts(s: MicroStmt, v: u64)
    ensures
        s matches MicroStmt::Assign { value, .. } ==> stmt_consts(s) == consts_of(value),
        s matches MicroStmt::Store { addr, value, .. } ==> (stmt_consts(s).contains(v) <==> consts_of(addr).contains(v)
            || consts_of(value).contains(v)),
        s matches MicroStmt::Return(Some(e)) ==> stmt_consts(s) == consts_of(e),
        s matches MicroStmt::Call { target, args, .. } ==> (stmt_consts(s).contains(v) <==> (target matches
            CallTarget::Indirect(t) && consts_of(*t).contains(v)) || (exists|i: int|
            0 <= i < args@.len() && consts_of(#[trigger] args@[i]).contains(v))),
        s matches MicroStmt::Return(None) ==> stmt_consts(s) == Set::<u64>::empty(),
        s is Nop || s is Unlifted ==> stmt_consts(s) == Set::<u64>::empty(),
{
    match s {
        MicroStmt::Call { target, args, .. } => {
            if exists|i: int| 0 <= i < args@.len() && consts_of(#[trigger] args@[i]).contains(v) {
                let i = choose|i: int| 0 <= i < args@.len() && consts_of(#[trigger] args@[i]).contains(v);
                lemma_list_collected(args, args@.len(), i, v);
            }
            if list_consts(args, args@.len()).contains(v) {
                lemma_list_has(args, args@.len(), v);
            }
        },
        _ => {},
    }
}

proof fn lemma_list_has(args: Vec<MicroExpr>, k: nat, v: u64)
    requires
        list_consts(args, k).contains(v),
        k <= args@.len(),
    ensures
        exists|i: int| 0 <= i < args@.len() && consts_of(#[trigger] args@[i]).contains(v),
    decreases k,
{
    if list_consts(args, (k - 1) as nat).contains(v) {
        lemma_list_has(args, (k - 1) as nat, v);
    } else {
        assert(consts_of(args@[k - 1]).contains(v));
    }
}

// ---------------------------------------------------------------------------
// How a function is written
// ---------------------------------------------------------------------------

/// An integer type is called by its sign and its width, unless it has a name.
pub proof fn types_are_called_by_sign_and_width(t: CType)
    ensures
        t.name is None && t.signed ==> type_name_of(t) == "int"@ + dec(t.bits as nat) + "_t"@,
        t.name is None && !t.signed ==> type_name_of(t) == "uint"@ + dec(t.bits as nat) + "_t"@,
        t.name matches Some(n) ==> type_name_of(t) == n@,
{
}

/// A parameter is its type and its name, with a space between unless the type ends in
/// a star.
pub proof fn parameters_have_a_type_and_a_name(p: ParamInfo, x: Seq<char>)
    ensures
        type_name_of(p.ty) == x.push('*') ==> param_text(p) == x.push('*') + p.name@,
        type_name_of(p.ty).len() > 0 && type_name_of(p.ty).last() != '*' ==> param_text(p) == type_name_of(p.ty) + " "@
            + p.name@,
{
    assert(x.push('*').last() == '*');
}

/// A signature is what the function returns, its name and its parameters in order; a
/// function that returns or takes nothing has `void` there, and one without a name is
/// called by its address. A name that is a prototype already stands for all of it.
pub proof fn signatures_name_result_and_parameters(va: Va, sig: RecoveredSignature, n: Seq<char>, p: ParamInfo, q: ParamInfo)
    ensures
        !occurs(n, "("@) && sig.ret is None && sig.params@.len() == 0 ==> signature_text(va, sig, Some(n)) == "void"@
            + " "@ + n + "("@ + "void"@ + ")"@,
        !occurs(n, "("@) && sig.ret is Some && sig.params@ == seq![p] ==> signature_text(va, sig, Some(n))
            == type_name_of(sig.ret->0) + " "@ + n + "("@ + param_text(p) + ")"@,
        !occurs(n, "("@) && sig.ret is Some && sig.params@ == seq![p, q] ==> signature_text(va, sig, Some(n))
            == type_name_of(sig.ret->0) + " "@ + n + "("@ + (param_text(p) + ", "@ + param_text(q)) + ")"@,
        occurs(n, "("@) ==> signature_text(va, sig, Some(n)) == n,
        sig.ret is None && sig.params@.len() == 0 ==> signature_text(va, sig, None) == "void"@ + " sub_"@ + hex(
            va.0 as nat,
        ) + "("@ + "void"@ + ")"@,
{
    if sig.params@ == seq![p] {
        assert(param_texts(sig.params@) =~= seq![param_text(p)]);
    }
    if sig.params@ == seq![p, q] {
        let one = seq![param_text(p)];
        assert(param_texts(sig.params@) =~= one.push(param_text(q)));
        crate::text::texts_are_joined_with_the_separator_between(one, param_text(q), ", "@);
        crate::text::texts_are_joined_with_the_separator_between(one, param_text(p), ", "@);
    }
}

/// A line that jumps to a block is seen to jump there, whatever stands in front.
pub proof fn jumps_are_seen(head: Seq<char>, id: usize)
    ensures
        jumps_to(jump_line(head, id), id),
{
    reveal_strlit("goto block_");
    reveal_strlit(";");
    let l = jump_line(head, id);
    let k = head.len() as int;
    let d = dec(id as nat);
    let g = "goto block_"@;
    assert(g.len() == 11);
    assert(l.subrange(k, k + g.len()) =~= g);
    crate::text::decimals_read_back(id as nat);
    crate::text::spelled_numbers_are_read(id, Seq::empty());
    assert forall|i: int| k + 11 <= i < k + 11 + d.len() implies is_digit(#[trigger] l[i]) by {
        assert(l[i] == d[i - k - 11]);
    }
    assert(l[k + 11 + d.len()] == ';');
    lemma_digits_end(l, k + 11, k + 11 + d.len());
    assert(l.subrange(k + 11, k + 11 + d.len()) =~= d);
    assert(jump_at(l, k) == Some(id));
}

proof fn lemma_digits_end(s: Seq<char>, k: int, e: int)
    requires
        0 <= k <= e < s.len(),
        forall|i: int| k <= i < e ==> is_digit(#[trigger] s[i]),
        !is_digit(s[e]),
    ensures
        digits_end(s, k) == e,
    decreases e - k,
{
    if k < e {
        lemma_digits_end(s, k + 1, e);
    }
}

/// The label of a block is known by its number.
pub proof fn labels_name_their_block(id: usize, rest: Seq<char>)
    ensures
        labels("// block_"@ + dec(id as nat) + seq![':'] + rest) == Some(id),
{
    reveal_strlit("// block_");
    let d = dec(id as nat);
    let p = "// block_"@;
    let l = p + d + seq![':'] + rest;
    assert(l[0] == '/');
    assert(trim_start(l) == l);
    let r = d + seq![':'] + rest;
    assert(l =~= p + r);
    crate::text::prefixes_and_suffixes_come_off(p, r);
    crate::text::decimals_read_back(id as nat);
    assert forall|i: int| 0 <= i < d.len() implies #[trigger] d[i] != ':' by {
        assert(is_digit(d[i]));
    }
    crate::text::texts_are_cut_at_the_first(d, ':', rest);
    assert(is_digit(d[0]) && is_digit(d[d.len() - 1]));
    assert(trim(d) == d);
    crate::text::spelled_numbers_are_read(id, Seq::empty());
}

/// A local variable is declared with its type and its name, ended by a semicolon.
pub proof fn locals_are_declared_with_their_type(l: LocalVar)
    ensures
        declaration(l).offset == l.offset,
        l.type_override matches Some(t) ==> declaration(l).line == "    "@ + t@ + " "@ + l.name@ + ";"@,
        l.type_override is None && l.signed ==> declaration(l).line == "    "@ + ("int"@ + dec(l.size_bits as nat) + "_t"@)
            + " "@ + l.name@ + ";"@,
        l.type_override is None && !l.signed ==> declaration(l).line == "    "@ + ("uint"@ + dec(l.size_bits as nat)
            + "_t"@) + " "@ + l.name@ + ";"@,
{
}

/// A name is held where no character that can be part of a name stands on either side
/// of it, and nowhere else.
pub proof fn names_are_held_as_whole_words(x: Seq<char>, n: Seq<char>, y: Seq<char>)
    ensures
        (x.len() == 0 || !in_word(x.last())) && (y.len() == 0 || !in_word(y[0])) ==> holds_name(x + n + y, n),
        holds_name(x, n) ==> exists|k: int|
            0 <= k && k + n.len() <= x.len() && #[trigger] x.subrange(k, k + n.len()) == n && (k == 0 || !in_word(
                x[k - 1],
            )) && (k + n.len() == x.len() || !in_word(x[k + n.len()])),
{
    let s = x + n + y;
    let k = x.len() as int;
    assert(s.subrange(k, k + n.len()) =~= n);
    if (x.len() == 0 || !in_word(x.last())) && (y.len() == 0 || !in_word(y[0])) {
        if x.len() > 0 {
            assert(s[k - 1] == x.last());
        }
        if y.len() > 0 {
            assert(s[k + n.len()] == y[0]);
        }
        assert(stands_alone(s, n, k));
    }
    if holds_name(x, n) {
        let j = choose|j: int| 0 <= j <= x.len() && #[trigger] stands_alone(x, n, j);
        assert(x.subrange(j, j + n.len()) == n);
    }
}

/// The variables that the body names are declared, and no others.
pub proof fn named_variables_are_declared(locals: Seq<LocalVar>, body: Seq<char>, k: int, i: int)
    requires
        0 <= i < k <= locals.len(),
        holds_name(body, locals[i].name@),
    ensures
        declared_in(locals, body, k).contains(declaration(locals[i])),
    decreases k,
{
    let d = declaration(locals[i]);
    let done = declared_in(locals, body, k - 1);
    let now = declared_in(locals, body, k);
    if i < k - 1 {
        named_variables_are_declared(locals, body, k - 1, i);
        let j = choose|j: int| 0 <= j < done.len() && done[j] == d;
        assert(now[j] == d);
    } else {
        assert(now[done.len() as int] == d);
    }
}

/// Of the instructions that were not understood, each is counted once.
pub proof fn each_unlifted_instruction_counts(s: Seq<SsaStmt>, k: int)
    requires
        0 <= k < s.len(),
    ensures
        unlifted_in(s, 0) == 0,
        s[k].stmt is Unlifted ==> unlifted_in(s, k + 1) == unlifted_in(s, k) + 1,
        !(s[k].stmt is Unlifted) ==> unlifted_in(s, k + 1) == unlifted_in(s, k),
{
}

/// The number that is found for an address is that of the first block that starts there.
pub proof fn blocks_are_found_by_their_start(blocks: Seq<CfgBlock>, addr: Va, i: int)
    requires
        0 <= i < blocks.len(),
        blocks[i].start == addr,
        forall|j: int| 0 <= j < i ==> (#[trigger] blocks[j]).start != addr,
    ensures
        block_id_from(blocks, addr, 0) == Some(blocks[i].id),
{
    lemma_block_found(blocks, addr, i, 0);
}

proof fn lemma_block_found(blocks: Seq<CfgBlock>, addr: Va, i: int, k: int)
    requires
        0 <= k <= i < blocks.len(),
        blocks[i].start == addr,
        forall|j: int| k <= j < i ==> (#[trigger] blocks[j]).start != addr,
    ensures
        block_id_from(blocks, addr, k) == Some(blocks[i].id),
    decreases i - k,
{
    if k < i {
        lemma_block_found(blocks, addr, i, k + 1);
    }
}

proof fn lemma_edge_found(s: Seq<Successor>, kind: Seq<char>, i: int, k: int)
    requires
        0 <= k <= i < s.len(),
        s[i].kind@ == kind,
        forall|j: int| k <= j < i ==> (#[trigger] s[j]).kind@ != kind,
    ensures
        edge_from(s, kind, k) == Some(i),
    decreases i - k,
{
    if k < i {
        lemma_edge_found(s, kind, i, k + 1);
    }
}

/// A block that branches ends with a jump to where it goes if the condition holds,
/// behind the condition, and then with a jump to where it goes otherwise.
pub proof fn branches_are_written_with_their_condition(
    cfg: CfgArtifact,
    b: SsaBlock,
    cond: Seq<char>,
    i: int,
    j: int,
    x: usize,
    y: usize,
)
    requires
        b.terminator@ == "cjmp"@,
        0 <= i < b.successors@.len(),
        b.successors@[i].kind@ == "cjmp-true"@,
        forall|k: int| 0 <= k < i ==> (#[trigger] b.successors@[k]).kind@ != "cjmp-true"@,
        0 <= j < b.successors@.len(),
        b.successors@[j].kind@ == "cjmp-false"@,
        forall|k: int| 0 <= k < j ==> (#[trigger] b.successors@[k]).kind@ != "cjmp-false"@,
        block_id_from(cfg.blocks@, b.successors@[i].to, 0) == Some(x),
        block_id_from(cfg.blocks@, b.successors@[j].to, 0) == Some(y),
    ensures
        last_lines(cfg, b, cond) == seq![
            "    if ("@ + cond + ") "@ + "goto block_"@ + dec(x as nat) + ";"@,
            "    "@ + "goto block_"@ + dec(y as nat) + ";"@,
        ],
{
    lemma_edge_found(b.successors@, "cjmp-true"@, i, 0);
    lemma_edge_found(b.successors@, "cjmp-false"@, j, 0);
    reveal_strlit("cjmp");
    reveal_strlit("ijmp");
    reveal_strlit("jmp");
    reveal_strlit("fall");
    assert("cjmp"@[0] == 'c' && "ijmp"@[0] == 'i' && "fall"@[0] == 'f' && "jmp"@[0] == 'j');
    assert(last_lines(cfg, b, cond) =~= seq![
        "    if ("@ + cond + ") "@ + "goto block_"@ + dec(x as nat) + ";"@,
        "    "@ + "goto block_"@ + dec(y as nat) + ";"@,
    ]);
}

/// A block that jumps or falls through ends with a jump to its first successor.
pub proof fn jumps_are_written(cfg: CfgArtifact, b: SsaBlock, cond: Seq<char>, x: usize)
    requires
        b.terminator@ == "jmp"@ || b.terminator@ == "fall"@,
        b.successors@.len() > 0,
        block_id_from(cfg.blocks@, b.successors@[0].to, 0) == Some(x),
    ensures
        last_lines(cfg, b, cond) == seq!["    "@ + "goto block_"@ + dec(x as nat) + ";"@],
{
    reveal_strlit("ijmp");
    reveal_strlit("jmp");
    reveal_strlit("fall");
    assert("ijmp"@[0] == 'i' && "fall"@[0] == 'f' && "jmp"@[0] == 'j');
}

/// A block is written with its label and its address, its statements in order with those
/// left out that have no text, and then how it ends.
pub proof fn blocks_are_written_in_order(cfg: CfgArtifact, b: SsaBlock, r: RenderedBlock, k: int)
    requires
        0 <= k < r.stmts@.len(),
    ensures
        block_lines(cfg, b, r)[0] == "block_"@ + dec(b.id as nat) + ":    // "@ + ("0x"@ + hex(b.start.0 as nat)),
        r.condition matches Some(c) ==> block_lines(cfg, b, r) == seq![block_lines(cfg, b, r)[0]] + stmt_lines(
            r.stmts@,
            r.stmts@.len() as int,
        ) + last_lines(cfg, b, c@),
        r.condition is None ==> block_lines(cfg, b, r) == seq![block_lines(cfg, b, r)[0]] + stmt_lines(
            r.stmts@,
            r.stmts@.len() as int,
        ) + last_lines(cfg, b, "/*?*/"@),
        stmt_lines(r.stmts@, 0) == Seq::<Seq<char>>::empty(),
        r.stmts@[k] matches Some(t) ==> stmt_lines(r.stmts@, k + 1) == stmt_lines(r.stmts@, k).push("    "@ + t@),
        r.stmts@[k] is None ==> stmt_lines(r.stmts@, k + 1) == stmt_lines(r.stmts@, k),
{
}

/// Blocks are written one behind the other with an empty line between.
pub proof fn blocks_are_separated_by_empty_lines(cfg: CfgArtifact, blocks: Seq<SsaBlock>, r: Seq<RenderedBlock>, k: int)
    requires
        0 < k < blocks.len(),
        blocks.len() == r.len(),
    ensures
        goto_lines(cfg, blocks, r, 1) == block_lines(cfg, blocks[0], r[0]),
        goto_lines(cfg, blocks, r, k + 1) == goto_lines(cfg, blocks, r, k) + seq![""@] + block_lines(cfg, blocks[k], r[k]),
{
    let before = goto_lines(cfg, blocks, r, k);
    assert(before.push(""@) =~= before + seq![""@]);
}

/// In a literal a quote and a backslash stand behind a backslash, a tab and the ends of
/// lines are written by their letters, and all else stands for itself.
pub proof fn literals_are_escaped(b: Seq<u8>, k: int)
    requires
        0 <= k < b.len(),
    ensures
        quoted(b) == seq!['"'] + escaped(b, b.len() as int) + seq!['"'],
        escaped(b, 0) == Seq::<char>::empty(),
        b[k] == '"' as u8 ==> escaped(b, k + 1) == escaped(b, k) + seq!['\\', '"'],
        b[k] == '\\' as u8 ==> escaped(b, k + 1) == escaped(b, k) + seq!['\\', '\\'],
        b[k] == '\t' as u8 ==> escaped(b, k + 1) == escaped(b, k) + seq!['\\', 't'],
        b[k] == '\n' as u8 ==> escaped(b, k + 1) == escaped(b, k) + seq!['\\', 'n'],
        b[k] == '\r' as u8 ==> escaped(b, k + 1) == escaped(b, k) + seq!['\\', 'r'],
        0x20 <= b[k] <= 0x7e && b[k] != '"' as u8 && b[k] != '\\' as u8 ==> escaped(b, k + 1) == escaped(b, k) + seq![
            b[k] as char,
        ],
{
}

/// A text of four printable bytes or more that a zero ends is taken for a literal; one
/// that is shorter, that no zero ends, or that holds another byte is none.
pub proof fn texts_are_taken_for_literals(src: Snapshot, va: u64, z: int)
    requires
        src.read_of(va, 200) is Some,
        0 <= z < src.read_of(va, 200)->0.len(),
        src.read_of(va, 200)->0[z] == 0,
        forall|i: int| 0 <= i < z ==> #[trigger] src.read_of(va, 200)->0[i] != 0,
    ensures
        ({
            let b = src.read_of(va, 200)->0;
            let printable = forall|i: int|
                0 <= i < z ==> (0x20 <= #[trigger] b[i] <= 0x7e || b[i] == '\t' as u8 || b[i] == '\n' as u8 || b[i]
                    == '\r' as u8);
            &&& z >= 4 && printable ==> literal_at(src, va) == Some(quoted(b.take(z)))
            &&& z < 4 || !printable ==> literal_at(src, va) is None
        }),
{
    let b = src.read_of(va, 200)->0;
    crate::bytes::texts_end_at_the_first_zero(b, 0, z);
    let printable = forall|i: int|
        0 <= i < z ==> (0x20 <= #[trigger] b[i] <= 0x7e || b[i] == '\t' as u8 || b[i] == '\n' as u8 || b[i] == '\r' as u8);
    if printable {
        assert forall|i: int| 0 <= i < b.take(z).len() implies is_text_byte(#[trigger] b.take(z)[i]) by {
            assert(b.take(z)[i] == b[i]);
        }
    } else {
        let i = choose|i: int|
            0 <= i < z && !(0x20 <= #[trigger] b[i] <= 0x7e || b[i] == '\t' as u8 || b[i] == '\n' as u8 || b[i] == '\r' as u8);
        assert(!is_text_byte(b.take(z)[i]));
    }
}

/// A constant of a statement that is the address of a text is shown as the literal, and
/// one that is the address of a symbol as the symbol's address; no other constant is
/// named, and nothing that no statement holds.
pub proof fn constants_are_named_by_what_stands_there(
    sets: Seq<&[SsaBlock]>,
    src: Snapshot,
    symbols: Option<&SymbolTable>,
    rendered: Map<Seq<char>, Seq<char>>,
    n: int,
    b: int,
    i: int,
    a: u64,
)
    requires
        0 <= n < sets.len(),
        0 <= b < sets[n]@.len(),
        0 <= i < sets[n]@[b].stmts@.len(),
        stmt_consts(sets[n]@[b].stmts@[i].stmt).contains(a),
    ensures
        literal_at(src, a) matches Some(l) ==> string_refs(sets, src).contains_key(a) && string_refs(sets, src)[a] == l,
        literal_at(src, a) is None ==> !string_refs(sets, src).contains_key(a),
        name_exactly_at(symbols, Va(a)) matches Some(s) ==> data_refs(sets, symbols, rendered).contains_key(a) && (
        rendered.contains_key(s) ==> data_refs(sets, symbols, rendered)[a] == "&"@ + rendered[s]) && (
        !rendered.contains_key(s) ==> data_refs(sets, symbols, rendered)[a] == "&"@ + s),
        name_exactly_at(symbols, Va(a)) is None ==> !data_refs(sets, symbols, rendered).contains_key(a),
{
    assert(names_addr(sets, a)) by {
        let s = sets[n]@[b].stmts@[i];
        assert(stmt_consts(s.stmt).contains(a));
    }
}

/// The type that a user chose for a variable is the one it gets, unless it is empty; so
/// is the one chosen for the result, where `void` takes the result away.
pub proof fn chosen_types_are_taken(chosen: Map<Seq<char>, Seq<char>>, t: TypesNode, i: int)
    ensures
        0 <= i < t.locals.len() ==> {
            let l = t.locals[i];
            let m = retyped(chosen, t).locals[i];
            &&& m.name == l.name && m.offset == l.offset && m.size_bits == l.size_bits && m.signed == l.signed
            &&& chosen.contains_key(l.name) && trim(chosen[l.name]).len() > 0 ==> m.type_override == Some(chosen[l.name])
            &&& !chosen.contains_key(l.name) || trim(chosen[l.name]).len() == 0 ==> m == l
        },
        0 <= i < t.params.len() ==> {
            let p = t.params[i];
            let q = retyped(chosen, t).params[i];
            &&& q.name == p.name && q.reg == p.reg
            &&& chosen.contains_key(p.name) && trim(chosen[p.name]).len() > 0 ==> q.ty.name == Some(chosen[p.name])
            &&& !chosen.contains_key(p.name) || trim(chosen[p.name]).len() == 0 ==> q == p
        },
        !chosen.contains_key("@return"@) ==> retyped(chosen, t).ret == t.ret,
        chosen.contains_key("@return"@) && (trim(chosen["@return"@]).len() == 0 || trim(chosen["@return"@]) == "void"@)
            ==> retyped(chosen, t).ret is None,
        chosen.contains_key("@return"@) && trim(chosen["@return"@]).len() > 0 && trim(chosen["@return"@]) != "void"@
            ==> retyped(chosen, t).ret is Some && (retyped(chosen, t).ret->0).name == Some(trim(chosen["@return"@])),
        retyped(chosen, t).locals.len() == t.locals.len(),
        retyped(chosen, t).params.len() == t.params.len(),
{
}

/// The name that a user chose for a variable is the one it gets, and nothing else of it
/// changes.
pub proof fn chosen_names_are_taken(names: Map<Seq<char>, Seq<char>>, t: TypesNode, i: int)
    ensures
        0 <= i < t.locals.len() ==> {
            let l = t.locals[i];
            let m = renamed(names, t).locals[i];
            &&& names.contains_key(l.name) ==> m.name == names[l.name]
            &&& !names.contains_key(l.name) ==> m.name == l.name
            &&& m.offset == l.offset && m.size_bits == l.size_bits && m.signed == l.signed && m.type_override
                == l.type_override
        },
        0 <= i < t.params.len() ==> {
            let p = t.params[i];
            let q = renamed(names, t).params[i];
            &&& names.contains_key(p.name) ==> q.name == names[p.name]
            &&& !names.contains_key(p.name) ==> q.name == p.name
            &&& q.reg == p.reg && q.ty == p.ty
        },
        renamed(names, t).ret == t.ret,
        renamed(names, t).locals.len() == t.locals.len(),
        renamed(names, t).params.len() == t.params.len(),
{
}

/// A pointer has the type of the last parameter that comes in its register under a named
/// type; failing that, the one chosen for the register.
pub proof fn pointers_have_the_type_of_their_register(
    params: Seq<ParamInfo>,
    chosen: Map<Seq<char>, Seq<char>>,
    base_var: Seq<char>,
    i: int,
    n: String,
)
    requires
        0 <= i < params.len(),
        params[i].reg@ == root_name(base_var),
        params[i].ty.name == Some(n),
        forall|j: int| i < j < params.len() ==> (#[trigger] params[j]).reg@ != root_name(base_var) || params[j].ty.name
            is None,
    ensures
        base_type(params, chosen, base_var) == Some(n@),
{
    lemma_param_type(params, root_name(base_var), params.len() as int, i);
}

proof fn lemma_param_type(params: Seq<ParamInfo>, reg: Seq<char>, k: int, i: int)
    requires
        0 <= i < k <= params.len(),
        params[i].reg@ == reg,
        params[i].ty.name is Some,
        forall|j: int| i < j < k ==> (#[trigger] params[j]).reg@ != reg || params[j].ty.name is None,
    ensures
        param_type(params, reg, k) == text_of(params[i].ty.name),
    decreases k,
{
    if i < k - 1 {
        lemma_param_type(params, reg, k - 1, i);
    }
}

/// A structure has the fields of its definition, and one that has virtual functions a
/// pointer to their table at its start, unless a field is defined there.
pub proof fn structures_have_their_fields(ctx: Ctx, defs: Map<Seq<char>, Fields>, name: Seq<char>, off: i64)
    ensures
        ({
            let f = fields_of(ctx, defs, name);
            &&& defs.contains_key(name) && defs[name].map().contains_key(off) ==> f.contains_key(off) && f[off]
                == defs[name].map()[off]@
            &&& has_table(ctx, name) && !(defs.contains_key(name) && defs[name].map().contains_key(0)) ==> f.contains_key(
                0,
            ) && f[0] == "vftable"@
            &&& off != 0 && !(defs.contains_key(name) && defs[name].map().contains_key(off)) ==> !f.contains_key(off)
            &&& !has_table(ctx, name) && !(defs.contains_key(name) && defs[name].map().contains_key(0))
                ==> !f.contains_key(0)
        }),
{
}

/// A function whose style is flat has no declarations; any other has them, and an empty
/// line behind them, between its signature and its body.
pub proof fn functions_are_put_together(
    style: DecompStyle,
    signature: Seq<char>,
    locals: Seq<LocalVar>,
    body: Seq<Seq<char>>,
)
    ensures
        ({
            let d = declarations(locals, body);
            let text = pseudo_lines(style, signature, locals, body);
            &&& text[0] == signature + " {"@
            &&& text.last() == "}"@
            &&& style is Goto || d.len() == 0 ==> text == seq![signature + " {"@] + body + seq!["}"@]
            &&& !(style is Goto) && d.len() > 0 ==> text == seq![signature + " {"@] + d + seq![""@] + body + seq!["}"@]
        }),
{
    let d = declarations(locals, body);
    let text = pseudo_lines(style, signature, locals, body);
    if style is Goto || d.len() == 0 {
        assert(text =~= seq![signature + " {"@] + body + seq!["}"@]);
    } else {
        assert(text =~= seq![signature + " {"@] + d + seq![""@] + body + seq!["}"@]);
    }
}

/// The flags say the style first, and then each thing that is remarkable about the
/// function exactly where it is.
#[verifier::spinoff_prover]
#[verifier::rlimit(80)]
pub proof fn flags_say_what_is_remarkable(
    style: DecompStyle,
    cfg: CfgArtifact,
    has_loop: bool,
    fallbacks: usize,
    unlifted: usize,
)
    ensures
        ({
            let w = flag_words(style, cfg, has_loop, fallbacks, unlifted);
            &&& w[0] == (match style {
                DecompStyle::Goto => "goto"@,
                DecompStyle::Structured => "structured"@,
                DecompStyle::Ssa => "ssa"@,
            })
            &&& cfg.switches@.len() > 0 ==> w.contains("has-switch"@)
            &&& cfg.stats.indirect_branches > 0 ==> w.contains("has-indirect"@)
            &&& cfg.stats.tail_calls > 0 ==> w.contains("has-tail"@)
            &&& has_loop ==> w.contains("has-loop"@)
            &&& fallbacks > 0 ==> w.contains("structured-partial"@)
            &&& cfg.insn_count == 0 || 5 * (cfg.insn_count - unlifted) < 4 * cfg.insn_count ==> w.contains(
                "low-coverage"@,
            )
            &&& cfg.switches@.len() == 0 && cfg.stats.indirect_branches == 0 && cfg.stats.tail_calls == 0 && !has_loop
                && fallbacks == 0 && cfg.insn_count > 0 && 5 * (cfg.insn_count - unlifted) >= 4 * cfg.insn_count
                ==> w.len() == 1
        }),
{
    let w = flag_words(style, cfg, has_loop, fallbacks, unlifted);
    let a = flag(cfg.switches@.len() > 0, "has-switch"@);
    let b = flag(cfg.stats.indirect_branches > 0, "has-indirect"@);
    let c = flag(cfg.stats.tail_calls > 0, "has-tail"@);
    let d = flag(has_loop, "has-loop"@);
    let e = flag(fallbacks > 0, "structured-partial"@);
    let f = flag(is_low(unlifted, cfg.insn_count), "low-coverage"@);
    if cfg.switches@.len() > 0 {
        assert(w[1] == a[0]);
    }
    if cfg.stats.indirect_branches > 0 {
        assert(w[1 + a.len() as int] == b[0]);
    }
    if cfg.stats.tail_calls > 0 {
        assert(w[1int + a.len() + b.len()] == c[0]);
    }
    if has_loop {
        assert(w[1int + a.len() + b.len() + c.len()] == d[0]);
    }
    if fallbacks > 0 {
        assert(w[1int + a.len() + b.len() + c.len() + d.len()] == e[0]);
    }
    if is_low(unlifted, cfg.insn_count) {
        assert(w.last() == f[0]);
    }
}

} // verus!
