//! Filler instructions and branches that always go one way.
//!
//! Both are reported and nothing is taken out. An instruction is filler where its
//! text alone shows that it does nothing: a register moved onto itself, a zero
//! added, a push that the next instruction undoes. A branch is opaque where its
//! condition is proven to have one value.

use vstd::prelude::*;
use vstd::string::{StrSliceExecFns, StringExecFns};

use crate::ctx::Ctx;
use crate::decomp::at_most_word;
use crate::ir::{CfgArtifact, CfgBlock, IrInsn, Successor};
use crate::source::CoreError;
use crate::ssa::SsaBlock;
use crate::text::{chars_of, find_char, first_index, is_digit, is_space, is_whitespace, same, trim, trim_text};
use crate::va::Va;

verus! {

/// An instruction that does nothing.
#[derive(Clone, Debug, PartialEq, Eq)]
pub struct JunkInsn {
    pub va: Va,
    pub len: u8,
    pub reason: String,
}

/// A branch that always goes one way.
#[derive(Clone, Debug, PartialEq, Eq)]
pub struct OpaqueBranch {
    /// The address of the branch.
    pub at: Va,
    pub always_taken: bool,
    /// Where it never goes.
    pub dead_target: Va,
    pub reason: String,
}

/// What was found in a function.
#[derive(Clone, Debug, PartialEq, Eq)]
pub struct DeobfuscateArtifact {
    pub start: Va,
    pub end: Va,
    pub junk: Vec<JunkInsn>,
    pub opaque_branches: Vec<OpaqueBranch>,
    /// The number of bytes of filler.
    pub junk_bytes: usize,
}

/// What is known of the condition that a block branches on.
#[derive(Clone, Debug, PartialEq, Eq)]
pub struct Condition {
    /// Its value, where it is proven to have only one.
    pub value: Option<i128>,
    pub text: String,
}

/// A filler instruction, by contents.
pub ghost struct JunkNode {
    pub va: Va,
    pub len: u8,
    pub reason: Seq<char>,
}

/// An opaque branch, by contents.
pub ghost struct OpaqueNode {
    pub at: Va,
    pub always_taken: bool,
    pub dead_target: Va,
    pub reason: Seq<char>,
}

pub open spec fn junk_node(j: JunkInsn) -> JunkNode {
    JunkNode { va: j.va, len: j.len, reason: j.reason@ }
}

pub open spec fn junk_nodes(v: Seq<JunkInsn>) -> Seq<JunkNode> {
    v.map_values(|j: JunkInsn| junk_node(j))
}

pub open spec fn opaque_node(b: OpaqueBranch) -> OpaqueNode {
    OpaqueNode { at: b.at, always_taken: b.always_taken, dead_target: b.dead_target, reason: b.reason@ }
}

pub open spec fn opaque_nodes(v: Seq<OpaqueBranch>) -> Seq<OpaqueNode> {
    v.map_values(|b: OpaqueBranch| opaque_node(b))
}

// ---------------------------------------------------------------------------
// Operands
// ---------------------------------------------------------------------------

/// The first white space from index `k` on.
pub open spec fn space_from(s: Seq<char>, k: int) -> Option<int>
    decreases s.len() - k,
{
    if k < 0 || k >= s.len() {
        None
    } else if is_space(s[k]) {
        Some(k)
    } else {
        space_from(s, k + 1)
    }
}

/// What stands behind the first white space.
pub open spec fn behind_space(s: Seq<char>) -> Option<Seq<char>> {
    match space_from(s, 0) {
        Some(k) => Some(trim(s.skip(k + 1))),
        None => None,
    }
}

/// The first comma from index `k` on that separates operands: one that stands in
/// none of the brackets, of which `open` are open at `k`.
pub open spec fn comma_from(s: Seq<char>, k: int, open: nat) -> Option<int>
    decreases s.len() - k,
{
    if k < 0 || k >= s.len() {
        None
    } else if s[k] == ',' && open == 0 {
        Some(k)
    } else if s[k] == '[' || s[k] == '{' || s[k] == '(' {
        comma_from(s, k + 1, open + 1)
    } else if (s[k] == ']' || s[k] == '}' || s[k] == ')') && open > 0 {
        comma_from(s, k + 1, (open - 1) as nat)
    } else {
        comma_from(s, k + 1, open)
    }
}

/// The two operands of an instruction: what stands before and behind the only
/// comma that separates operands. An instruction of three operands has no such
/// pair.
pub open spec fn pair_of(s: Seq<char>) -> Option<(Seq<char>, Seq<char>)> {
    match behind_space(s) {
        Some(r) => match comma_from(r, 0, 0) {
            Some(k) => if comma_from(r, k + 1, 0) is Some {
                None
            } else {
                Some((trim(r.take(k)), trim(r.skip(k + 1))))
            },
            None => None,
        },
        None => None,
    }
}

/// The only operand of an instruction.
pub open spec fn single_of(s: Seq<char>) -> Option<Seq<char>> {
    match behind_space(s) {
        Some(r) => if first_index(r, ',') is Some {
            None
        } else {
            Some(r)
        },
        None => None,
    }
}

fn after_space(text: &str) -> (r: Option<&str>)
    ensures
        match (r, behind_space(text@)) {
            (Some(a), Some(b)) => a@ == b,
            (None, None) => true,
            _ => false,
        },
{
    let v = chars_of(text);
    let mut k: usize = 0;
    while k < v.len()
        invariant
            v@ == text@,
            k <= v@.len(),
            space_from(text@, 0) == space_from(text@, k as int),
        decreases v@.len() - k,
    {
        if is_whitespace(v[k]) {
            let rest = text.substring_char(k + 1, v.len());
            assert(rest@ =~= text@.skip(k + 1));
            return Some(trim_text(rest));
        }
        k = k + 1;
    }
    None
}

fn find_comma(v: &Vec<char>, from: usize) -> (r: Option<usize>)
    requires
        from <= v@.len(),
    ensures
        match (r, comma_from(v@, from as int, 0)) {
            (Some(i), Some(j)) => i == j && i < v@.len(),
            (None, None) => true,
            _ => false,
        },
{
    let mut k: usize = from;
    let mut open: usize = 0;
    while k < v.len()
        invariant
            from <= k <= v@.len(),
            open <= k,
            comma_from(v@, from as int, 0) == comma_from(v@, k as int, open as nat),
        decreases v@.len() - k,
    {
        let c: char = v[k];
        if c == ',' && open == 0 {
            return Some(k);
        }
        if c == '[' || c == '{' || c == '(' {
            open = open + 1;
        } else if (c == ']' || c == '}' || c == ')') && open > 0 {
            open = open - 1;
        }
        k = k + 1;
    }
    None
}

/// The two operands of an instruction.
pub fn two_operands(text: &str) -> (r: Option<(&str, &str)>)
    ensures
        match (r, pair_of(text@)) {
            (Some(a), Some(b)) => a.0@ == b.0 && a.1@ == b.1,
            (None, None) => true,
            _ => false,
        },
{
    match after_space(text) {
        Some(rest) => {
            let v = chars_of(rest);
            match find_comma(&v, 0) {
                Some(k) => {
                    if find_comma(&v, k + 1).is_some() {
                        return None;
                    }
                    let a = rest.substring_char(0, k);
                    let b = rest.substring_char(k + 1, v.len());
                    assert(a@ =~= rest@.take(k as int));
                    assert(b@ =~= rest@.skip(k + 1));
                    Some((trim_text(a), trim_text(b)))
                },
                None => None,
            }
        },
        None => None,
    }
}

/// The only operand of an instruction.
pub fn one_operand(text: &str) -> (r: Option<&str>)
    ensures
        match (r, single_of(text@)) {
            (Some(a), Some(b)) => a@ == b,
            (None, None) => true,
            _ => false,
        },
{
    match after_space(text) {
        Some(rest) => {
            let v = chars_of(rest);
            match find_char(&v, ',') {
                Some(_) => None,
                None => Some(rest),
            }
        },
        None => None,
    }
}

/// The text is a zero.
pub open spec fn is_zero(s: Seq<char>) -> bool {
    s == "0"@ || s == "0x0"@
}

pub fn is_zero_literal(s: &str) -> (r: bool)
    ensures
        r == is_zero(s@),
{
    same(s, "0") || same(s, "0x0")
}

// ---------------------------------------------------------------------------
// Filler
// ---------------------------------------------------------------------------

/// An operand that is a register: a letter, and letters and digits behind it. What
/// stands in memory is written with brackets.
pub open spec fn is_register(s: Seq<char>) -> bool {
    &&& s.len() > 0 && is_alphabetic(s[0])
    &&& forall|i: int| 0 <= i < s.len() ==> is_alphabetic(#[trigger] s[i]) || is_digit(s[i])
}

pub open spec fn is_alphabetic(c: char) -> bool {
    'a' <= c <= 'z' || 'A' <= c <= 'Z'
}

fn names_register(s: &str) -> (r: bool)
    ensures
        r == is_register(s@),
{
    let v = chars_of(s);
    if v.len() == 0 || (v[0] >= '0' && v[0] <= '9') {
        return false;
    }
    let mut k: usize = 0;
    while k < v.len()
        invariant
            v@ == s@,
            k <= v@.len(),
            forall|i: int| 0 <= i < k ==> is_alphabetic(#[trigger] v@[i]) || is_digit(v@[i]),
        decreases v@.len() - k,
    {
        let c: char = v[k];
        if !(('a' <= c && c <= 'z') || ('A' <= c && c <= 'Z') || ('0' <= c && c <= '9')) {
            return false;
        }
        k = k + 1;
    }
    true
}

/// A move or an exchange of a register with itself.
pub open spec fn is_self_move(x: IrInsn) -> bool {
    (x.mnemonic@ == "mov"@ || x.mnemonic@ == "xchg"@) && (pair_of(x.text@) matches Some(p) && p.0 == p.1
        && is_register(p.0))
}

/// An addition, a subtraction or a disjunction of zero and a register.
pub open spec fn is_identity(x: IrInsn) -> bool {
    (x.mnemonic@ == "add"@ || x.mnemonic@ == "sub"@ || x.mnemonic@ == "or"@) && (pair_of(x.text@) matches Some(p)
        && is_zero(p.1) && is_register(p.0))
}

/// A push of a register that the second instruction undoes.
pub open spec fn cancels(x: IrInsn, y: IrInsn) -> bool {
    x.mnemonic@ == "push"@ && y.mnemonic@ == "pop"@ && (single_of(x.text@) matches Some(a) && single_of(y.text@)
        == Some(a) && is_register(a))
}

pub open spec fn pair_reason(x: IrInsn, y: IrInsn) -> Seq<char> {
    "push/pop pair cancels out ("@ + x.text@ + " / "@ + y.text@ + ")"@
}

/// What is reported at instruction `i` of a block.
pub open spec fn junk_at(s: Seq<IrInsn>, i: int) -> Seq<JunkNode> {
    let x = s[i];
    if is_self_move(x) {
        seq![JunkNode { va: x.va, len: x.len, reason: "self-"@ + x.mnemonic@ + " ("@ + x.text@ + ")"@ }]
    } else if is_identity(x) {
        seq![JunkNode { va: x.va, len: x.len, reason: "identity arithmetic ("@ + x.text@ + ")"@ }]
    } else if i + 1 < s.len() && cancels(x, s[i + 1]) {
        seq![
            JunkNode { va: x.va, len: x.len, reason: pair_reason(x, s[i + 1]) },
            JunkNode { va: s[i + 1].va, len: s[i + 1].len, reason: pair_reason(x, s[i + 1]) },
        ]
    } else {
        Seq::empty()
    }
}

/// What is reported in the first `k` instructions of a block.
pub open spec fn junk_in(s: Seq<IrInsn>, k: int) -> Seq<JunkNode>
    decreases k,
{
    if k <= 0 {
        Seq::empty()
    } else {
        junk_in(s, k - 1) + junk_at(s, k - 1)
    }
}

/// What is reported in the first `k` blocks.
pub open spec fn junk_of(blocks: Seq<CfgBlock>, k: int) -> Seq<JunkNode>
    decreases k,
{
    if k <= 0 {
        Seq::empty()
    } else {
        junk_of(blocks, k - 1) + junk_in(blocks[k - 1].insns@, blocks[k - 1].insns@.len() as int)
    }
}

/// The number of bytes of the first `k` reported instructions.
pub open spec fn bytes_of(j: Seq<JunkNode>, k: int) -> nat
    decreases k,
{
    if k <= 0 {
        0
    } else {
        bytes_of(j, k - 1) + j[k - 1].len as nat
    }
}

fn self_move(x: &IrInsn) -> (r: bool)
    ensures
        r == is_self_move(*x),
{
    let m = x.mnemonic.as_str();
    if same(m, "mov") || same(m, "xchg") {
        match two_operands(x.text.as_str()) {
            Some((a, b)) => same(a, b) && names_register(a),
            None => false,
        }
    } else {
        false
    }
}

fn identity(x: &IrInsn) -> (r: bool)
    ensures
        r == is_identity(*x),
{
    let m = x.mnemonic.as_str();
    if same(m, "add") || same(m, "sub") || same(m, "or") {
        match two_operands(x.text.as_str()) {
            Some((a, b)) => is_zero_literal(b) && names_register(a),
            None => false,
        }
    } else {
        false
    }
}

fn cancel(x: &IrInsn, y: &IrInsn) -> (r: bool)
    ensures
        r == cancels(*x, *y),
{
    if same(x.mnemonic.as_str(), "push") && same(y.mnemonic.as_str(), "pop") {
        match (one_operand(x.text.as_str()), one_operand(y.text.as_str())) {
            (Some(a), Some(b)) => same(a, b) && names_register(a),
            _ => false,
        }
    } else {
        false
    }
}

fn write_pair(x: &IrInsn, y: &IrInsn) -> (s: String)
    ensures
        s@ == pair_reason(*x, *y),
{
    String::from_str("push/pop pair cancels out (").concat(x.text.as_str()).concat(" / ").concat(y.text.as_str()).concat(
        ")",
    )
}

fn push_junk(out: &mut Vec<JunkInsn>, j: JunkInsn)
    ensures
        junk_nodes(final(out)@) == junk_nodes(old(out)@).push(junk_node(j)),
{
    assert(junk_nodes(out@.push(j)) =~= junk_nodes(out@).push(junk_node(j)));
    out.push(j);
}

fn report_insn(s: &Vec<IrInsn>, i: usize, out: &mut Vec<JunkInsn>)
    requires
        i < s@.len(),
    ensures
        junk_nodes(final(out)@) == junk_nodes(old(out)@) + junk_at(s@, i as int),
{
    let ghost before = junk_nodes(out@);
    let x = &s[i];
    let n: usize = s.len();
    if self_move(x) {
        let reason = String::from_str("self-").concat(x.mnemonic.as_str()).concat(" (").concat(x.text.as_str()).concat(
            ")",
        );
        push_junk(out, JunkInsn { va: x.va, len: x.len, reason });
    } else if identity(x) {
        let reason = String::from_str("identity arithmetic (").concat(x.text.as_str()).concat(")");
        push_junk(out, JunkInsn { va: x.va, len: x.len, reason });
    } else if i + 1 < n && cancel(x, &s[i + 1]) {
        let y = &s[i + 1];
        push_junk(out, JunkInsn { va: x.va, len: x.len, reason: write_pair(x, y) });
        push_junk(out, JunkInsn { va: y.va, len: y.len, reason: write_pair(x, y) });
    }
    assert(junk_nodes(out@) =~= before + junk_at(s@, i as int));
}

/// Finds the filler of a function.
pub fn find_junk(blocks: &Vec<CfgBlock>) -> (out: Vec<JunkInsn>)
    ensures
        junk_nodes(out@) == junk_of(blocks@, blocks@.len() as int),
{
    let mut out: Vec<JunkInsn> = Vec::new();
    let mut b: usize = 0;
    assert(junk_nodes(out@) =~= Seq::<JunkNode>::empty());
    while b < blocks.len()
        invariant
            b <= blocks@.len(),
            junk_nodes(out@) == junk_of(blocks@, b as int),
        decreases blocks@.len() - b,
    {
        let s = &blocks[b].insns;
        let ghost before = junk_nodes(out@);
        let mut i: usize = 0;
        assert(before + junk_in(s@, 0) =~= before);
        while i < s.len()
            invariant
                i <= s@.len(),
                junk_nodes(out@) == before + junk_in(s@, i as int),
            decreases s@.len() - i,
        {
            report_insn(s, i, &mut out);
            assert(before + junk_in(s@, i as int) + junk_at(s@, i as int) =~= before + (junk_in(s@, i as int) + junk_at(
                s@,
                i as int,
            )));
            i = i + 1;
        }
        b = b + 1;
    }
    out
}

fn count_bytes(j: &Vec<JunkInsn>) -> (n: usize)
    ensures
        n == at_most_word(bytes_of(junk_nodes(j@), j@.len() as int)),
{
    let mut n: usize = 0;
    let mut k: usize = 0;
    while k < j.len()
        invariant
            k <= j@.len(),
            n == at_most_word(bytes_of(junk_nodes(j@), k as int)),
        decreases j@.len() - k,
    {
        assert(junk_nodes(j@)[k as int] == junk_node(j@[k as int]));
        let l: usize = j[k].len as usize;
        n = if n <= usize::MAX - l {
            n + l
        } else {
            usize::MAX
        };
        k = k + 1;
    }
    n
}

// ---------------------------------------------------------------------------
// Opaque branches
// ---------------------------------------------------------------------------

/// The truth value that a number stands for.
pub open spec fn known_bool(v: Option<i128>) -> Option<bool> {
    match v {
        Some(n) => if n == 0 {
            Some(false)
        } else if n == 1 {
            Some(true)
        } else {
            None
        },
        None => None,
    }
}

/// The truth value of a condition that has only one value.
pub fn as_known_bool(v: Option<i128>) -> (r: Option<bool>)
    ensures
        r == known_bool(v),
{
    match v {
        Some(n) => if n == 0 {
            Some(false)
        } else if n == 1 {
            Some(true)
        } else {
            None
        },
        None => None,
    }
}

/// The first edge from index `k` on that is never followed.
pub open spec fn dead_from(s: Seq<Successor>, taken: bool, k: int) -> Option<int>
    decreases s.len() - k,
{
    if k < 0 || k >= s.len() {
        None
    } else if (s[k].kind@ == "cjmp-true"@) != taken {
        Some(k)
    } else {
        dead_from(s, taken, k + 1)
    }
}

/// The address of the branch that ends block `b`: that of its last instruction.
pub open spec fn branch_at(cfg: Seq<CfgBlock>, blocks: Seq<SsaBlock>, b: int) -> Va {
    if b < cfg.len() && cfg[b].insns@.len() > 0 {
        cfg[b].insns@.last().va
    } else {
        blocks[b].start
    }
}

pub open spec fn truth(b: bool) -> Seq<char> {
    if b {
        "true"@
    } else {
        "false"@
    }
}

/// What is reported of block `b`.
pub open spec fn opaque_at(
    cfg: Seq<CfgBlock>,
    blocks: Seq<SsaBlock>,
    conditions: Seq<Option<Condition>>,
    b: int,
) -> Seq<OpaqueNode> {
    match conditions[b] {
        Some(c) => match known_bool(c.value) {
            Some(taken) => match dead_from(blocks[b].successors@, taken, 0) {
                Some(k) => seq![
                    OpaqueNode {
                        at: branch_at(cfg, blocks, b),
                        always_taken: taken,
                        dead_target: blocks[b].successors@[k].to,
                        reason: "condition "@ + c.text@ + " resolves to the constant "@ + truth(taken),
                    },
                ],
                None => Seq::empty(),
            },
            None => Seq::empty(),
        },
        None => Seq::empty(),
    }
}

/// What is reported of the first `k` blocks.
pub open spec fn opaque_of(
    cfg: Seq<CfgBlock>,
    blocks: Seq<SsaBlock>,
    conditions: Seq<Option<Condition>>,
    k: int,
) -> Seq<OpaqueNode>
    decreases k,
{
    if k <= 0 {
        Seq::empty()
    } else {
        opaque_of(cfg, blocks, conditions, k - 1) + opaque_at(cfg, blocks, conditions, k - 1)
    }
}

fn find_dead(s: &Vec<Successor>, taken: bool) -> (r: Option<usize>)
    ensures
        match (r, dead_from(s@, taken, 0)) {
            (Some(a), Some(b)) => a == b && a < s@.len(),
            (None, None) => true,
            _ => false,
        },
{
    let mut k: usize = 0;
    while k < s.len()
        invariant
            k <= s@.len(),
            dead_from(s@, taken, 0) == dead_from(s@, taken, k as int),
        decreases s@.len() - k,
    {
        if same(s[k].kind.as_str(), "cjmp-true") != taken {
            return Some(k);
        }
        k = k + 1;
    }
    None
}

/// Finds the branches that always go one way. There is what is known of the
/// condition of each block that has one.
pub fn find_opaque(cfg: &Vec<CfgBlock>, blocks: &Vec<SsaBlock>, conditions: &Vec<Option<Condition>>) -> (out: Vec<
    OpaqueBranch,
>)
    requires
        conditions@.len() == blocks@.len(),
    ensures
        opaque_nodes(out@) == opaque_of(cfg@, blocks@, conditions@, blocks@.len() as int),
{
    let mut out: Vec<OpaqueBranch> = Vec::new();
    let mut b: usize = 0;
    assert(opaque_nodes(out@) =~= Seq::<OpaqueNode>::empty());
    while b < blocks.len()
        invariant
            b <= blocks@.len(),
            conditions@.len() == blocks@.len(),
            opaque_nodes(out@) == opaque_of(cfg@, blocks@, conditions@, b as int),
        decreases blocks@.len() - b,
    {
        let ghost before = opaque_nodes(out@);
        match &conditions[b] {
            Some(c) => match as_known_bool(c.value) {
                Some(taken) => match find_dead(&blocks[b].successors, taken) {
                    Some(k) => {
                        let at = if b < cfg.len() && cfg[b].insns.len() > 0 {
                            cfg[b].insns[cfg[b].insns.len() - 1].va
                        } else {
                            blocks[b].start
                        };
                        let word = if taken {
                            "true"
                        } else {
                            "false"
                        };
                        let reason = String::from_str("condition ").concat(c.text.as_str()).concat(
                            " resolves to the constant ",
                        ).concat(word);
                        out.push(
                            OpaqueBranch {
                                at,
                                always_taken: taken,
                                dead_target: blocks[b].successors[k].to,
                                reason,
                            },
                        );
                    },
                    None => {},
                },
                None => {},
            },
            None => {},
        }
        assert(opaque_nodes(out@) =~= before + opaque_at(cfg@, blocks@, conditions@, b as int));
        b = b + 1;
    }
    out
}

/// Finds filler and opaque branches.
#[derive(Clone, Copy, Debug, Default)]
pub struct DeobfuscatePass;

impl DeobfuscatePass {
    pub fn name(&self) -> (r: &'static str)
        ensures
            r@ == "deobfuscate"@,
    {
        "deobfuscate"
    }

    /// `blocks` are the blocks of the graph in static single assignment form, and
    /// `conditions` what is known of the conditions they branch on.
    pub fn run(
        &self,
        _ctx: &Ctx,
        cfg: &CfgArtifact,
        blocks: &Vec<SsaBlock>,
        conditions: &Vec<Option<Condition>>,
    ) -> (r: Result<DeobfuscateArtifact, CoreError>)
        requires
            conditions@.len() == blocks@.len(),
        ensures
            r matches Ok(d) && {
                let junk = junk_of(cfg.blocks@, cfg.blocks@.len() as int);
                &&& d.start == cfg.start
                &&& d.end == cfg.end
                &&& junk_nodes(d.junk@) == junk
                &&& d.junk_bytes == at_most_word(bytes_of(junk, junk.len() as int))
                &&& opaque_nodes(d.opaque_branches@) == opaque_of(
                    cfg.blocks@,
                    blocks@,
                    conditions@,
                    blocks@.len() as int,
                )
            },
    {
        let junk = find_junk(&cfg.blocks);
        let junk_bytes: usize = count_bytes(&junk);
        let opaque_branches = find_opaque(&cfg.blocks, blocks, conditions);
        Ok(DeobfuscateArtifact { start: cfg.start, end: cfg.end, junk, opaque_branches, junk_bytes })
    }
}

// ---------------------------------------------------------------------------
// Laws
// ---------------------------------------------------------------------------

/// Instruction `i` does nothing, alone or with a neighbour.
pub open spec fn is_idle(s: Seq<IrInsn>, i: int) -> bool {
    is_self_move(s[i]) || is_identity(s[i]) || (i + 1 < s.len() && cancels(s[i], s[i + 1])) || (i > 0 && cancels(
        s[i - 1],
        s[i],
    ))
}

/// The instruction of a block that a report speaks of.
pub open spec fn reports(s: Seq<IrInsn>, j: JunkNode, i: int) -> bool {
    0 <= i < s.len() && s[i].va == j.va && s[i].len == j.len && is_idle(s, i)
}

proof fn lemma_junk_in(s: Seq<IrInsn>, k: int, j: JunkNode)
    requires
        0 <= k <= s.len(),
        junk_in(s, k).contains(j),
    ensures
        exists|i: int| #[trigger] reports(s, j, i),
    decreases k,
{
    if k > 0 {
        let a = junk_in(s, k - 1);
        let b = junk_at(s, k - 1);
        let n = choose|n: int| 0 <= n < (a + b).len() && (a + b)[n] == j;
        if n < a.len() {
            assert(a[n] == j);
            lemma_junk_in(s, k - 1, j);
        } else {
            assert(b[n - a.len()] == j);
            if n - a.len() == 0 {
                assert(reports(s, j, k - 1));
            } else {
                assert(reports(s, j, k));
            }
        }
    }
}

proof fn lemma_junk_of(blocks: Seq<CfgBlock>, k: int, j: JunkNode)
    requires
        0 <= k <= blocks.len(),
        junk_of(blocks, k).contains(j),
    ensures
        exists|b: int, i: int| 0 <= b < blocks.len() && #[trigger] reports(blocks[b].insns@, j, i),
    decreases k,
{
    if k > 0 {
        let a = junk_of(blocks, k - 1);
        let s = blocks[k - 1].insns@;
        let c = junk_in(s, s.len() as int);
        let n = choose|n: int| 0 <= n < (a + c).len() && (a + c)[n] == j;
        if n < a.len() {
            assert(a[n] == j);
            lemma_junk_of(blocks, k - 1, j);
        } else {
            assert(c[n - a.len()] == j);
            lemma_junk_in(s, s.len() as int, j);
            let i = choose|i: int| #[trigger] reports(s, j, i);
            assert(reports(blocks[k - 1].insns@, j, i));
        }
    }
}

/// Only instructions that do nothing are reported as filler.
pub proof fn filler_does_nothing(blocks: Seq<CfgBlock>, j: JunkNode)
    requires
        junk_of(blocks, blocks.len() as int).contains(j),
    ensures
        exists|b: int, i: int| 0 <= b < blocks.len() && #[trigger] reports(blocks[b].insns@, j, i),
{
    lemma_junk_of(blocks, blocks.len() as int, j);
}

/// Block `b` is proven to branch as reported, and never goes to `r.dead_target`
/// by the edge `k`.
pub open spec fn proves(
    blocks: Seq<SsaBlock>,
    conditions: Seq<Option<Condition>>,
    r: OpaqueNode,
    b: int,
    k: int,
) -> bool {
    &&& 0 <= b < blocks.len()
    &&& 0 <= k < blocks[b].successors@.len()
    &&& conditions[b] matches Some(c) && c.value == Some(
        if r.always_taken {
            1i128
        } else {
            0i128
        },
    )
    &&& blocks[b].successors@[k].to == r.dead_target
    &&& (blocks[b].successors@[k].kind@ == "cjmp-true"@) != r.always_taken
}

proof fn lemma_dead(s: Seq<Successor>, taken: bool, k: int)
    requires
        0 <= k,
    ensures
        dead_from(s, taken, k) matches Some(i) ==> k <= i < s.len() && (s[i].kind@ == "cjmp-true"@) != taken,
    decreases s.len() - k,
{
    if k < s.len() && (s[k].kind@ == "cjmp-true"@) == taken {
        lemma_dead(s, taken, k + 1);
    }
}

proof fn lemma_opaque(
    cfg: Seq<CfgBlock>,
    blocks: Seq<SsaBlock>,
    conditions: Seq<Option<Condition>>,
    n: int,
    r: OpaqueNode,
)
    requires
        0 <= n <= blocks.len(),
        opaque_of(cfg, blocks, conditions, n).contains(r),
    ensures
        exists|b: int, k: int| #[trigger] proves(blocks, conditions, r, b, k),
    decreases n,
{
    if n > 0 {
        let a = opaque_of(cfg, blocks, conditions, n - 1);
        let c = opaque_at(cfg, blocks, conditions, n - 1);
        let i = choose|i: int| 0 <= i < (a + c).len() && (a + c)[i] == r;
        if i < a.len() {
            assert(a[i] == r);
            lemma_opaque(cfg, blocks, conditions, n - 1, r);
        } else {
            assert(c[i - a.len()] == r);
            lemma_dead(blocks[n - 1].successors@, r.always_taken, 0);
            let k = dead_from(blocks[n - 1].successors@, r.always_taken, 0)->0;
            assert(proves(blocks, conditions, r, n - 1, k));
        }
    }
}

/// A branch is reported only where the value of its condition is proven, and the
/// edge that is called dead is one that this value does not follow.
pub proof fn opaque_branches_are_proven(
    cfg: Seq<CfgBlock>,
    blocks: Seq<SsaBlock>,
    conditions: Seq<Option<Condition>>,
    r: OpaqueNode,
)
    requires
        opaque_of(cfg, blocks, conditions, blocks.len() as int).contains(r),
    ensures
        exists|b: int, k: int| #[trigger] proves(blocks, conditions, r, b, k),
{
    lemma_opaque(cfg, blocks, conditions, blocks.len() as int, r);
}

// ---------------------------------------------------------------------------
// What is taken for idle
// ---------------------------------------------------------------------------

/// The operands of an instruction are what stands before and behind its comma.
pub proof fn operands_stand_around_the_comma(m: Seq<char>, a: Seq<char>, b: Seq<char>)
    requires
        is_register(a),
        is_register(b),
        forall|i: int| 0 <= i < m.len() ==> !is_space(#[trigger] m[i]),
    ensures
        pair_of(m + seq![' '] + a + seq![','] + b) == Some((a, b)),
        single_of(m + seq![' '] + a) == Some(a),
        single_of(m + seq![' '] + a + seq![','] + b) is None,
{
    let r = a + seq![','] + b;
    let s = m + seq![' '] + a + seq![','] + b;
    lemma_space_at(s, m.len() as int, 0);
    assert(s.skip(m.len() as int + 1) =~= r);
    lemma_register_trims(a);
    lemma_register_trims(b);
    assert(is_alphabetic(r[0]) && is_alphabetic(a[0]));
    assert(r.last() == b.last());
    assert(is_alphabetic(b.last()) || is_digit(b.last()));
    assert(trim(r) == r);
    lemma_comma_at(r, a.len() as int, 0);
    lemma_no_comma(r, a.len() as int + 1);
    assert(r.take(a.len() as int) =~= a);
    assert(r.skip(a.len() as int + 1) =~= b);
    let t = m + seq![' '] + a;
    lemma_space_at(t, m.len() as int, 0);
    assert(t.skip(m.len() as int + 1) =~= a);
    crate::text::lemma_first_from(a, ',', 0);
    crate::text::lemma_first_from(r, ',', 0);
    assert(r[a.len() as int] == ',');
    match first_index(a, ',') {
        Some(k) => {
            assert(is_alphabetic(a[k]) || is_digit(a[k]));
        },
        None => {},
    }
}

proof fn lemma_space_at(s: Seq<char>, n: int, k: int)
    requires
        0 <= k <= n < s.len(),
        s[n] == ' ',
        forall|i: int| k <= i < n ==> !is_space(#[trigger] s[i]),
    ensures
        space_from(s, k) == Some(n),
    decreases n - k,
{
    if k < n {
        lemma_space_at(s, n, k + 1);
    }
}

proof fn lemma_register_trims(a: Seq<char>)
    requires
        is_register(a),
    ensures
        trim(a) == a,
{
    assert(is_alphabetic(a[0]) || is_digit(a[0]));
    assert(is_alphabetic(a[a.len() - 1]) || is_digit(a[a.len() - 1]));
}

proof fn lemma_comma_at(s: Seq<char>, n: int, k: int)
    requires
        0 <= k <= n < s.len(),
        s[n] == ',',
        forall|i: int| k <= i < n ==> is_alphabetic(#[trigger] s[i]) || is_digit(s[i]),
    ensures
        comma_from(s, k, 0) == Some(n),
    decreases n - k,
{
    if k < n {
        assert(is_alphabetic(s[k]) || is_digit(s[k]));
        lemma_comma_at(s, n, k + 1);
    }
}

proof fn lemma_no_comma(s: Seq<char>, k: int)
    requires
        0 <= k <= s.len(),
        forall|i: int| k <= i < s.len() ==> is_alphabetic(#[trigger] s[i]) || is_digit(s[i]),
    ensures
        comma_from(s, k, 0) is None,
    decreases s.len() - k,
{
    if k < s.len() {
        assert(is_alphabetic(s[k]) || is_digit(s[k]));
        lemma_no_comma(s, k + 1);
    }
}

/// A move of a register to itself, and the sum, the difference or the disjunction of a
/// register and zero, change nothing; a move between two registers does, and so do other
/// operations.
pub proof fn idle_instructions_change_nothing(x: IrInsn, a: Seq<char>, b: Seq<char>)
    requires
        pair_of(x.text@) == Some((a, b)),
    ensures
        x.mnemonic@ == "mov"@ && is_register(a) ==> is_self_move(x) == (a == b),
        x.mnemonic@ == "xchg"@ && is_register(a) ==> is_self_move(x) == (a == b),
        x.mnemonic@ == "add"@ && is_register(a) ==> is_identity(x) == (b == "0"@ || b == "0x0"@),
        x.mnemonic@ == "sub"@ && is_register(a) ==> is_identity(x) == (b == "0"@ || b == "0x0"@),
        x.mnemonic@ == "or"@ && is_register(a) ==> is_identity(x) == (b == "0"@ || b == "0x0"@),
        !is_register(a) ==> !is_self_move(x) && !is_identity(x),
        x.mnemonic@ != "mov"@ && x.mnemonic@ != "xchg"@ ==> !is_self_move(x),
        x.mnemonic@ != "add"@ && x.mnemonic@ != "sub"@ && x.mnemonic@ != "or"@ ==> !is_identity(x),
{
}

/// A push and the pop behind it undo each other where both are of the same register.
pub proof fn pushes_are_undone_by_pops(x: IrInsn, y: IrInsn, a: Seq<char>, b: Seq<char>)
    requires
        single_of(x.text@) == Some(a),
        single_of(y.text@) == Some(b),
        x.mnemonic@ == "push"@,
        y.mnemonic@ == "pop"@,
    ensures
        cancels(x, y) <==> a == b && is_register(a),
{
}

/// Each idle instruction is reported with its place and its length, and a pair that
/// cancels with both.
pub proof fn idle_instructions_are_reported(s: Seq<IrInsn>, i: int)
    requires
        0 <= i < s.len(),
    ensures
        is_self_move(s[i]) || is_identity(s[i]) ==> junk_at(s, i).len() == 1 && junk_at(s, i)[0].va == s[i].va && junk_at(
            s,
            i,
        )[0].len == s[i].len,
        !is_self_move(s[i]) && !is_identity(s[i]) && i + 1 < s.len() && cancels(s[i], s[i + 1]) ==> junk_at(s, i).len() == 2
            && junk_at(s, i)[0].va == s[i].va && junk_at(s, i)[1].va == s[i + 1].va && junk_at(s, i)[0].len == s[i].len
            && junk_at(s, i)[1].len == s[i + 1].len,
        !is_self_move(s[i]) && !is_identity(s[i]) && !(i + 1 < s.len() && cancels(s[i], s[i + 1])) ==> junk_at(s, i).len()
            == 0,
        junk_in(s, i + 1) == junk_in(s, i) + junk_at(s, i),
        junk_in(s, 0).len() == 0,
{
}

/// A branch whose condition is known goes one way: the edge that is never followed is the
/// one for the other outcome.
pub proof fn known_conditions_leave_one_edge_dead(
    cfg: Seq<CfgBlock>,
    blocks: Seq<SsaBlock>,
    conditions: Seq<Option<Condition>>,
    b: int,
    c: Condition,
    x: Successor,
    y: Successor,
)
    requires
        0 <= b < blocks.len(),
        conditions[b] == Some(c),
        blocks[b].successors@ == seq![x, y],
        x.kind@ == "cjmp-true"@,
        y.kind@ != "cjmp-true"@,
    ensures
        ({
            let r = opaque_at(cfg, blocks, conditions, b);
            &&& c.value == Some(1i128) ==> r.len() == 1 && r[0].always_taken && r[0].dead_target == y.to
            &&& c.value == Some(0i128) ==> r.len() == 1 && !r[0].always_taken && r[0].dead_target == x.to
            &&& c.value is None ==> r.len() == 0
            &&& c.value matches Some(v) ==> (v != 0 && v != 1 ==> r.len() == 0)
        }),
{
    let s = blocks[b].successors@;
    assert(s[0] == x && s[1] == y);
    reveal_with_fuel(dead_from, 3);
}

/// A branch stands at the last instruction of its block.
pub proof fn branches_stand_at_the_last_instruction(cfg: Seq<CfgBlock>, blocks: Seq<SsaBlock>, b: int)
    requires
        0 <= b < blocks.len(),
    ensures
        b < cfg.len() && cfg[b].insns@.len() > 0 ==> branch_at(cfg, blocks, b) == cfg[b].insns@[cfg[b].insns@.len() - 1].va,
        b >= cfg.len() || cfg[b].insns@.len() == 0 ==> branch_at(cfg, blocks, b) == blocks[b].start,
{
}

/// The bytes that are reported add up.
pub proof fn reported_bytes_add_up(j: Seq<JunkNode>, k: int)
    requires
        0 <= k < j.len(),
    ensures
        bytes_of(j, 0) == 0,
        bytes_of(j, k + 1) == bytes_of(j, k) + j[k].len,
{
}

} // verus!
