//! The micro-operation language that instructions are lifted to.

use vstd::prelude::*;

use crate::bits::{cut_i64, low_i64};
use crate::sorted::NameSet;
use crate::text::same;
use crate::va::Va;

verus! {

broadcast use {vstd::set::group_set_axioms, vstd::std_specs::vec::group_vec_axioms};

/// A width in bits.
pub type Bits = u32;

/// The variable that stands for the flags.
pub const FLAGS_VAR: &'static str = "flags";

/// The variable that an indirect jump takes its address from.
pub const JUMP_TARGET_VAR: &'static str = "jump_target";

/// The unknown that a call leaves in a register it may destroy.
pub const CALL_CLOBBER: &'static str = "call_clobber";

#[derive(Clone, Copy, Debug, PartialEq, Eq, Structural)]
pub enum BinOp {
    Add,
    Sub,
    Mul,
    UDiv,
    SDiv,
    UMod,
    SMod,
    And,
    Or,
    Xor,
    Shl,
    Shr,
    Sar,
    Eq,
    Ne,
    Ult,
    Ule,
    Ugt,
    Uge,
    Slt,
    Sle,
    Sgt,
    Sge,
}

#[derive(Clone, Copy, Debug, PartialEq, Eq, Structural)]
pub enum UnOp {
    Neg,
    Not,
}

/// Which instruction a flags value came from.
#[derive(Clone, Copy, Debug, PartialEq, Eq, Structural)]
pub enum CmpKind {
    Cmp,
    Test,
    Result,
    LogicalResult,
}

/// Whom a call goes to.
#[derive(Debug, PartialEq, Eq)]
pub enum CallTarget {
    Direct { va: Va },
    Indirect(Box<MicroExpr>),
    Intrinsic(String),
}

/// A value.
#[derive(Debug, PartialEq, Eq)]
pub enum MicroExpr {
    Var(String),
    Const { value: i128, bits: Bits },
    Load { addr: Box<MicroExpr>, bits: Bits, signed: bool },
    Unary(UnOp, Box<MicroExpr>),
    Binary(BinOp, Box<MicroExpr>, Box<MicroExpr>),
    Cast { signed: bool, bits: Bits, expr: Box<MicroExpr> },
    AddrOf(Box<MicroExpr>),
    Compare { kind: CmpKind, lhs: Box<MicroExpr>, rhs: Box<MicroExpr> },
    OpaqueFlags { mnemonic: String },
    Call { target: CallTarget, args: Vec<MicroExpr> },
    Select { cond: Box<MicroExpr>, a: Box<MicroExpr>, b: Box<MicroExpr> },
    Unknown(String),
}

/// A statement.
#[derive(Debug, PartialEq, Eq)]
pub enum MicroStmt {
    Assign { dst: String, value: MicroExpr },
    Store { addr: MicroExpr, value: MicroExpr, bits: Bits },
    Call { target: CallTarget, args: Vec<MicroExpr>, ret: Option<String> },
    Return(Option<MicroExpr>),
    Nop,
    Unlifted { va: Va, text: String },
}

// ---------------------------------------------------------------------------
// The variables an expression reads
// ---------------------------------------------------------------------------

/// The names of the variables that `e` mentions.
pub open spec fn vars_of(e: MicroExpr) -> Set<Seq<char>>
    decreases e, 0nat,
{
    match e {
        MicroExpr::Var(n) => Set::<Seq<char>>::empty().insert(n@),
        MicroExpr::Load { addr, .. } => vars_of(*addr),
        MicroExpr::Unary(_, v) => vars_of(*v),
        MicroExpr::Binary(_, l, r) => vars_of(*l).union(vars_of(*r)),
        MicroExpr::Cast { expr, .. } => vars_of(*expr),
        MicroExpr::AddrOf(inner) => vars_of(*inner),
        MicroExpr::Select { cond, a, b } => vars_of(*cond).union(vars_of(*a)).union(vars_of(*b)),
        MicroExpr::Compare { lhs, rhs, .. } => vars_of(*lhs).union(vars_of(*rhs)),
        MicroExpr::Call { target, args } => target_vars(target).union(list_vars(args, args@.len())),
        _ => Set::empty(),
    }
}

/// The names that a call target mentions.
pub open spec fn target_vars(t: CallTarget) -> Set<Seq<char>>
    decreases t, 0nat,
{
    match t {
        CallTarget::Indirect(e) => vars_of(*e),
        _ => Set::empty(),
    }
}

/// The names that the first `k` arguments mention.
pub open spec fn list_vars(args: Vec<MicroExpr>, k: nat) -> Set<Seq<char>>
    decreases args, k,
{
    if k == 0 || k > args@.len() {
        Set::empty()
    } else {
        list_vars(args, (k - 1) as nat).union(vars_of(args[k - 1]))
    }
}

/// Adds the variables that `e` mentions to `out`.
pub fn expr_vars(e: &MicroExpr, out: &mut NameSet)
    requires
        old(out).wf(),
    ensures
        final(out).wf(),
        final(out).set() == old(out).set().union(vars_of(*e)),
    decreases *e, 0nat,
{
    match e {
        MicroExpr::Var(n) => {
            out.insert(n.clone());
            assert(out.set() =~= old(out).set().union(vars_of(*e)));
        },
        MicroExpr::Load { addr, .. } => expr_vars(addr, out),
        MicroExpr::Unary(_, v) => expr_vars(v, out),
        MicroExpr::Binary(_, l, r) => {
            expr_vars(l, out);
            expr_vars(r, out);
            assert(out.set() =~= old(out).set().union(vars_of(*e)));
        },
        MicroExpr::Cast { expr, .. } => expr_vars(expr, out),
        MicroExpr::AddrOf(inner) => expr_vars(inner, out),
        MicroExpr::Select { cond, a, b } => {
            expr_vars(cond, out);
            expr_vars(a, out);
            expr_vars(b, out);
            assert(out.set() =~= old(out).set().union(vars_of(*e)));
        },
        MicroExpr::Compare { lhs, rhs, .. } => {
            expr_vars(lhs, out);
            expr_vars(rhs, out);
            assert(out.set() =~= old(out).set().union(vars_of(*e)));
        },
        MicroExpr::Call { target, args } => {
            call_target_vars(target, out);
            call_args_vars(args, args.len(), out);
            assert(out.set() =~= old(out).set().union(vars_of(*e)));
        },
        MicroExpr::Const { .. } | MicroExpr::OpaqueFlags { .. } | MicroExpr::Unknown(_) => {
            assert(out.set() =~= old(out).set().union(vars_of(*e)));
        },
    }
}

/// Adds the variables that a call target mentions to `out`.
pub fn call_target_vars(t: &CallTarget, out: &mut NameSet)
    requires
        old(out).wf(),
    ensures
        final(out).wf(),
        final(out).set() == old(out).set().union(target_vars(*t)),
    decreases *t, 0nat,
{
    match t {
        CallTarget::Indirect(e) => expr_vars(e, out),
        _ => {
            assert(out.set() =~= old(out).set().union(target_vars(*t)));
        },
    }
}

/// Adds the variables that the first `k` arguments mention to `out`.
pub fn call_args_vars(args: &Vec<MicroExpr>, k: usize, out: &mut NameSet)
    requires
        old(out).wf(),
        k <= args@.len(),
    ensures
        final(out).wf(),
        final(out).set() == old(out).set().union(list_vars(*args, k as nat)),
    decreases *args, k as nat,
{
    if k > 0 {
        call_args_vars(args, k - 1, out);
        expr_vars(&args[k - 1], out);
    }
    assert(out.set() =~= old(out).set().union(list_vars(*args, k as nat)));
}

// ---------------------------------------------------------------------------
// Equality
// ---------------------------------------------------------------------------

/// The expressions say the same.
pub open spec fn alike(a: MicroExpr, b: MicroExpr) -> bool
    decreases a, 0nat,
{
    match (a, b) {
        (MicroExpr::Var(x), MicroExpr::Var(y)) => x@ == y@,
        (MicroExpr::Const { value: v, bits: n }, MicroExpr::Const { value: w, bits: m }) => v == w && n == m,
        (
            MicroExpr::Load { addr: x, bits: n, signed: s },
            MicroExpr::Load { addr: y, bits: m, signed: t },
        ) => n == m && s == t && alike(*x, *y),
        (MicroExpr::Unary(o, x), MicroExpr::Unary(p, y)) => o == p && alike(*x, *y),
        (MicroExpr::Binary(o, x, u), MicroExpr::Binary(p, y, v)) => o == p && alike(*x, *y) && alike(*u, *v),
        (
            MicroExpr::Cast { signed: s, bits: n, expr: x },
            MicroExpr::Cast { signed: t, bits: m, expr: y },
        ) => n == m && s == t && alike(*x, *y),
        (MicroExpr::AddrOf(x), MicroExpr::AddrOf(y)) => alike(*x, *y),
        (
            MicroExpr::Compare { kind: k, lhs: x, rhs: u },
            MicroExpr::Compare { kind: l, lhs: y, rhs: v },
        ) => k == l && alike(*x, *y) && alike(*u, *v),
        (MicroExpr::OpaqueFlags { mnemonic: x }, MicroExpr::OpaqueFlags { mnemonic: y }) => x@ == y@,
        (
            MicroExpr::Call { target: t, args: x },
            MicroExpr::Call { target: u, args: y },
        ) => targets_alike(t, u) && x@.len() == y@.len() && lists_alike(x, y, x@.len()),
        (
            MicroExpr::Select { cond: c, a: x, b: u },
            MicroExpr::Select { cond: d, a: y, b: v },
        ) => alike(*c, *d) && alike(*x, *y) && alike(*u, *v),
        (MicroExpr::Unknown(x), MicroExpr::Unknown(y)) => x@ == y@,
        _ => false,
    }
}

/// The calls go to the same.
pub open spec fn targets_alike(a: CallTarget, b: CallTarget) -> bool
    decreases a, 0nat,
{
    match (a, b) {
        (CallTarget::Direct { va: x }, CallTarget::Direct { va: y }) => x == y,
        (CallTarget::Indirect(x), CallTarget::Indirect(y)) => alike(*x, *y),
        (CallTarget::Intrinsic(x), CallTarget::Intrinsic(y)) => x@ == y@,
        _ => false,
    }
}

/// The first `k` arguments say the same.
pub open spec fn lists_alike(a: Vec<MicroExpr>, b: Vec<MicroExpr>, k: nat) -> bool
    decreases a, k,
{
    if k == 0 || k > a@.len() {
        true
    } else {
        lists_alike(a, b, (k - 1) as nat) && alike(a[k - 1], b@[k - 1])
    }
}

/// Do the expressions say the same?
pub fn same_expr(a: &MicroExpr, b: &MicroExpr) -> (r: bool)
    ensures
        r == alike(*a, *b),
    decreases *a, 0nat,
{
    match (a, b) {
        (MicroExpr::Var(x), MicroExpr::Var(y)) => same(x.as_str(), y.as_str()),
        (MicroExpr::Const { value: v, bits: n }, MicroExpr::Const { value: w, bits: m }) => *v == *w && *n == *m,
        (MicroExpr::Load { addr: x, bits: n, signed: s }, MicroExpr::Load { addr: y, bits: m, signed: t }) => *n == *m
            && *s == *t && same_expr(x, y),
        (MicroExpr::Unary(o, x), MicroExpr::Unary(p, y)) => *o == *p && same_expr(x, y),
        (MicroExpr::Binary(o, x, u), MicroExpr::Binary(p, y, v)) => *o == *p && same_expr(x, y) && same_expr(u, v),
        (MicroExpr::Cast { signed: s, bits: n, expr: x }, MicroExpr::Cast { signed: t, bits: m, expr: y }) => *n == *m
            && *s == *t && same_expr(x, y),
        (MicroExpr::AddrOf(x), MicroExpr::AddrOf(y)) => same_expr(x, y),
        (MicroExpr::Compare { kind: k, lhs: x, rhs: u }, MicroExpr::Compare { kind: l, lhs: y, rhs: v }) => *k == *l
            && same_expr(x, y) && same_expr(u, v),
        (MicroExpr::OpaqueFlags { mnemonic: x }, MicroExpr::OpaqueFlags { mnemonic: y }) => same(
            x.as_str(),
            y.as_str(),
        ),
        (MicroExpr::Call { target: t, args: x }, MicroExpr::Call { target: u, args: y }) => same_target(t, u)
            && x.len() == y.len() && same_args(x, y, x.len()),
        (MicroExpr::Select { cond: c, a: x, b: u }, MicroExpr::Select { cond: d, a: y, b: v }) => same_expr(c, d)
            && same_expr(x, y) && same_expr(u, v),
        (MicroExpr::Unknown(x), MicroExpr::Unknown(y)) => same(x.as_str(), y.as_str()),
        _ => false,
    }
}

fn same_target(a: &CallTarget, b: &CallTarget) -> (r: bool)
    ensures
        r == targets_alike(*a, *b),
    decreases *a, 0nat,
{
    match (a, b) {
        (CallTarget::Direct { va: x }, CallTarget::Direct { va: y }) => *x == *y,
        (CallTarget::Indirect(x), CallTarget::Indirect(y)) => same_expr(x, y),
        (CallTarget::Intrinsic(x), CallTarget::Intrinsic(y)) => same(x.as_str(), y.as_str()),
        _ => false,
    }
}

fn same_args(a: &Vec<MicroExpr>, b: &Vec<MicroExpr>, k: usize) -> (r: bool)
    requires
        k <= a@.len(),
        k <= b@.len(),
    ensures
        r == lists_alike(*a, *b, k as nat),
    decreases *a, k as nat,
{
    if k == 0 {
        true
    } else {
        same_args(a, b, k - 1) && same_expr(&a[k - 1], &b[k - 1])
    }
}

/// An expression without the casts around it, of which at most `k` are taken
/// off: a cast stores the same object.
pub open spec fn peeled(e: MicroExpr, k: nat) -> MicroExpr
    decreases k,
{
    if k == 0 {
        e
    } else {
        match e {
            MicroExpr::Cast { expr, .. } => peeled(*expr, (k - 1) as nat),
            _ => e,
        }
    }
}

/// How many casts are taken off, and how many copies are followed.
pub const MAX_COPY_DEPTH: usize = 16;

/// Takes casts off an expression.
pub fn peel(e: &MicroExpr) -> (r: &MicroExpr)
    ensures
        *r == peeled(*e, MAX_COPY_DEPTH as nat),
{
    let mut cur: &MicroExpr = e;
    let mut k: usize = MAX_COPY_DEPTH;
    while k > 0
        invariant
            k <= MAX_COPY_DEPTH,
            peeled(*cur, k as nat) == peeled(*e, MAX_COPY_DEPTH as nat),
        decreases k,
    {
        match cur {
            MicroExpr::Cast { expr, .. } => {
                cur = expr;
            },
            _ => {
                return cur;
            },
        }
        k = k - 1;
    }
    cur
}

/// A variable and a constant distance from it, in either order.
pub open spec fn var_plus(l: MicroExpr, r: MicroExpr) -> Option<(Seq<char>, i64)> {
    match (l, r) {
        (MicroExpr::Var(n), MicroExpr::Const { value, .. }) => Some((n@, low_i64(value as int))),
        (MicroExpr::Const { value, .. }, MicroExpr::Var(n)) => Some((n@, low_i64(value as int))),
        _ => None,
    }
}

/// Reads a variable and a constant distance from it, in either order.
pub fn as_var_plus<'a>(l: &'a MicroExpr, r: &'a MicroExpr) -> (out: Option<(&'a String, i64)>)
    ensures
        match (out, var_plus(*l, *r)) {
            (Some((n, o)), Some((m, p))) => n@ == m && o == p,
            (None, None) => true,
            _ => false,
        },
{
    match (l, r) {
        (MicroExpr::Var(n), MicroExpr::Const { value, .. }) => Some((n, cut_i64(*value))),
        (MicroExpr::Const { value, .. }, MicroExpr::Var(n)) => Some((n, cut_i64(*value))),
        _ => None,
    }
}

/// A variable less a constant distance. The one number without a counterpart is no
/// distance.
pub open spec fn var_minus(l: MicroExpr, r: MicroExpr) -> Option<(Seq<char>, i64)> {
    match (l, r) {
        (MicroExpr::Var(n), MicroExpr::Const { value, .. }) => if value > i128::MIN {
            Some((n@, low_i64(-value)))
        } else {
            None
        },
        _ => None,
    }
}

/// Reads a variable less a constant distance.
pub fn as_var_minus<'a>(l: &'a MicroExpr, r: &'a MicroExpr) -> (out: Option<(&'a String, i64)>)
    ensures
        match (out, var_minus(*l, *r)) {
            (Some((n, o)), Some((m, p))) => n@ == m && o == p,
            (None, None) => true,
            _ => false,
        },
{
    match (l, r) {
        (MicroExpr::Var(n), MicroExpr::Const { value, .. }) => {
            if *value > i128::MIN {
                Some((n, cut_i64(-*value)))
            } else {
                None
            }
        },
        _ => None,
    }
}

// ---------------------------------------------------------------------------
// What the operations on expressions do
// ---------------------------------------------------------------------------

/// One expression is a direct part of another: an operand, what is loaded from or taken
/// the address of, or something that a call is made to or with.
pub open spec fn part_of(x: MicroExpr, e: MicroExpr) -> bool {
    match e {
        MicroExpr::Load { addr, .. } => x == *addr,
        MicroExpr::Unary(_, v) => x == *v,
        MicroExpr::Binary(_, l, r) => x == *l || x == *r,
        MicroExpr::Cast { expr, .. } => x == *expr,
        MicroExpr::AddrOf(inner) => x == *inner,
        MicroExpr::Compare { lhs, rhs, .. } => x == *lhs || x == *rhs,
        MicroExpr::Select { cond, a, b } => x == *cond || x == *a || x == *b,
        MicroExpr::Call { target, args } => args@.contains(x) || match target {
            CallTarget::Indirect(t) => x == *t,
            _ => false,
        },
        _ => false,
    }
}

/// The expressions lead from the first down to the last, each a part of the one before.
pub open spec fn leads_down(path: Seq<MicroExpr>) -> bool {
    &&& path.len() > 0
    &&& forall|i: int| 0 < i < path.len() ==> part_of(#[trigger] path[i], path[i - 1])
}

/// Every variable that occurs in an expression is found, at any depth and also in the
/// address of a load.
pub proof fn variables_are_found_at_any_depth(path: Seq<MicroExpr>, n: String)
    requires
        leads_down(path),
        path.last() == MicroExpr::Var(n),
    ensures
        vars_of(path[0]).contains(n@),
    decreases path.len(),
{
    if path.len() > 1 {
        let rest = path.skip(1);
        assert forall|i: int| 0 < i < rest.len() implies part_of(#[trigger] rest[i], rest[i - 1]) by {
            assert(part_of(path[i + 1], path[i + 1 - 1]));
        }
        assert(rest.last() == path.last());
        variables_are_found_at_any_depth(rest, n);
        lemma_part_found(path[1], path[0], n@);
    }
}

proof fn lemma_part_found(x: MicroExpr, e: MicroExpr, v: Seq<char>)
    requires
        part_of(x, e),
        vars_of(x).contains(v),
    ensures
        vars_of(e).contains(v),
{
    match e {
        MicroExpr::Call { target, args } => {
            if args@.contains(x) {
                let i = choose|i: int| 0 <= i < args@.len() && args@[i] == x;
                lemma_list_found(args, args@.len(), i, v);
            } else {
                match target {
                    CallTarget::Indirect(t) => {
                        assert(target_vars(target) == vars_of(*t));
                    },
                    _ => {},
                }
            }
        },
        _ => {},
    }
}

proof fn lemma_list_found(args: Vec<MicroExpr>, k: nat, i: int, v: Seq<char>)
    requires
        0 <= i < k <= args@.len(),
        vars_of(args@[i]).contains(v),
    ensures
        list_vars(args, k).contains(v),
    decreases k,
{
    if i < k - 1 {
        lemma_list_found(args, (k - 1) as nat, i, v);
    }
}

/// Nothing is found but the variables of the parts: a variable has itself, and an
/// expression that is none only what its parts have.
pub proof fn only_variables_of_parts_are_found(e: MicroExpr, v: Seq<char>)
    requires
        vars_of(e).contains(v),
    ensures
        e matches MicroExpr::Var(n) ==> n@ == v,
        !(e is Var) ==> exists|x: MicroExpr| #[trigger] part_of(x, e) && vars_of(x).contains(v),
{
    match e {
        MicroExpr::Load { addr, .. } => {
            assert(part_of(*addr, e));
        },
        MicroExpr::Unary(_, x) => {
            assert(part_of(*x, e));
        },
        MicroExpr::Binary(_, l, r) => {
            assert(part_of(*l, e) && part_of(*r, e));
        },
        MicroExpr::Cast { expr, .. } => {
            assert(part_of(*expr, e));
        },
        MicroExpr::AddrOf(inner) => {
            assert(part_of(*inner, e));
        },
        MicroExpr::Compare { lhs, rhs, .. } => {
            assert(part_of(*lhs, e) && part_of(*rhs, e));
        },
        MicroExpr::Select { cond, a, b } => {
            assert(part_of(*cond, e) && part_of(*a, e) && part_of(*b, e));
        },
        MicroExpr::Call { target, args } => {
            if target_vars(target).contains(v) {
                match target {
                    CallTarget::Indirect(t) => {
                        assert(part_of(*t, e));
                    },
                    _ => {},
                }
            } else {
                let i = lemma_list_some(args, args@.len(), v);
                assert(args@.contains(args@[i]));
                assert(part_of(args@[i], e));
            }
        },
        _ => {},
    }
}

proof fn lemma_list_some(args: Vec<MicroExpr>, k: nat, v: Seq<char>) -> (i: int)
    requires
        list_vars(args, k).contains(v),
        k <= args@.len(),
    ensures
        0 <= i < args@.len(),
        vars_of(args@[i]).contains(v),
    decreases k,
{
    if list_vars(args, (k - 1) as nat).contains(v) {
        lemma_list_some(args, (k - 1) as nat, v)
    } else {
        k - 1
    }
}

/// An expression says the same as itself.
pub proof fn expressions_are_like_themselves(e: MicroExpr)
    ensures
        alike(e, e),
    decreases e, 0nat,
{
    match e {
        MicroExpr::Load { addr, .. } => expressions_are_like_themselves(*addr),
        MicroExpr::Unary(_, x) => expressions_are_like_themselves(*x),
        MicroExpr::Binary(_, l, r) => {
            expressions_are_like_themselves(*l);
            expressions_are_like_themselves(*r);
        },
        MicroExpr::Cast { expr, .. } => expressions_are_like_themselves(*expr),
        MicroExpr::AddrOf(inner) => expressions_are_like_themselves(*inner),
        MicroExpr::Compare { lhs, rhs, .. } => {
            expressions_are_like_themselves(*lhs);
            expressions_are_like_themselves(*rhs);
        },
        MicroExpr::Select { cond, a, b } => {
            expressions_are_like_themselves(*cond);
            expressions_are_like_themselves(*a);
            expressions_are_like_themselves(*b);
        },
        MicroExpr::Call { target, args } => {
            match target {
                CallTarget::Indirect(t) => {
                    expressions_are_like_themselves(*t);
                },
                _ => {},
            }
            assert(targets_alike(target, target));
            lemma_list_itself(args, args@.len());
        },
        _ => {},
    }
}

proof fn lemma_list_itself(args: Vec<MicroExpr>, k: nat)
    requires
        k <= args@.len(),
    ensures
        lists_alike(args, args, k),
    decreases args, k,
{
    if k > 0 {
        lemma_list_itself(args, (k - 1) as nat);
        expressions_are_like_themselves(args[k - 1]);
    }
}

/// Expressions that say the same are of the same kind, with the same operation, width and
/// sign, and their parts say the same in the same order.
pub proof fn alike_expressions_have_alike_parts(a: MicroExpr, b: MicroExpr)
    requires
        alike(a, b),
    ensures
        a matches MicroExpr::Var(x) ==> (b matches MicroExpr::Var(y) && x@ == y@),
        a matches MicroExpr::Const { value: v, bits: n } ==> b == (MicroExpr::Const { value: v, bits: n }),
        a matches MicroExpr::Load { addr: x, bits: n, signed: s } ==> (b matches MicroExpr::Load {
            addr: y,
            bits: m,
            signed: t,
        } && n == m && s == t && alike(*x, *y)),
        a matches MicroExpr::Unary(o, x) ==> (b matches MicroExpr::Unary(p, y) && o == p && alike(*x, *y)),
        a matches MicroExpr::Binary(o, x, u) ==> (b matches MicroExpr::Binary(p, y, v) && o == p && alike(*x, *y) && alike(
            *u,
            *v,
        )),
        a matches MicroExpr::Cast { signed: s, bits: n, expr: x } ==> (b matches MicroExpr::Cast {
            signed: t,
            bits: m,
            expr: y,
        } && n == m && s == t && alike(*x, *y)),
        a matches MicroExpr::AddrOf(x) ==> (b matches MicroExpr::AddrOf(y) && alike(*x, *y)),
        a matches MicroExpr::Compare { kind: k, lhs: x, rhs: u } ==> (b matches MicroExpr::Compare {
            kind: l,
            lhs: y,
            rhs: v,
        } && k == l && alike(*x, *y) && alike(*u, *v)),
        a matches MicroExpr::Select { cond: c, a: x, b: u } ==> (b matches MicroExpr::Select { cond: d, a: y, b: v }
            && alike(*c, *d) && alike(*x, *y) && alike(*u, *v)),
        a matches MicroExpr::Call { target: t, args: x } ==> (b matches MicroExpr::Call { target: u, args: y } && x@.len()
            == y@.len() && (t matches CallTarget::Direct { va: p } ==> (u matches CallTarget::Direct { va: q } && p == q))
            && (t matches CallTarget::Indirect(p) ==> (u matches CallTarget::Indirect(q) && alike(*p, *q))) && (t matches
        CallTarget::Intrinsic(p) ==> (u matches CallTarget::Intrinsic(q) && p@ == q@)) && (forall|i: int|
            0 <= i < x@.len() ==> alike(#[trigger] x@[i], y@[i]))),
        a matches MicroExpr::OpaqueFlags { mnemonic: x } ==> (b matches MicroExpr::OpaqueFlags { mnemonic: y } && x@ == y@),
        a matches MicroExpr::Unknown(x) ==> (b matches MicroExpr::Unknown(y) && x@ == y@),
{
    match (a, b) {
        (MicroExpr::Call { target: t, args: x }, MicroExpr::Call { target: u, args: y }) => {
            assert(targets_alike(t, u));
            assert forall|i: int| 0 <= i < x@.len() implies alike(#[trigger] x@[i], y@[i]) by {
                lemma_list_parts(x, y, x@.len(), i);
            }
        },
        _ => {},
    }
}

proof fn lemma_list_parts(x: Vec<MicroExpr>, y: Vec<MicroExpr>, k: nat, i: int)
    requires
        lists_alike(x, y, k),
        0 <= i < k <= x@.len(),
    ensures
        alike(x@[i], y@[i]),
    decreases k,
{
    if i < k - 1 {
        lemma_list_parts(x, y, (k - 1) as nat, i);
    }
}

/// The casts around an expression come off, and nothing else does.
pub proof fn casts_come_off(e: MicroExpr, signed: bool, bits: Bits, k: nat)
    ensures
        k > 0 ==> peeled(MicroExpr::Cast { signed, bits, expr: Box::new(e) }, k) == peeled(e, (k - 1) as nat),
        !(e is Cast) ==> peeled(e, k) == e,
{
}

/// A sum of a variable and a constant is that distance from the variable, whichever comes
/// first; a difference is the distance downwards, and only with the variable first.
pub proof fn distances_have_a_direction(n: String, value: i128, bits: Bits)
    requires
        i64::MIN < value <= i64::MAX,
    ensures
        var_plus(MicroExpr::Var(n), MicroExpr::Const { value, bits }) == Some((n@, value as i64)),
        var_plus(MicroExpr::Const { value, bits }, MicroExpr::Var(n)) == Some((n@, value as i64)),
        var_minus(MicroExpr::Var(n), MicroExpr::Const { value, bits }) == Some((n@, (-value) as i64)),
        var_minus(MicroExpr::Const { value, bits }, MicroExpr::Var(n)) is None,
        var_plus(MicroExpr::Var(n), MicroExpr::Var(n)) is None,
{
    crate::bits::low_parts_agree_with_the_number(value as int);
    crate::bits::low_parts_agree_with_the_number(-value);
}

} // verus!
