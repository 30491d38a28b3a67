//! Virtual calls, resolved to the methods that they reach.
//!
//! A virtual call joins three facts: the class of the object, the table of that
//! class, and the slot that the call reads. A wrong callee is far worse than an
//! unresolved one, so a class with several tables is passed over, a slot must
//! lie before the next table, and what it holds must be code.

use vstd::prelude::*;
use vstd::string::{StrSliceExecFns, StringExecFns};

use crate::bytes::{le, le64};
use crate::ctx::{text_of, Ctx};
use crate::micro::{as_var_minus, as_var_plus, var_minus, var_plus, BinOp, CallTarget, MicroExpr, MicroStmt};
use crate::sorted::{NameMap, SortedMap};
use crate::source::{sat_add, Snapshot};
use crate::ssa::{ParamInfo, SsaBlock, SsaStmt, TypeArtifact};
use crate::symbols::SymbolTable;
use crate::text::{
    chars_of, dec, decimal, is_digit, is_space, is_whitespace, same, skip_space, skip_space_back, starts, starts_with,
    trim_end, trim_start,
};
use crate::va::Va;

verus! {

/// A virtual call that was resolved.
#[derive(Clone, Debug, PartialEq, Eq)]
pub struct Devirtualized {
    /// The class of the object.
    pub class: String,
    /// The offset of the slot in the class's table.
    pub slot: u64,
    pub method: Va,
    /// The name of the dispatch: that of the symbol where it names a method of
    /// the class, and else the class and the number of the slot.
    pub name: String,
    /// The symbol at the method, where it names something else.
    pub implementation: Option<String>,
}

/// A resolved call, by contents.
pub ghost struct Resolved {
    pub class: Seq<char>,
    pub slot: u64,
    pub method: Va,
    pub name: Seq<char>,
    pub implementation: Option<Seq<char>>,
}

pub open spec fn resolved_node(d: Devirtualized) -> Resolved {
    Resolved {
        class: d.class@,
        slot: d.slot,
        method: d.method,
        name: d.name@,
        implementation: text_of(d.implementation),
    }
}

// ---------------------------------------------------------------------------
// Classes
// ---------------------------------------------------------------------------

/// A text without the stars and the white space at its end.
pub open spec fn without_stars(t: Seq<char>) -> Seq<char>
    decreases t.len(),
{
    if t.len() > 0 && (t.last() == '*' || is_space(t.last())) {
        without_stars(t.drop_last())
    } else {
        t
    }
}

/// A type's name without the stars at its end and the white space around it.
pub open spec fn pointee(t: Seq<char>) -> Seq<char> {
    trim_start(without_stars(t))
}

/// Cuts the stars off a type's name.
pub fn pointee_of(t: &str) -> (r: &str)
    ensures
        r@ == pointee(t@),
{
    let v = chars_of(t);
    let mut n: usize = v.len();
    assert(v@.take(n as int) =~= v@);
    while n > 0 && (v[n - 1] == '*' || is_whitespace(v[n - 1]))
        invariant
            n <= v@.len(),
            without_stars(v@) == without_stars(v@.take(n as int)),
        decreases n,
    {
        assert(v@.take(n as int).drop_last() =~= v@.take(n - 1));
        n = n - 1;
    }
    let a: usize = skip_space(&v, 0, n);
    assert(v@.subrange(0, n as int) =~= v@.take(n as int));
    t.substring_char(a, n)
}

/// All characters from index `a` up to `b` are digits.
pub open spec fn digits_between(s: Seq<char>, a: int, b: int) -> bool {
    forall|i: int| a <= i < b ==> is_digit(#[trigger] s[i])
}

/// The name of an integer type of some width, such as `uint64_t`.
pub open spec fn width_type(t: Seq<char>) -> bool {
    let s = if t.len() > 0 && t[0] == 'u' {
        t.skip(1)
    } else {
        t
    };
    &&& s.len() > 5
    &&& s[0] == 'i' && s[1] == 'n' && s[2] == 't'
    &&& digits_between(s, 3, s.len() - 2)
    &&& s[s.len() - 2] == '_' && s[s.len() - 1] == 't'
}

fn is_width_type(t: &str) -> (r: bool)
    ensures
        r == width_type(t@),
{
    let v = chars_of(t);
    let k: usize = if v.len() > 0 && v[0] == 'u' {
        1
    } else {
        0
    };
    let ghost s = if t@.len() > 0 && t@[0] == 'u' {
        t@.skip(1)
    } else {
        t@
    };
    assert(s =~= t@.skip(k as int));
    let n: usize = v.len();
    if n - k <= 5 || v[k] != 'i' || v[k + 1] != 'n' || v[k + 2] != 't' || v[n - 2] != '_' || v[n - 1] != 't' {
        return false;
    }
    assert(s.len() == n - k && s[0] == 'i' && s[1] == 'n' && s[2] == 't');
    assert(s[s.len() - 2] == '_' && s[s.len() - 1] == 't');
    let mut i: usize = k + 3;
    while i < n - 2
        invariant
            k <= 1,
            n == v@.len(),
            n - k > 5,
            v@ == t@,
            s == t@.skip(k as int),
            width_type(t@) == digits_between(s, 3, s.len() - 2),
            k + 3 <= i <= n - 2,
            digits_between(s, 3, i - k),
        decreases n - i,
    {
        if !(v[i] >= '0' && v[i] <= '9') {
            assert(!is_digit(s[i - k]));
            return false;
        }
        i = i + 1;
    }
    true
}

/// The class that a type names, or a pointer to it. A synthetic structure, an
/// integer type of some width and `void` are no classes.
pub open spec fn class_in(t: Seq<char>) -> Option<Seq<char>> {
    let base = pointee(t);
    if base.len() == 0 || starts(base, "struct_"@) || base == "void"@ || width_type(base) {
        None
    } else {
        Some(base)
    }
}

/// The class that a type names, or a pointer to it.
pub fn class_of(ty: &str) -> (r: Option<&str>)
    ensures
        match (r, class_in(ty@)) {
            (Some(a), Some(b)) => a@ == b,
            (None, None) => true,
            _ => false,
        },
{
    let base = pointee_of(ty);
    if base.is_empty() || starts_with(base, "struct_") || same(base, "void") || is_width_type(base) {
        None
    } else {
        Some(base)
    }
}

/// The type is written as a pointer.
pub open spec fn is_pointer(t: Seq<char>) -> bool {
    let s = trim_end(t);
    s.len() > 0 && s.last() == '*'
}

fn names_pointer(t: &str) -> (r: bool)
    ensures
        r == is_pointer(t@),
{
    let v = chars_of(t);
    let n: usize = skip_space_back(&v, 0, v.len());
    assert(v@.subrange(0, v@.len() as int) =~= v@);
    n > 0 && v[n - 1] == '*'
}

// ---------------------------------------------------------------------------
// Definitions
// ---------------------------------------------------------------------------

/// How many definitions are followed.
pub const MAX_DEF_DEPTH: usize = 8;

/// What each variable is defined as.
pub type Defs<'a> = NameMap<&'a MicroExpr>;

/// The expression behind a variable, following at most `k` definitions.
pub open spec fn resolution(e: MicroExpr, defs: Map<Seq<char>, &MicroExpr>, k: nat) -> MicroExpr
    decreases k,
{
    if k == 0 {
        e
    } else {
        match e {
            MicroExpr::Var(n) => if defs.contains_key(n@) {
                resolution(*defs[n@], defs, (k - 1) as nat)
            } else {
                e
            },
            _ => e,
        }
    }
}

/// The expression behind a variable.
pub open spec fn resolved(e: MicroExpr, defs: Map<Seq<char>, &MicroExpr>) -> MicroExpr {
    resolution(e, defs, MAX_DEF_DEPTH as nat)
}

/// Follows a variable to the expression that defines it.
pub fn resolve<'a>(e: &'a MicroExpr, defs: &Defs<'a>) -> (r: &'a MicroExpr)
    requires
        defs.wf(),
    ensures
        *r == resolved(*e, defs.map()),
{
    let mut cur: &'a MicroExpr = e;
    let mut k: usize = MAX_DEF_DEPTH;
    while k > 0
        invariant
            defs.wf(),
            k <= MAX_DEF_DEPTH,
            resolution(*cur, defs.map(), k as nat) == resolved(*e, defs.map()),
        decreases k,
    {
        match cur {
            MicroExpr::Var(n) => match defs.get(n) {
                Some(next) => {
                    cur = *next;
                },
                None => {
                    return cur;
                },
            },
            _ => {
                return cur;
            },
        }
        k = k - 1;
    }
    cur
}

/// The object of a virtual call.
#[derive(Clone, Debug, PartialEq, Eq)]
pub enum Object<'a> {
    /// A variable that points to it.
    Var(&'a str),
    /// A field, of what `base` points to, that points to it.
    Field { base: &'a str, offset: i64 },
}

/// The object of a virtual call, by contents.
pub ghost enum ObjectAt {
    Var(Seq<char>),
    Field(Seq<char>, i64),
}

pub open spec fn object_at(o: Object) -> ObjectAt {
    match o {
        Object::Var(n) => ObjectAt::Var(n@),
        Object::Field { base, offset } => ObjectAt::Field(base@, offset),
    }
}

/// A variable and a constant distance from it to either side, behind definitions.
pub open spec fn base_of(e: MicroExpr, defs: Map<Seq<char>, &MicroExpr>) -> Option<(Seq<char>, i64)> {
    match resolved(e, defs) {
        MicroExpr::Var(n) => Some((n@, 0)),
        MicroExpr::Binary(BinOp::Add, l, r) => var_plus(resolved(*l, defs), resolved(*r, defs)),
        MicroExpr::Binary(BinOp::Sub, l, r) => var_minus(resolved(*l, defs), resolved(*r, defs)),
        _ => None,
    }
}

/// The base and slot of an address, behind definitions: a sum with a constant
/// that is no negative number, or all of it.
pub open spec fn slot_of(e: MicroExpr, defs: Map<Seq<char>, &MicroExpr>) -> Option<(MicroExpr, u64)> {
    match resolved(e, defs) {
        MicroExpr::Binary(BinOp::Add, l, r) => match (resolved(*l, defs), resolved(*r, defs)) {
            (inner, MicroExpr::Const { value, .. }) => if 0 <= value <= u64::MAX {
                Some((inner, value as u64))
            } else {
                None
            },
            (MicroExpr::Const { value, .. }, inner) => if 0 <= value <= u64::MAX {
                Some((inner, value as u64))
            } else {
                None
            },
            _ => None,
        },
        other => Some((other, 0)),
    }
}

/// The object and the slot of a virtual call: the slot is loaded from the table
/// whose address is loaded from the object.
pub open spec fn dispatch_of(e: MicroExpr, defs: Map<Seq<char>, &MicroExpr>) -> Option<(ObjectAt, u64)> {
    match resolved(e, defs) {
        MicroExpr::Load { addr, .. } => match slot_of(*addr, defs) {
            Some((MicroExpr::Load { addr: obj, .. }, off)) => match resolved(*obj, defs) {
                MicroExpr::Var(n) => Some((ObjectAt::Var(n@), off)),
                MicroExpr::Load { addr: field, .. } => match base_of(*field, defs) {
                    Some((b, o)) => Some((ObjectAt::Field(b, o), off)),
                    None => None,
                },
                _ => None,
            },
            _ => None,
        },
        _ => None,
    }
}

fn base_offset<'a>(e: &'a MicroExpr, defs: &Defs<'a>) -> (out: Option<(&'a String, i64)>)
    requires
        defs.wf(),
    ensures
        match (out, base_of(*e, defs.map())) {
            (Some((n, o)), Some((m, p))) => n@ == m && o == p,
            (None, None) => true,
            _ => false,
        },
{
    match resolve(e, defs) {
        MicroExpr::Var(n) => Some((n, 0)),
        MicroExpr::Binary(op, l, r) => match op {
            BinOp::Add => as_var_plus(resolve(l, defs), resolve(r, defs)),
            BinOp::Sub => as_var_minus(resolve(l, defs), resolve(r, defs)),
            _ => None,
        },
        _ => None,
    }
}

fn to_slot(v: i128) -> (r: Option<u64>)
    ensures
        r == if 0 <= v <= u64::MAX {
            Some(v as u64)
        } else {
            None
        },
{
    if v >= 0 && v <= u64::MAX as i128 {
        Some(v as u64)
    } else {
        None
    }
}

fn slot_offset<'a>(e: &'a MicroExpr, defs: &Defs<'a>) -> (out: Option<(&'a MicroExpr, u64)>)
    requires
        defs.wf(),
    ensures
        match (out, slot_of(*e, defs.map())) {
            (Some((n, o)), Some((m, p))) => *n == m && o == p,
            (None, None) => true,
            _ => false,
        },
{
    let at = resolve(e, defs);
    match at {
        MicroExpr::Binary(op, l, r) => match op {
            BinOp::Add => {
                let x = resolve(l, defs);
                let y = resolve(r, defs);
                match (x, y) {
                    (_, MicroExpr::Const { value, .. }) => match to_slot(*value) {
                        Some(s) => Some((x, s)),
                        None => None,
                    },
                    (MicroExpr::Const { value, .. }, _) => match to_slot(*value) {
                        Some(s) => Some((y, s)),
                        None => None,
                    },
                    _ => None,
                }
            },
            _ => Some((at, 0)),
        },
        _ => Some((at, 0)),
    }
}

/// Recognizes a virtual call by the address that it goes to, however many
/// assignments its parts are spread over.
pub fn as_vtable_dispatch<'a>(expr: &'a MicroExpr, defs: &Defs<'a>) -> (out: Option<(Object<'a>, u64)>)
    requires
        defs.wf(),
    ensures
        match (out, dispatch_of(*expr, defs.map())) {
            (Some((n, o)), Some((m, p))) => object_at(n) == m && o == p,
            (None, None) => true,
            _ => false,
        },
{
    let addr = match resolve(expr, defs) {
        MicroExpr::Load { addr, .. } => addr,
        _ => {
            return None;
        },
    };
    let (inner, off) = match slot_offset(addr, defs) {
        Some(p) => p,
        None => {
            return None;
        },
    };
    let obj = match inner {
        MicroExpr::Load { addr, .. } => addr,
        _ => {
            return None;
        },
    };
    match resolve(obj, defs) {
        MicroExpr::Var(n) => Some((Object::Var(n.as_str()), off)),
        MicroExpr::Load { addr, .. } => match base_offset(addr, defs) {
            Some((b, o)) => Some((Object::Field { base: b.as_str(), offset: o }, off)),
            None => None,
        },
        _ => None,
    }
}

// ---------------------------------------------------------------------------
// Tables
// ---------------------------------------------------------------------------

/// A table of virtual functions: its address and its exclusive end.
#[derive(Clone, Copy, Debug, PartialEq, Eq, Structural)]
pub struct TableSpan {
    pub start: u64,
    pub end: u64,
}

/// No other table has the class of the table at index `i`.
pub open spec fn only_one(names: Seq<String>, i: int) -> bool {
    forall|j: int| 0 <= j < names.len() && (#[trigger] names[j])@ == names[i]@ ==> j == i
}

/// The table at index `i` is the only one of its class, and another follows it.
pub open spec fn usable(names: Seq<String>, i: int) -> bool {
    0 <= i && i + 1 < names.len() && only_one(names, i)
}

/// Where the tables of classes lie, of those with one table that another
/// follows. Tables stand end to end, so one ends where the next starts.
pub open spec fn tables_of(vtables: SortedMap<u64, String>) -> Map<Seq<char>, TableSpan> {
    let names = vtables.vals@;
    Map::new(
        |c: Seq<char>| exists|i: int| #[trigger] usable(names, i) && names[i]@ == c,
        |c: Seq<char>|
            {
                let i = choose|i: int| #[trigger] usable(names, i) && names[i]@ == c;
                TableSpan { start: vtables.keys@[i], end: vtables.keys@[i + 1] }
            },
    )
}

fn is_only_one(names: &Vec<String>, i: usize) -> (r: bool)
    requires
        i < names@.len(),
    ensures
        r == only_one(names@, i as int),
{
    let mut j: usize = 0;
    while j < names.len()
        invariant
            i < names@.len(),
            j <= names@.len(),
            forall|k: int| 0 <= k < j && (#[trigger] names@[k])@ == names@[i as int]@ ==> k == i,
        decreases names@.len() - j,
    {
        if j != i && same(names[j].as_str(), names[i].as_str()) {
            return false;
        }
        j = j + 1;
    }
    true
}

/// Where the tables of classes lie. A class with several tables is left out,
/// for nothing tells the first from the others, and so is the last table, for
/// nothing says where it ends.
pub fn class_to_vtable(vtables: &SortedMap<u64, String>) -> (out: NameMap<TableSpan>)
    requires
        vtables.wf(),
    ensures
        out.wf(),
        out.map() == tables_of(*vtables),
{
    let mut out: NameMap<TableSpan> = SortedMap::new();
    let names = &vtables.vals;
    let mut i: usize = 0;
    while i < names.len()
        invariant
            vtables.wf(),
            names@ == vtables.vals@,
            i <= names@.len(),
            out.wf(),
            forall|c: Seq<char>| #[trigger]
                out.map().contains_key(c) <==> exists|k: int|
                    0 <= k < i && #[trigger] usable(names@, k) && names@[k]@ == c,
            forall|k: int|
                0 <= k < i && #[trigger] usable(names@, k) ==> out.map()[names@[k]@] == (TableSpan {
                    start: vtables.keys@[k],
                    end: vtables.keys@[k + 1],
                }),
        decreases names@.len() - i,
    {
        let ghost before = out.map();
        if names.len() - i >= 2 && is_only_one(names, i) {
            let span = TableSpan { start: vtables.keys[i], end: vtables.keys[i + 1] };
            out.insert(names[i].clone(), span);
            proof {
                assert(usable(names@, i as int));
                assert forall|c: Seq<char>| #[trigger]
                    out.map().contains_key(c) <==> exists|k: int|
                        0 <= k < i + 1 && #[trigger] usable(names@, k) && names@[k]@ == c by {
                    assert(before.contains_key(c) <==> exists|k: int|
                        0 <= k < i && #[trigger] usable(names@, k) && names@[k]@ == c);
                }
                assert forall|k: int| 0 <= k < i + 1 && #[trigger] usable(names@, k) implies out.map()[names@[k]@] == (
                TableSpan { start: vtables.keys@[k], end: vtables.keys@[k + 1] }) by {
                    if k < i {
                        assert(names@[k]@ != names@[i as int]@);
                    }
                }
            }
        } else {
            assert(!usable(names@, i as int));
        }
        i = i + 1;
    }
    proof {
        let want = tables_of(*vtables);
        assert forall|c: Seq<char>| #[trigger] want.contains_key(c) <==> out.map().contains_key(c) by {
            if want.contains_key(c) {
                let k = choose|k: int| #[trigger] usable(names@, k) && names@[k]@ == c;
                assert(0 <= k < i && usable(names@, k));
            }
            if out.map().contains_key(c) {
                let k = choose|k: int| 0 <= k < i && #[trigger] usable(names@, k) && names@[k]@ == c;
                assert(usable(names@, k));
            }
        }
        assert forall|c: Seq<char>| #[trigger] want.contains_key(c) implies out.map()[c] == want[c] by {
            let k = choose|k: int| #[trigger] usable(names@, k) && names@[k]@ == c;
            assert(usable(names@, k));
        }
        assert(out.map() =~= want);
    }
    out
}

// ---------------------------------------------------------------------------
// Resolving calls
// ---------------------------------------------------------------------------

/// The definitions that the first `k` statements add; a later one wins.
pub open spec fn stmt_defs<'a>(
    stmts: Seq<SsaStmt>,
    k: int,
    m: Map<Seq<char>, &'a MicroExpr>,
) -> Map<Seq<char>, &'a MicroExpr>
    decreases k,
{
    if k <= 0 {
        m
    } else {
        let done = stmt_defs(stmts, k - 1, m);
        match stmts[k - 1].stmt {
            MicroStmt::Assign { dst, value } => done.insert(dst@, &value),
            _ => done,
        }
    }
}

/// The definitions in the first `b` blocks.
pub open spec fn block_defs<'a>(blocks: Seq<SsaBlock>, b: int) -> Map<Seq<char>, &'a MicroExpr>
    decreases b,
{
    if b <= 0 {
        Map::empty()
    } else {
        stmt_defs(blocks[b - 1].stmts@, blocks[b - 1].stmts@.len() as int, block_defs(blocks, b - 1))
    }
}

/// The classes of the first `k` parameters, by the names with which their
/// registers enter the function.
pub open spec fn param_classes(params: Seq<ParamInfo>, k: int) -> Map<Seq<char>, Seq<char>>
    decreases k,
{
    if k <= 0 {
        Map::empty()
    } else {
        let done = param_classes(params, k - 1);
        match params[k - 1].ty.name {
            Some(t) => match class_in(t@) {
                Some(c) => done.insert(params[k - 1].reg@ + ".0"@, c),
                None => done,
            },
            None => done,
        }
    }
}

/// What a map of texts holds.
pub open spec fn texts(m: Map<Seq<char>, String>) -> Map<Seq<char>, Seq<char>> {
    Map::new(|k: Seq<char>| m.contains_key(k), |k: Seq<char>| m[k]@)
}

/// The class of an object. That of a field is known for the whole program, and
/// only a field that is a pointer leads to another object.
pub open spec fn object_class(
    ctx: Ctx,
    classes: Map<Seq<char>, Seq<char>>,
    o: ObjectAt,
) -> Option<Seq<char>> {
    match o {
        ObjectAt::Var(v) => if classes.contains_key(v) {
            Some(classes[v])
        } else {
            None
        },
        ObjectAt::Field(base, offset) => if classes.contains_key(base) {
            match ctx.layout {
                Some(l) => match l.type_of(classes[base], offset) {
                    Some(t) => if is_pointer(t) {
                        class_in(t)
                    } else {
                        None
                    },
                    None => None,
                },
                None => None,
            }
        } else {
            None
        },
    }
}

/// The method in a slot of a table. The slot lies before the next table, and
/// holds the address of code.
pub open spec fn method_in(src: Snapshot, span: TableSpan, slot: u64) -> Option<Va> {
    let addr = span.start + slot;
    if addr > u64::MAX || sat_add(addr as u64, 8) > span.end {
        None
    } else {
        match src.read_of(addr as u64, 8) {
            Some(b) => if b.len() == 8 && le(b, 0, 8) != 0 && src.is_code_at(le(b, 0, 8) as u64) {
                Some(Va(le(b, 0, 8) as u64))
            } else {
                None
            },
            None => None,
        }
    }
}

/// The name of the symbol that stands exactly at the address.
pub open spec fn name_exactly_at(symbols: Option<&SymbolTable>, va: Va) -> Option<Seq<char>> {
    match symbols {
        Some(t) => match t.at(va) {
            Some(s) => if s.va == va {
                Some(s.name@)
            } else {
                None
            },
            None => None,
        },
        None => None,
    }
}

/// How a call is reported that reaches `method` through a slot of a class. One
/// implementation may be shared by several classes under the name of one of
/// them, so a name of another class is kept beside the dispatch.
pub open spec fn named(class: Seq<char>, slot: u64, method: Va, symbol: Option<Seq<char>>) -> Resolved {
    let own = class + "::vf"@ + dec((slot / 8) as nat);
    match symbol {
        Some(s) => if starts(s, class + "::"@) {
            Resolved { class, slot, method, name: s, implementation: None }
        } else {
            Resolved { class, slot, method, name: own, implementation: Some(s) }
        },
        None => Resolved { class, slot, method, name: own, implementation: None },
    }
}

/// What a call target resolves to.
pub open spec fn target_of(
    ctx: Ctx,
    tables: Map<Seq<char>, TableSpan>,
    classes: Map<Seq<char>, Seq<char>>,
    defs: Map<Seq<char>, &MicroExpr>,
    t: CallTarget,
) -> Option<Resolved> {
    match t {
        CallTarget::Indirect(e) => match dispatch_of(*e, defs) {
            Some((o, slot)) => match object_class(ctx, classes, o) {
                Some(c) => if tables.contains_key(c) {
                    match method_in(*ctx.source, tables[c], slot) {
                        Some(m) => Some(named(c, slot, m, name_exactly_at(ctx.symbols, m))),
                        None => None,
                    }
                } else {
                    None
                },
                None => None,
            },
            None => None,
        },
        _ => None,
    }
}

/// Whom a statement calls, where it is a call or assigns the result of one.
pub open spec fn call_in(s: MicroStmt) -> Option<CallTarget> {
    match s {
        MicroStmt::Call { target, .. } => Some(target),
        MicroStmt::Assign { value: MicroExpr::Call { target, .. }, .. } => Some(target),
        _ => None,
    }
}

/// What the call in a statement resolves to.
pub open spec fn stmt_target(
    ctx: Ctx,
    tables: Map<Seq<char>, TableSpan>,
    classes: Map<Seq<char>, Seq<char>>,
    defs: Map<Seq<char>, &MicroExpr>,
    s: MicroStmt,
) -> Option<Resolved> {
    match call_in(s) {
        Some(t) => target_of(ctx, tables, classes, defs, t),
        None => None,
    }
}

/// The calls that the first `k` statements resolve.
pub open spec fn found_in(
    ctx: Ctx,
    tables: Map<Seq<char>, TableSpan>,
    classes: Map<Seq<char>, Seq<char>>,
    defs: Map<Seq<char>, &MicroExpr>,
    stmts: Seq<SsaStmt>,
    k: int,
) -> Seq<Resolved>
    decreases k,
{
    if k <= 0 {
        Seq::empty()
    } else {
        let done = found_in(ctx, tables, classes, defs, stmts, k - 1);
        match stmt_target(ctx, tables, classes, defs, stmts[k - 1].stmt) {
            Some(r) => done.push(r),
            None => done,
        }
    }
}

/// The calls that the first `b` blocks resolve.
pub open spec fn found(
    ctx: Ctx,
    tables: Map<Seq<char>, TableSpan>,
    classes: Map<Seq<char>, Seq<char>>,
    defs: Map<Seq<char>, &MicroExpr>,
    blocks: Seq<SsaBlock>,
    b: int,
) -> Seq<Resolved>
    decreases b,
{
    if b <= 0 {
        Seq::empty()
    } else {
        found(ctx, tables, classes, defs, blocks, b - 1) + found_in(
            ctx,
            tables,
            classes,
            defs,
            blocks[b - 1].stmts@,
            blocks[b - 1].stmts@.len() as int,
        )
    }
}

/// A statement whose call goes to `va`.
pub open spec fn calling(s: MicroStmt, va: Va) -> MicroStmt {
    match s {
        MicroStmt::Call { target, args, ret } => MicroStmt::Call { target: CallTarget::Direct { va }, args, ret },
        MicroStmt::Assign { dst, value: MicroExpr::Call { target, args } } => MicroStmt::Assign {
            dst,
            value: MicroExpr::Call { target: CallTarget::Direct { va }, args },
        },
        _ => s,
    }
}

/// A statement after its call has been resolved.
pub open spec fn rewritten(s: MicroStmt, r: Option<Resolved>) -> MicroStmt {
    match r {
        Some(d) => calling(s, d.method),
        None => s,
    }
}

/// The tables that the context knows.
pub open spec fn known_tables(ctx: Ctx) -> Map<Seq<char>, TableSpan> {
    match ctx.vtables {
        Some(v) => tables_of(*v),
        None => Map::empty(),
    }
}

/// The blocks are the same but for the statements.
pub open spec fn same_frame(a: SsaBlock, b: SsaBlock) -> bool {
    &&& a.id == b.id
    &&& a.start == b.start
    &&& a.end == b.end
    &&& a.terminator == b.terminator
    &&& a.successors == b.successors
    &&& a.phis == b.phis
    &&& a.condition == b.condition
    &&& a.stmts@.len() == b.stmts@.len()
}

fn collect_stmt_defs<'a>(stmts: &'a Vec<SsaStmt>, defs: &mut Defs<'a>)
    requires
        old(defs).wf(),
    ensures
        final(defs).wf(),
        final(defs).map() == stmt_defs(stmts@, stmts@.len() as int, old(defs).map()),
{
    let mut k: usize = 0;
    while k < stmts.len()
        invariant
            k <= stmts@.len(),
            defs.wf(),
            defs.map() == stmt_defs(stmts@, k as int, old(defs).map()),
        decreases stmts@.len() - k,
    {
        match &stmts[k].stmt {
            MicroStmt::Assign { dst, value } => {
                defs.insert(dst.clone(), value);
            },
            _ => {},
        }
        k = k + 1;
    }
}

/// What each variable of the blocks is defined as; a later definition wins.
pub fn collect_defs<'a>(blocks: &'a Vec<SsaBlock>) -> (defs: Defs<'a>)
    ensures
        defs.wf(),
        defs.map() == block_defs(blocks@, blocks@.len() as int),
{
    let mut defs: Defs<'a> = SortedMap::new();
    let mut b: usize = 0;
    while b < blocks.len()
        invariant
            b <= blocks@.len(),
            defs.wf(),
            defs.map() == block_defs(blocks@, b as int),
        decreases blocks@.len() - b,
    {
        collect_stmt_defs(&blocks[b].stmts, &mut defs);
        b = b + 1;
    }
    defs
}

/// The classes of the parameters, by the names with which their registers enter
/// the function.
pub fn collect_classes(params: &Vec<ParamInfo>) -> (out: NameMap<String>)
    ensures
        out.wf(),
        texts(out.map()) == param_classes(params@, params@.len() as int),
{
    let mut out: NameMap<String> = SortedMap::new();
    let mut k: usize = 0;
    assert(texts(out.map()) =~= Map::<Seq<char>, Seq<char>>::empty());
    while k < params.len()
        invariant
            k <= params@.len(),
            out.wf(),
            texts(out.map()) == param_classes(params@, k as int),
        decreases params@.len() - k,
    {
        let ghost before = out.map();
        match &params[k].ty.name {
            Some(t) => match class_of(t.as_str()) {
                Some(c) => {
                    let key = params[k].reg.clone().concat(".0");
                    let text = String::from_str(c);
                    out.insert(key, text);
                    assert(texts(out.map()) =~= texts(before).insert(params@[k as int].reg@ + ".0"@, c@));
                },
                None => {},
            },
            None => {},
        }
        k = k + 1;
    }
    out
}

fn class_of_object(ctx: &Ctx, classes: &NameMap<String>, o: &Object) -> (r: Option<String>)
    requires
        ctx.wf(),
        classes.wf(),
    ensures
        text_of(r) == object_class(*ctx, texts(classes.map()), object_at(*o)),
{
    match o {
        Object::Var(v) => match classes.get(&String::from_str(v)) {
            Some(c) => Some(c.clone()),
            None => None,
        },
        Object::Field { base, offset } => {
            let owner = match classes.get(&String::from_str(base)) {
                Some(c) => c,
                None => {
                    return None;
                },
            };
            match ctx.layout {
                Some(l) => match l.field_type(owner.as_str(), *offset) {
                    Some(t) => {
                        if names_pointer(t) {
                            match class_of(t) {
                                Some(c) => Some(String::from_str(c)),
                                None => None,
                            }
                        } else {
                            None
                        }
                    },
                    None => None,
                },
                None => None,
            }
        },
    }
}

fn read_method(src: &Snapshot, span: TableSpan, slot: u64) -> (r: Option<Va>)
    ensures
        r == method_in(*src, span, slot),
{
    let addr: u64 = match span.start.checked_add(slot) {
        Some(a) => a,
        None => {
            return None;
        },
    };
    if addr.saturating_add(8) > span.end {
        return None;
    }
    let b = match src.read(Va(addr), 8) {
        Ok(b) => b,
        Err(_) => {
            return None;
        },
    };
    if b.len() < 8 {
        return None;
    }
    let method: u64 = le64(b.as_slice(), 0);
    if method == 0 || !src.is_code(method) {
        return None;
    }
    Some(Va(method))
}

/// The name of the symbol that stands exactly at the address.
pub fn exact_name<'a>(symbols: Option<&'a SymbolTable>, va: Va) -> (r: Option<&'a String>)
    ensures
        match (r, name_exactly_at(symbols, va)) {
            (Some(a), Some(b)) => a@ == b,
            (None, None) => true,
            _ => false,
        },
{
    match symbols {
        Some(t) => match t.symbol_at(va) {
            Some(s) => {
                if s.va.0 == va.0 {
                    Some(&s.name)
                } else {
                    None
                }
            },
            None => None,
        },
        None => None,
    }
}

fn report(class: String, slot: u64, method: Va, symbol: Option<&String>) -> (r: Devirtualized)
    ensures
        resolved_node(r) == named(
            class@,
            slot,
            method,
            match symbol {
                Some(s) => Some(s@),
                None => None,
            },
        ),
{
    let own = class.clone().concat("::vf").concat(decimal(slot / 8).as_str());
    match symbol {
        Some(s) => {
            let prefix = class.clone().concat("::");
            if starts_with(s.as_str(), prefix.as_str()) {
                Devirtualized { class, slot, method, name: s.clone(), implementation: None }
            } else {
                Devirtualized { class, slot, method, name: own, implementation: Some(s.clone()) }
            }
        },
        None => Devirtualized { class, slot, method, name: own, implementation: None },
    }
}

pub open spec fn opt_node(d: Option<Devirtualized>) -> Option<Resolved> {
    match d {
        Some(x) => Some(resolved_node(x)),
        None => None,
    }
}

fn consider<'a>(
    ctx: &Ctx,
    tables: &NameMap<TableSpan>,
    classes: &NameMap<String>,
    defs: &Defs<'a>,
    t: &'a CallTarget,
) -> (r: Option<Devirtualized>)
    requires
        ctx.wf(),
        tables.wf(),
        classes.wf(),
        defs.wf(),
    ensures
        opt_node(r) == target_of(*ctx, tables.map(), texts(classes.map()), defs.map(), *t),
{
    let e = match t {
        CallTarget::Indirect(e) => e,
        _ => {
            return None;
        },
    };
    let (o, slot) = match as_vtable_dispatch(e, defs) {
        Some(p) => p,
        None => {
            return None;
        },
    };
    let class = match class_of_object(ctx, classes, &o) {
        Some(c) => c,
        None => {
            return None;
        },
    };
    let span = match tables.get(&class) {
        Some(s) => *s,
        None => {
            return None;
        },
    };
    let method = match read_method(ctx.source, span, slot) {
        Some(m) => m,
        None => {
            return None;
        },
    };
    Some(report(class, slot, method, exact_name(ctx.symbols, method)))
}

/// The resolved nodes of a list.
pub open spec fn resolved_nodes(v: Seq<Devirtualized>) -> Seq<Resolved> {
    v.map_values(|d: Devirtualized| resolved_node(d))
}

/// What each statement of a block is to call.
pub open spec fn plan_holds(
    ctx: Ctx,
    tables: Map<Seq<char>, TableSpan>,
    classes: Map<Seq<char>, Seq<char>>,
    defs: Map<Seq<char>, &MicroExpr>,
    stmts: Seq<SsaStmt>,
    plan: Seq<Option<Va>>,
) -> bool {
    &&& plan.len() == stmts.len()
    &&& forall|i: int|
        0 <= i < stmts.len() ==> #[trigger] plan[i] == match stmt_target(ctx, tables, classes, defs, stmts[i].stmt) {
            Some(r) => Some(r.method),
            None => None,
        }
}

fn plan_block<'a>(
    ctx: &Ctx,
    tables: &NameMap<TableSpan>,
    classes: &NameMap<String>,
    defs: &Defs<'a>,
    stmts: &'a Vec<SsaStmt>,
    out: &mut Vec<Devirtualized>,
) -> (plan: Vec<Option<Va>>)
    requires
        ctx.wf(),
        tables.wf(),
        classes.wf(),
        defs.wf(),
    ensures
        plan_holds(*ctx, tables.map(), texts(classes.map()), defs.map(), stmts@, plan@),
        resolved_nodes(final(out)@) == resolved_nodes(old(out)@) + found_in(
            *ctx,
            tables.map(),
            texts(classes.map()),
            defs.map(),
            stmts@,
            stmts@.len() as int,
        ),
{
    let mut plan: Vec<Option<Va>> = Vec::new();
    let mut i: usize = 0;
    let ghost first = resolved_nodes(out@);
    assert(first + Seq::<Resolved>::empty() =~= first);
    while i < stmts.len()
        invariant
            ctx.wf(),
            tables.wf(),
            classes.wf(),
            defs.wf(),
            i <= stmts@.len(),
            plan@.len() == i,
            forall|j: int|
                0 <= j < i ==> #[trigger] plan@[j] == match stmt_target(
                    *ctx,
                    tables.map(),
                    texts(classes.map()),
                    defs.map(),
                    stmts@[j].stmt,
                ) {
                    Some(r) => Some(r.method),
                    None => None,
                },
            resolved_nodes(out@) == first + found_in(
                *ctx,
                tables.map(),
                texts(classes.map()),
                defs.map(),
                stmts@,
                i as int,
            ),
        decreases stmts@.len() - i,
    {
        let got = match &stmts[i].stmt {
            MicroStmt::Call { target, .. } => consider(ctx, tables, classes, defs, target),
            MicroStmt::Assign { value, .. } => match value {
                MicroExpr::Call { target, .. } => consider(ctx, tables, classes, defs, target),
                _ => None,
            },
            _ => None,
        };
        assert(opt_node(got) == stmt_target(
            *ctx,
            tables.map(),
            texts(classes.map()),
            defs.map(),
            stmts@[i as int].stmt,
        ));
        let ghost before = resolved_nodes(out@);
        match got {
            Some(d) => {
                plan.push(Some(d.method));
                proof {
                    assert(resolved_nodes(out@.push(d)) =~= before.push(resolved_node(d)));
                }
                out.push(d);
                proof {
                    let f = found_in(*ctx, tables.map(), texts(classes.map()), defs.map(), stmts@, i as int);
                    assert((first + f).push(resolved_node(d)) =~= first + f.push(resolved_node(d)));
                }
            },
            None => {
                plan.push(None);
            },
        }
        i = i + 1;
    }
    plan
}

fn apply_block(stmts: &mut Vec<SsaStmt>, plan: &Vec<Option<Va>>)
    requires
        plan@.len() == old(stmts)@.len(),
    ensures
        final(stmts)@.len() == old(stmts)@.len(),
        forall|i: int|
            0 <= i < plan@.len() ==> (#[trigger] final(stmts)@[i]).va == old(stmts)@[i].va && final(stmts)@[i].stmt
                == match plan@[i] {
                Some(va) => calling(old(stmts)@[i].stmt, va),
                None => old(stmts)@[i].stmt,
            },
{
    let mut i: usize = 0;
    let ghost first = stmts@;
    while i < stmts.len()
        invariant
            i <= stmts@.len(),
            stmts@.len() == first.len(),
            plan@.len() == first.len(),
            forall|j: int| i <= j < first.len() ==> #[trigger] stmts@[j] == first[j],
            forall|j: int|
                0 <= j < i ==> (#[trigger] stmts@[j]).va == first[j].va && stmts@[j].stmt == match plan@[j] {
                    Some(va) => calling(first[j].stmt, va),
                    None => first[j].stmt,
                },
        decreases first.len() - i,
    {
        match plan[i] {
            Some(va) => match &mut stmts[i].stmt {
                MicroStmt::Call { target, .. } => {
                    *target = CallTarget::Direct { va };
                },
                MicroStmt::Assign { value, .. } => match value {
                    MicroExpr::Call { target, .. } => {
                        *target = CallTarget::Direct { va };
                    },
                    _ => {},
                },
                _ => {},
            },
            None => {},
        }
        i = i + 1;
    }
}

/// Resolves the virtual calls that can be resolved with certainty, lets them go
/// to their methods, and returns what was resolved. Without tables it does
/// nothing.
pub fn devirtualize(ctx: &Ctx, blocks: &mut Vec<SsaBlock>, types: &TypeArtifact) -> (out: Vec<Devirtualized>)
    requires
        ctx.wf(),
    ensures
        ({
            let classes = param_classes(types.signature.params@, types.signature.params@.len() as int);
            let defs = block_defs(old(blocks)@, old(blocks)@.len() as int);
            let tables = known_tables(*ctx);
            &&& resolved_nodes(out@) == found(*ctx, tables, classes, defs, old(blocks)@, old(blocks)@.len() as int)
            &&& final(blocks)@.len() == old(blocks)@.len()
            &&& forall|b: int|
                0 <= b < old(blocks)@.len() ==> same_frame(#[trigger] final(blocks)@[b], old(blocks)@[b])
            &&& forall|b: int, i: int|
                0 <= b < old(blocks)@.len() && 0 <= i < old(blocks)@[b].stmts@.len() ==> (
                #[trigger] final(blocks)@[b].stmts@[i]).va == old(blocks)@[b].stmts@[i].va
                    && final(blocks)@[b].stmts@[i].stmt == rewritten(
                    old(blocks)@[b].stmts@[i].stmt,
                    stmt_target(*ctx, tables, classes, defs, old(blocks)@[b].stmts@[i].stmt),
                )
        }),
{
    let tables: NameMap<TableSpan> = match ctx.vtables {
        Some(v) => class_to_vtable(v),
        None => SortedMap::new(),
    };
    let classes = collect_classes(&types.signature.params);
    let mut out: Vec<Devirtualized> = Vec::new();
    let mut plans: Vec<Vec<Option<Va>>> = Vec::new();
    let ghost first = blocks@;
    let ghost gdefs = block_defs(first, first.len() as int);
    let ghost gtables = known_tables(*ctx);
    let ghost gclasses = texts(classes.map());
    assert(resolved_nodes(out@) =~= Seq::<Resolved>::empty());
    {
        let all: &Vec<SsaBlock> = &*blocks;
        let defs = collect_defs(all);
        let mut b: usize = 0;
        while b < all.len()
            invariant
                ctx.wf(),
                tables.wf(),
                classes.wf(),
                defs.wf(),
                all@ == first,
                b <= first.len(),
                defs.map() == gdefs,
                tables.map() == gtables,
                texts(classes.map()) == gclasses,
                plans@.len() == b,
                forall|j: int|
                    0 <= j < b ==> plan_holds(*ctx, gtables, gclasses, gdefs, first[j].stmts@, (#[trigger] plans@[j])@),
                resolved_nodes(out@) == found(*ctx, gtables, gclasses, gdefs, first, b as int),
            decreases first.len() - b,
        {
            let plan = plan_block(ctx, &tables, &classes, &defs, &all[b].stmts, &mut out);
            plans.push(plan);
            b = b + 1;
        }
    }
    let mut b: usize = 0;
    while b < blocks.len()
        invariant
            b <= blocks@.len(),
            blocks@.len() == first.len(),
            plans@.len() == first.len(),
            forall|j: int|
                0 <= j < first.len() ==> plan_holds(
                    *ctx,
                    gtables,
                    gclasses,
                    gdefs,
                    first[j].stmts@,
                    (#[trigger] plans@[j])@,
                ),
            forall|j: int| b <= j < first.len() ==> #[trigger] blocks@[j] == first[j],
            forall|j: int| 0 <= j < first.len() ==> same_frame(#[trigger] blocks@[j], first[j]),
            forall|j: int, i: int|
                0 <= j < b && 0 <= i < first[j].stmts@.len() ==> (#[trigger] blocks@[j].stmts@[i]).va
                    == first[j].stmts@[i].va && blocks@[j].stmts@[i].stmt == rewritten(
                    first[j].stmts@[i].stmt,
                    stmt_target(*ctx, gtables, gclasses, gdefs, first[j].stmts@[i].stmt),
                ),
        decreases first.len() - b,
    {
        let ghost before = blocks@;
        let plan = &plans[b];
        proof {
            assert(plan_holds(*ctx, gtables, gclasses, gdefs, first[b as int].stmts@, plans@[b as int]@));
        }
        apply_block(&mut blocks[b].stmts, plan);
        proof {
            assert forall|j: int, i: int| 0 <= j < b + 1 && 0 <= i < first[j].stmts@.len() implies (
            #[trigger] blocks@[j].stmts@[i]).va == first[j].stmts@[i].va && blocks@[j].stmts@[i].stmt == rewritten(
                first[j].stmts@[i].stmt,
                stmt_target(*ctx, gtables, gclasses, gdefs, first[j].stmts@[i].stmt),
            ) by {
                if j < b {
                    assert(blocks@[j] == before[j]);
                    assert(before[j].stmts@[i].va == first[j].stmts@[i].va);
                } else {
                    assert(plans@[b as int]@[i] == match stmt_target(
                        *ctx,
                        gtables,
                        gclasses,
                        gdefs,
                        first[j].stmts@[i].stmt,
                    ) {
                        Some(r) => Some(r.method),
                        None => None,
                    });
                }
            }
        }
        b = b + 1;
    }
    out
}

// ---------------------------------------------------------------------------
// Laws
// ---------------------------------------------------------------------------

/// The slot lies in the table of the class, and the method is code.
pub open spec fn sound(ctx: Ctx, tables: Map<Seq<char>, TableSpan>, r: Resolved) -> bool {
    &&& tables.contains_key(r.class)
    &&& sat_add(sat_add(tables[r.class].start, r.slot), 8) <= tables[r.class].end
    &&& r.method.0 != 0
    &&& ctx.source.is_code_at(r.method.0)
}

proof fn lemma_target_sound(
    ctx: Ctx,
    tables: Map<Seq<char>, TableSpan>,
    classes: Map<Seq<char>, Seq<char>>,
    defs: Map<Seq<char>, &MicroExpr>,
    t: CallTarget,
)
    ensures
        target_of(ctx, tables, classes, defs, t) matches Some(r) ==> sound(ctx, tables, r),
{
    match t {
        CallTarget::Indirect(e) => match dispatch_of(*e, defs) {
            Some((o, slot)) => match object_class(ctx, classes, o) {
                Some(c) => {
                    if tables.contains_key(c) {
                        match method_in(*ctx.source, tables[c], slot) {
                            Some(m) => {
                                let r = named(c, slot, m, name_exactly_at(ctx.symbols, m));
                                assert(r.class == c && r.slot == slot && r.method == m);
                                let b = ctx.source.read_of((tables[c].start + slot) as u64, 8)->0;
                                crate::bytes::lemma_le_bound(b, 0, 8);
                                assert(vstd::arithmetic::power::pow(256, 8) == 0x1_0000_0000_0000_0000) by {
                                    reveal_with_fuel(vstd::arithmetic::power::pow, 9);
                                }
                            },
                            None => {},
                        }
                    }
                },
                None => {},
            },
            None => {},
        },
        _ => {},
    }
}

proof fn lemma_found_in_sound(
    ctx: Ctx,
    tables: Map<Seq<char>, TableSpan>,
    classes: Map<Seq<char>, Seq<char>>,
    defs: Map<Seq<char>, &MicroExpr>,
    stmts: Seq<SsaStmt>,
    k: int,
)
    ensures
        forall|i: int|
            0 <= i < found_in(ctx, tables, classes, defs, stmts, k).len() ==> sound(
                ctx,
                tables,
                #[trigger] found_in(ctx, tables, classes, defs, stmts, k)[i],
            ),
    decreases k,
{
    if k > 0 {
        lemma_found_in_sound(ctx, tables, classes, defs, stmts, k - 1);
        let done = found_in(ctx, tables, classes, defs, stmts, k - 1);
        let now = found_in(ctx, tables, classes, defs, stmts, k);
        assert forall|i: int| 0 <= i < now.len() implies sound(ctx, tables, #[trigger] now[i]) by {
            if i < done.len() {
                assert(sound(ctx, tables, done[i]));
            } else {
                lemma_target_sound(ctx, tables, classes, defs, call_in(stmts[k - 1].stmt)->0);
            }
        }
    }
}

/// Every call that is resolved goes through a slot inside the table of its
/// class, and reaches code.
pub proof fn resolved_calls_are_sound(
    ctx: Ctx,
    tables: Map<Seq<char>, TableSpan>,
    classes: Map<Seq<char>, Seq<char>>,
    defs: Map<Seq<char>, &MicroExpr>,
    blocks: Seq<SsaBlock>,
    b: int,
)
    ensures
        forall|i: int|
            0 <= i < found(ctx, tables, classes, defs, blocks, b).len() ==> sound(
                ctx,
                tables,
                #[trigger] found(ctx, tables, classes, defs, blocks, b)[i],
            ),
    decreases b,
{
    if b > 0 {
        resolved_calls_are_sound(ctx, tables, classes, defs, blocks, b - 1);
        lemma_found_in_sound(
            ctx,
            tables,
            classes,
            defs,
            blocks[b - 1].stmts@,
            blocks[b - 1].stmts@.len() as int,
        );
        let done = found(ctx, tables, classes, defs, blocks, b - 1);
        let more = found_in(
            ctx,
            tables,
            classes,
            defs,
            blocks[b - 1].stmts@,
            blocks[b - 1].stmts@.len() as int,
        );
        let now = found(ctx, tables, classes, defs, blocks, b);
        assert forall|i: int| 0 <= i < now.len() implies sound(ctx, tables, #[trigger] now[i]) by {
            if i < done.len() {
                assert(sound(ctx, tables, done[i]));
            } else {
                assert(sound(ctx, tables, more[i - done.len()]));
            }
        }
    }
}

/// A class with two tables is resolved to neither.
pub proof fn several_tables_are_refused(vtables: SortedMap<u64, String>, i: int, j: int)
    requires
        0 <= i < j < vtables.vals@.len(),
        vtables.vals@[i]@ == vtables.vals@[j]@,
    ensures
        !tables_of(vtables).contains_key(vtables.vals@[i]@),
{
    let names = vtables.vals@;
    if tables_of(vtables).contains_key(names[i]@) {
        let k = choose|k: int| #[trigger] usable(names, k) && names[k]@ == names[i]@;
        assert(only_one(names, k));
        assert(names[i]@ == names[k]@);
        assert(names[j]@ == names[k]@);
    }
}

// ---------------------------------------------------------------------------
// What a virtual call is made of
// ---------------------------------------------------------------------------

/// A pointer type names what it points to: the stars at its end come off, and the white
/// space around the name.
pub proof fn pointers_name_what_they_point_to(t: Seq<char>)
    ensures
        pointee(t.push('*')) == pointee(t),
        pointee(t.push(' ')) == pointee(t),
        t.len() > 0 && !is_space(t[0]) && t.last() != '*' && !is_space(t.last()) ==> pointee(t) == t,
        is_pointer(t.push('*')),
        t.len() > 0 && t.last() != '*' && !is_space(t.last()) ==> !is_pointer(t),
{
    assert(t.push('*').drop_last() =~= t);
    assert(t.push(' ').drop_last() =~= t);
}

/// Pointers to a class are of that class; `void`, a structure without a name and what is
/// empty are no classes.
pub proof fn classes_are_named_by_their_types(t: Seq<char>)
    ensures
        class_in(t.push('*')) == class_in(t),
        class_in("void"@) is None,
        class_in(Seq::empty()) is None,
        class_in(t) matches Some(c) ==> c == pointee(t) && c.len() > 0 && c != "void"@ && !starts(c, "struct_"@),
        pointee(t).len() > 0 && pointee(t) != "void"@ && !starts(pointee(t), "struct_"@) && !width_type(pointee(t))
            ==> class_in(t) == Some(pointee(t)),
{
    pointers_name_what_they_point_to(t);
    reveal_strlit("void");
    pointers_name_what_they_point_to("void"@);
}

/// An integer type of some width is a sign, `int`, its width and `_t`.
pub proof fn integer_types_state_their_width(n: nat)
    ensures
        width_type("int"@ + dec(n) + "_t"@),
        width_type("uint"@ + dec(n) + "_t"@),
{
    reveal_strlit("int");
    reveal_strlit("uint");
    reveal_strlit("_t");
    crate::text::decimals_read_back(n);
    let d = dec(n);
    let a = "int"@ + d + "_t"@;
    let b = "uint"@ + d + "_t"@;
    assert(b.skip(1) =~= a);
    assert forall|i: int| 3 <= i < a.len() - 2 implies is_digit(#[trigger] a[i]) by {
        assert(a[i] == d[i - 3]);
    }
}

/// A variable stands for its definition, and anything else for itself.
pub proof fn variables_stand_for_their_definition(e: MicroExpr, defs: Map<Seq<char>, &MicroExpr>, k: nat)
    ensures
        !(e is Var) ==> resolved(e, defs) == e,
        e matches MicroExpr::Var(n) ==> (!defs.contains_key(n@) ==> resolved(e, defs) == e),
        e matches MicroExpr::Var(n) ==> (defs.contains_key(n@) && !(*defs[n@] is Var) ==> resolved(e, defs) == *defs[n@]),
        e matches MicroExpr::Var(n) ==> (defs.contains_key(n@) && k > 0 ==> resolution(e, defs, k) == resolution(
            *defs[n@],
            defs,
            (k - 1) as nat,
        )),
{
    reveal_with_fuel(resolution, 3);
}

/// A call that loads a method from a slot of the table, whose address it loads from the
/// object, goes through the object and the slot.
pub proof fn calls_through_a_table_have_object_and_slot(
    defs: Map<Seq<char>, &MicroExpr>,
    n: String,
    off: u64,
    base: String,
    dist: i64,
    bits: crate::micro::Bits,
    signed: bool,
)
    requires
        !defs.contains_key(n@),
        !defs.contains_key(base@),
        dist >= 0,
    ensures
        ({
            let object = MicroExpr::Var(n);
            let table = MicroExpr::Load { addr: Box::new(object), bits, signed };
            let slot = MicroExpr::Binary(
                BinOp::Add,
                Box::new(table),
                Box::new(MicroExpr::Const { value: off as i128, bits }),
            );
            dispatch_of(MicroExpr::Load { addr: Box::new(slot), bits, signed }, defs) == Some((ObjectAt::Var(n@), off))
        }),
        ({
            let table = MicroExpr::Load { addr: Box::new(MicroExpr::Var(n)), bits, signed };
            dispatch_of(MicroExpr::Load { addr: Box::new(table), bits, signed }, defs) == Some(
                (ObjectAt::Var(n@), 0u64),
            )
        }),
        ({
            let field = MicroExpr::Binary(
                BinOp::Add,
                Box::new(MicroExpr::Var(base)),
                Box::new(MicroExpr::Const { value: dist as i128, bits }),
            );
            let object = MicroExpr::Load { addr: Box::new(field), bits, signed };
            let table = MicroExpr::Load { addr: Box::new(object), bits, signed };
            let slot = MicroExpr::Binary(
                BinOp::Add,
                Box::new(table),
                Box::new(MicroExpr::Const { value: off as i128, bits }),
            );
            dispatch_of(MicroExpr::Load { addr: Box::new(slot), bits, signed }, defs) == Some(
                (ObjectAt::Field(base@, dist), off),
            )
        }),
{
    reveal_with_fuel(resolution, 2);
    crate::micro::distances_have_a_direction(base, dist as i128, bits);
}

/// A table goes from its own address to that of the next one.
pub proof fn tables_end_where_the_next_starts(vtables: SortedMap<u64, String>, i: int)
    requires
        0 <= i,
        i + 1 < vtables.vals@.len(),
        forall|j: int| 0 <= j < vtables.vals@.len() && j != i ==> (#[trigger] vtables.vals@[j])@ != vtables.vals@[i]@,
    ensures
        tables_of(vtables).contains_key(vtables.vals@[i]@),
        tables_of(vtables)[vtables.vals@[i]@].start == vtables.keys@[i],
        tables_of(vtables)[vtables.vals@[i]@].end == vtables.keys@[i + 1],
{
    let names = vtables.vals@;
    let c = names[i]@;
    assert(only_one(names, i));
    assert(usable(names, i));
    let k = choose|k: int| #[trigger] usable(names, k) && names[k]@ == c;
    assert(usable(names, k) && names[k]@ == c);
    assert(k == i);
}

/// The method in a slot is what the table holds there, if it is code and the slot lies
/// in the table.
pub proof fn slots_hold_their_method(src: Snapshot, span: TableSpan, slot: u64, b: Seq<u8>)
    requires
        span.start + slot + 8 <= u64::MAX,
        src.read_of((span.start + slot) as u64, 8) == Some(b),
        b.len() == 8,
    ensures
        ({
            let m = le(b, 0, 8) as u64;
            &&& span.start + slot + 8 <= span.end && m != 0 && src.is_code_at(m) ==> method_in(src, span, slot) == Some(
                Va(m),
            )
            &&& span.start + slot + 8 > span.end ==> method_in(src, span, slot) is None
            &&& m == 0 || !src.is_code_at(m) ==> method_in(src, span, slot) is None
        }),
{
    crate::bytes::lemma_le_bound(b, 0, 8);
    assert(vstd::arithmetic::power::pow(256, 8) == 0x1_0000_0000_0000_0000) by {
        reveal_with_fuel(vstd::arithmetic::power::pow, 10);
    }
}

/// A resolved call is called by the method's symbol where that is one of the class; by
/// the class and the number of its slot otherwise, with the symbol as implementation.
pub proof fn resolved_calls_are_named(class: Seq<char>, slot: u64, method: Va, n: Seq<char>)
    ensures
        ({
            let own = class + "::vf"@ + dec((slot / 8) as nat);
            &&& named(class, slot, method, None).name == own
            &&& named(class, slot, method, None).implementation is None
            &&& named(class, slot, method, Some(class + "::"@ + n)).name == class + "::"@ + n
            &&& named(class, slot, method, Some(class + "::"@ + n)).implementation is None
            &&& !starts(n, class + "::"@) ==> named(class, slot, method, Some(n)).name == own && named(
                class,
                slot,
                method,
                Some(n),
            ).implementation == Some(n)
            &&& named(class, slot, method, Some(n)).method == method
            &&& named(class, slot, method, Some(n)).slot == slot
            &&& named(class, slot, method, Some(n)).class == class
        }),
{
    crate::text::prefixes_and_suffixes_come_off(class + "::"@, n);
}

/// The name of an address is that of the symbol that stands exactly there.
pub proof fn names_stand_exactly_at_their_address(t: &SymbolTable, va: Va)
    ensures
        t.at(va) matches Some(s) ==> (s.va == va ==> name_exactly_at(Some(t), va) == Some(s.name@)),
        t.at(va) matches Some(s) ==> (s.va != va ==> name_exactly_at(Some(t), va) is None),
        t.at(va) is None ==> name_exactly_at(Some(t), va) is None,
        name_exactly_at(None, va) is None,
{
}

/// A parameter that points to a class is of that class when its register enters the
/// function; of two in one register the later counts.
pub proof fn parameters_are_of_their_class(params: Seq<ParamInfo>, k: int, t: String)
    requires
        0 <= k < params.len(),
        params[k].ty.name == Some(t),
    ensures
        class_in(t@) matches Some(c) ==> param_classes(params, k + 1) == param_classes(params, k).insert(
            params[k].reg@ + ".0"@,
            c,
        ),
        class_in(t@) is None ==> param_classes(params, k + 1) == param_classes(params, k),
{
}

/// A variable is defined by the last statement that assigns it.
pub proof fn the_last_assignment_defines(stmts: Seq<SsaStmt>, k: int, n: Seq<char>)
    requires
        0 <= k < stmts.len(),
    ensures
        stmts[k].stmt matches MicroStmt::Assign { dst, value } ==> {
            &&& stmt_defs(stmts, k + 1, Map::empty()).contains_key(dst@)
            &&& *stmt_defs(stmts, k + 1, Map::empty())[dst@] == value
            &&& n != dst@ ==> (stmt_defs(stmts, k + 1, Map::empty()).contains_key(n) == stmt_defs(
                stmts,
                k,
                Map::empty(),
            ).contains_key(n))
        },
        !(stmts[k].stmt is Assign) ==> stmt_defs(stmts, k + 1, Map::empty()) == stmt_defs(stmts, k, Map::empty()),
{
}

/// A statement whose call was resolved calls the method directly, with the same
/// arguments and the same result; one whose call was not is left as it is.
pub proof fn resolved_calls_go_to_the_method(s: MicroStmt, r: Option<Resolved>)
    ensures
        r is None ==> rewritten(s, r) == s,
        r matches Some(d) ==> (s matches MicroStmt::Call { target, args, ret } ==> (rewritten(s, r) matches
            MicroStmt::Call { target: t, args: a, ret: x } && t == (CallTarget::Direct { va: d.method }) && a == args && x
            == ret)),
        r matches Some(d) ==> (s matches MicroStmt::Assign { dst, value: MicroExpr::Call { target, args } } ==> (rewritten(
            s,
            r,
        ) matches MicroStmt::Assign { dst: e, value: MicroExpr::Call { target: t, args: a } } && e == dst && t == (
        CallTarget::Direct { va: d.method }) && a == args)),
{
}

/// The class of a variable is what it is known to be, and that of a field what the layout
/// of its object says, if the field is a pointer.
pub proof fn objects_have_the_class_of_their_place(
    ctx: Ctx,
    classes: Map<Seq<char>, Seq<char>>,
    v: Seq<char>,
    off: i64,
    t: Seq<char>,
)
    ensures
        classes.contains_key(v) ==> object_class(ctx, classes, ObjectAt::Var(v)) == Some(classes[v]),
        !classes.contains_key(v) ==> object_class(ctx, classes, ObjectAt::Var(v)) is None && object_class(
            ctx,
            classes,
            ObjectAt::Field(v, off),
        ) is None,
        classes.contains_key(v) ==> (ctx.layout matches Some(l) ==> (l.type_of(classes[v], off) == Some(t) && is_pointer(t)
            ==> object_class(ctx, classes, ObjectAt::Field(v, off)) == class_in(t))),
        classes.contains_key(v) ==> (ctx.layout matches Some(l) ==> (l.type_of(classes[v], off) == Some(t) && !is_pointer(
            t,
        ) ==> object_class(ctx, classes, ObjectAt::Field(v, off)) is None)),
{
}

/// Only an indirect call is resolved, and only where its object's class is known, has a
/// table, and the slot holds a method; the call then goes to that method.
pub proof fn indirect_calls_of_known_objects_are_resolved(
    ctx: Ctx,
    tables: Map<Seq<char>, TableSpan>,
    classes: Map<Seq<char>, Seq<char>>,
    defs: Map<Seq<char>, &MicroExpr>,
    t: CallTarget,
)
    ensures
        !(t is Indirect) ==> target_of(ctx, tables, classes, defs, t) is None,
        t matches CallTarget::Indirect(e) ==> (dispatch_of(*e, defs) is None ==> target_of(ctx, tables, classes, defs, t) is
            None),
        t matches CallTarget::Indirect(e) ==> (dispatch_of(*e, defs) matches Some((o, slot)) ==> (object_class(ctx, classes, o)
            is None ==> target_of(ctx, tables, classes, defs, t) is None) && (object_class(ctx, classes, o) matches Some(c)
            ==> (!tables.contains_key(c) ==> target_of(ctx, tables, classes, defs, t) is None) && (tables.contains_key(c)
            && method_in(*ctx.source, tables[c], slot) is None ==> target_of(ctx, tables, classes, defs, t) is None) && (
        tables.contains_key(c) ==> (method_in(*ctx.source, tables[c], slot) matches Some(m) ==> (target_of(
            ctx,
            tables,
            classes,
            defs,
            t,
        ) matches Some(r) && r.class == c && r.slot == slot && r.method == m))))),
{
}

/// The calls of one more statement and of one more block come behind those before.
pub proof fn resolved_calls_come_in_order(
    ctx: Ctx,
    tables: Map<Seq<char>, TableSpan>,
    classes: Map<Seq<char>, Seq<char>>,
    defs: Map<Seq<char>, &MicroExpr>,
    stmts: Seq<SsaStmt>,
    k: int,
)
    requires
        0 <= k,
    ensures
        ({
            let done = found_in(ctx, tables, classes, defs, stmts, k);
            let now = found_in(ctx, tables, classes, defs, stmts, k + 1);
            match stmts[k].stmt {
                MicroStmt::Call { target, .. } => match target_of(ctx, tables, classes, defs, target) {
                    Some(r) => now == done + seq![r],
                    None => now == done,
                },
                MicroStmt::Assign { value: MicroExpr::Call { target, .. }, .. } => match target_of(
                    ctx,
                    tables,
                    classes,
                    defs,
                    target,
                ) {
                    Some(r) => now == done + seq![r],
                    None => now == done,
                },
                _ => now == done,
            }
        }),
{
}

/// All calls of a block are found, and those of a block before it stand before them.
pub proof fn every_block_is_looked_through(
    ctx: Ctx,
    tables: Map<Seq<char>, TableSpan>,
    classes: Map<Seq<char>, Seq<char>>,
    defs: Map<Seq<char>, &MicroExpr>,
    blocks: Seq<SsaBlock>,
    b: int,
    i: int,
    r: Resolved,
)
    requires
        0 <= b < blocks.len(),
        0 <= i < blocks[b].stmts@.len(),
        stmt_target(ctx, tables, classes, defs, blocks[b].stmts@[i].stmt) == Some(r),
    ensures
        found(ctx, tables, classes, defs, blocks, blocks.len() as int).contains(r),
{
    lemma_found_in_has(ctx, tables, classes, defs, blocks[b].stmts@, blocks[b].stmts@.len() as int, i, r);
    lemma_found_has(ctx, tables, classes, defs, blocks, blocks.len() as int, b, r);
}

proof fn lemma_found_in_has(
    ctx: Ctx,
    tables: Map<Seq<char>, TableSpan>,
    classes: Map<Seq<char>, Seq<char>>,
    defs: Map<Seq<char>, &MicroExpr>,
    stmts: Seq<SsaStmt>,
    k: int,
    i: int,
    r: Resolved,
)
    requires
        0 <= i < k <= stmts.len(),
        stmt_target(ctx, tables, classes, defs, stmts[i].stmt) == Some(r),
    ensures
        found_in(ctx, tables, classes, defs, stmts, k).contains(r),
    decreases k,
{
    let done = found_in(ctx, tables, classes, defs, stmts, k - 1);
    let now = found_in(ctx, tables, classes, defs, stmts, k);
    if i == k - 1 {
        assert(now[done.len() as int] == r);
    } else {
        lemma_found_in_has(ctx, tables, classes, defs, stmts, k - 1, i, r);
        let j = choose|j: int| 0 <= j < done.len() && done[j] == r;
        assert(now[j] == r);
    }
}

proof fn lemma_found_has(
    ctx: Ctx,
    tables: Map<Seq<char>, TableSpan>,
    classes: Map<Seq<char>, Seq<char>>,
    defs: Map<Seq<char>, &MicroExpr>,
    blocks: Seq<SsaBlock>,
    n: int,
    b: int,
    r: Resolved,
)
    requires
        0 <= b < n <= blocks.len(),
        found_in(ctx, tables, classes, defs, blocks[b].stmts@, blocks[b].stmts@.len() as int).contains(r),
    ensures
        found(ctx, tables, classes, defs, blocks, n).contains(r),
    decreases n,
{
    let done = found(ctx, tables, classes, defs, blocks, n - 1);
    let last = found_in(ctx, tables, classes, defs, blocks[n - 1].stmts@, blocks[n - 1].stmts@.len() as int);
    let now = found(ctx, tables, classes, defs, blocks, n);
    if b == n - 1 {
        let j = choose|j: int| 0 <= j < last.len() && last[j] == r;
        assert(now[done.len() + j] == r);
    } else {
        lemma_found_has(ctx, tables, classes, defs, blocks, n - 1, b, r);
        let j = choose|j: int| 0 <= j < done.len() && done[j] == r;
        assert(now[j] == r);
    }
}

} // verus!
