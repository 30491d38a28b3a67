//! One layout for each class, from what all its methods access.
//!
//! Type recovery finds fields function by function. Here what a method accesses
//! through its object counts for the class that the method was written in,
//! which its own symbol states. The widest access gives a field its size, any
//! signed use makes it signed, and its type comes from what is stored into it,
//! what is constructed in it and whom it is handed to. Two sources that disagree
//! about a type leave the field without one for good.

use vstd::prelude::*;
use vstd::string::{StrSliceExecFns, StringExecFns};

use crate::ctx::{text_of, Ctx, TypeFlowLookup};
use crate::demangle::{
    demangle, demangled, enclosing, enclosing_class, last_scope, member_class_of, member_function_class,
    qualified_name_in, qualified_text, scopes_of,
};
use crate::devirt::{collect_defs, block_defs, resolve, resolved, texts, Defs};
use crate::micro::{
    alike, as_var_plus, peel, peeled, same_expr, var_plus, BinOp, Bits, CallTarget, MicroExpr, MicroStmt, MAX_COPY_DEPTH,
};
use crate::source::CoreError;
use crate::sorted::{ascending, copy_names, lemma_map_at, NameMap, NameSet, SortedMap, SortedSet};
use crate::ssa::{ParamInfo, Phi, PhiInput, RecoveredType, SsaBlock, SsaStmt, TypeArtifact};
use crate::text::{
    before_char, before_dot, root_name, same, split_at_last, split_last, strip, strip_text,
    trim, trim_text, up_to,
};
use crate::va::Va;

verus! {

/// One field of one class.
#[derive(Clone, Debug, PartialEq, Eq)]
pub struct FieldObs {
    pub offset: i64,
    /// The widest access, or 0 if the field is known by its type alone.
    pub size_bits: Bits,
    pub signed: bool,
    pub access_count: usize,
    /// How many methods touch the field.
    pub methods: usize,
    pub ty: Option<String>,
    /// Two sources disagree about the type.
    pub ty_ambiguous: bool,
}

/// The layout of one class.
#[derive(Clone, Debug, PartialEq, Eq)]
pub struct ClassLayout {
    /// How many methods contributed.
    pub methods: usize,
    /// In ascending order of their offsets.
    pub fields: Vec<FieldObs>,
    /// Where the last field seen ends: the object is at least so large.
    pub extent: u64,
}

/// The layouts of all classes, and counts of what they were made from.
pub struct LayoutStore {
    pub classes: NameMap<ClassLayout>,
    pub functions_analyzed: usize,
    pub methods_matched: usize,
    pub observations: usize,
    pub typed_fields: usize,
    pub ambiguous_fields: usize,
    /// Fields whose type follows only from a return type recovered from another
    /// field. Nothing inside a function tells a returned pointer from a value
    /// left over in the return register, so there are none.
    pub fields_typed_by_fixpoint: usize,
    pub claims_by_value_closure: usize,
}

/// The first field from index `k` on with this offset.
pub open spec fn field_from(fields: Seq<FieldObs>, offset: i64, k: int) -> Option<int>
    decreases fields.len() - k,
{
    if k < 0 || k >= fields.len() {
        None
    } else if fields[k].offset == offset {
        Some(k)
    } else {
        field_from(fields, offset, k + 1)
    }
}

impl LayoutStore {
    /// The type of a field, if one is known and nothing contradicts it.
    pub open spec fn type_of(&self, class: Seq<char>, offset: i64) -> Option<Seq<char>> {
        if self.classes.map().contains_key(class) {
            let fields = self.classes.map()[class].fields@;
            match field_from(fields, offset, 0) {
                Some(k) => if fields[k].ty_ambiguous {
                    None
                } else {
                    crate::ctx::text_of(fields[k].ty)
                },
                None => None,
            }
        } else {
            None
        }
    }

    /// The type of a field, if one is known and nothing contradicts it.
    pub fn field_type(&self, class: &str, offset: i64) -> (r: Option<&str>)
        requires
            self.classes.wf(),
        ensures
            match (r, self.type_of(class@, offset)) {
                (Some(a), Some(b)) => a@ == b,
                (None, None) => true,
                _ => false,
            },
    {
        let layout = match self.classes.get(&String::from_str(class)) {
            Some(l) => l,
            None => {
                return None;
            },
        };
        let mut k: usize = 0;
        while k < layout.fields.len()
            invariant
                k <= layout.fields@.len(),
                self.classes.map().contains_key(class@),
                *layout == self.classes.map()[class@],
                field_from(layout.fields@, offset, 0) == field_from(layout.fields@, offset, k as int),
            decreases layout.fields@.len() - k,
        {
            let f = &layout.fields[k];
            if f.offset == offset {
                return if f.ty_ambiguous {
                    None
                } else {
                    match &f.ty {
                        Some(t) => Some(t.as_str()),
                        None => None,
                    }
                };
            }
            k = k + 1;
        }
        None
    }
}

// ---------------------------------------------------------------------------
// The class of a function, from its symbol
// ---------------------------------------------------------------------------

/// The part of a symbol's name after the module that it is qualified with.
pub open spec fn without_module(name: Seq<char>) -> Seq<char> {
    match split_at_last(name, '!') {
        Some((_, n)) => n,
        None => name,
    }
}

fn drop_module(name: &str) -> (r: &str)
    ensures
        r@ == without_module(name@),
{
    match split_last(name, '!') {
        Some((_, n)) => n,
        None => name,
    }
}

/// The name of the symbol exactly at the address, without its module.
pub open spec fn bare_symbol(ctx: Ctx, va: Va) -> Option<Seq<char>> {
    match crate::devirt::name_exactly_at(ctx.symbols, va) {
        Some(n) => Some(without_module(n)),
        None => None,
    }
}

/// The qualified name of the function at the address.
pub open spec fn qualified_at(ctx: Ctx, va: Va) -> Option<Seq<char>> {
    match bare_symbol(ctx, va) {
        Some(n) => qualified_text(demangled(n)),
        None => None,
    }
}

/// Cuts a readable name down to its qualified part.
pub fn qualified_part(full: &str) -> (r: Option<String>)
    ensures
        text_of(r) == qualified_text(full@),
{
    match qualified_name_in(full) {
        Some(n) => Some(String::from_str(n)),
        None => None,
    }
}

fn qualified_name(ctx: &Ctx, va: Va) -> (r: Option<String>)
    ensures
        text_of(r) == qualified_at(*ctx, va),
{
    match crate::devirt::exact_name(ctx.symbols, va) {
        Some(n) => {
            let full = demangle(drop_module(n.as_str()));
            qualified_part(full.as_str())
        },
        None => None,
    }
}

/// A name without its template arguments.
pub open spec fn stem_of(name: Seq<char>) -> Seq<char> {
    trim(up_to(name, '<'))
}

fn stem(name: &str) -> (r: &str)
    ensures
        r@ == stem_of(name@),
{
    trim_text(before_char(name, '<'))
}

/// The last component of a qualified name, outside all brackets.
pub open spec fn last_part(name: Seq<char>) -> Seq<char> {
    match scopes_of(name) {
        Some((_, n)) => n,
        None => name,
    }
}

/// The name without a leading tilde.
pub open spec fn without_tilde(name: Seq<char>) -> Seq<char> {
    match strip(name, "~"@) {
        Some(n) => n,
        None => name,
    }
}

/// The class of which this is the name of a constructor or destructor: the last
/// component repeats the class, template arguments aside.
pub open spec fn constructed(qualified: Seq<char>) -> Option<Seq<char>> {
    match scopes_of(qualified) {
        Some((class, method)) => {
            let own = stem_of(last_part(class));
            if class.len() > 0 && own.len() > 0 && own == stem_of(without_tilde(method)) {
                Some(class)
            } else {
                None
            }
        },
        None => None,
    }
}

/// The class of which this is the name of a constructor or destructor.
pub fn ctor_class_of(qualified: &str) -> (r: Option<&str>)
    ensures
        match (r, constructed(qualified@)) {
            (Some(a), Some(b)) => a@ == b,
            (None, None) => true,
            _ => false,
        },
{
    let (class, method) = match last_scope(qualified) {
        Some(p) => p,
        None => {
            return None;
        },
    };
    if class.is_empty() {
        return None;
    }
    let own = stem(
        match last_scope(class) {
            Some((_, n)) => n,
            None => class,
        },
    );
    let m = stem(
        match strip_text(method, "~") {
            Some(n) => n,
            None => method,
        },
    );
    if !own.is_empty() && same(own, m) {
        Some(class)
    } else {
        None
    }
}

/// The class of which the function at the address is a constructor or
/// destructor.
pub open spec fn ctor_at(ctx: Ctx, va: Va) -> Option<Seq<char>> {
    match qualified_at(ctx, va) {
        Some(q) => constructed(q),
        None => None,
    }
}

pub fn ctor_class(ctx: &Ctx, va: Va) -> (r: Option<String>)
    ensures
        text_of(r) == ctor_at(*ctx, va),
{
    match qualified_name(ctx, va) {
        Some(q) => match ctor_class_of(q.as_str()) {
            Some(c) => Some(String::from_str(c)),
            None => None,
        },
        None => None,
    }
}

/// Some table of virtual functions is that of the class.
pub open spec fn has_table(ctx: Ctx, class: Seq<char>) -> bool {
    match ctx.vtables {
        Some(v) => exists|i: int| 0 <= i < v.vals@.len() && (#[trigger] v.vals@[i])@ == class,
        None => false,
    }
}

/// The class to whose object the first argument of a function points, from what
/// its symbol says: a constructor or destructor, a name that states a member
/// function, or a name in a class that has a table of virtual functions.
pub open spec fn this_class_at(ctx: Ctx, va: Va) -> Option<Seq<char>> {
    match ctor_at(ctx, va) {
        Some(c) => Some(c),
        None => match bare_symbol(ctx, va) {
            None => None,
            Some(n) => match member_class_of(n) {
                Some(c) => Some(c),
                None => match qualified_at(ctx, va) {
                    None => None,
                    Some(q) => match enclosing(q) {
                        None => None,
                        Some(class) => if has_table(ctx, class) {
                            Some(class)
                        } else {
                            None
                        },
                    },
                },
            },
        },
    }
}

fn is_listed(names: &Vec<String>, name: &str) -> (r: bool)
    ensures
        r == exists|i: int| 0 <= i < names@.len() && (#[trigger] names@[i])@ == name@,
{
    let mut i: usize = 0;
    while i < names.len()
        invariant
            i <= names@.len(),
            forall|j: int| 0 <= j < i ==> (#[trigger] names@[j])@ != name@,
        decreases names@.len() - i,
    {
        if same(names[i].as_str(), name) {
            assert(names@[i as int]@ == name@);
            return true;
        }
        i = i + 1;
    }
    false
}

pub fn class_has_table(ctx: &Ctx, class: &str) -> (r: bool)
    ensures
        r == has_table(*ctx, class@),
{
    match ctx.vtables {
        Some(v) => is_listed(&v.vals, class),
        None => false,
    }
}

/// The class to whose object the first argument of the function at the address
/// points.
pub fn this_class_of(ctx: &Ctx, va: Va) -> (r: Option<String>)
    ensures
        text_of(r) == this_class_at(*ctx, va),
{
    match ctor_class(ctx, va) {
        Some(c) => {
            return Some(c);
        },
        None => {},
    }
    match crate::devirt::exact_name(ctx.symbols, va) {
        None => {
            return None;
        },
        Some(n) => match member_function_class(drop_module(n.as_str())) {
            Some(c) => {
                return Some(c);
            },
            None => {},
        },
    }
    match qualified_name(ctx, va) {
        None => None,
        Some(q) => match enclosing_class(q.as_str()) {
            None => None,
            Some(class) => {
                if class_has_table(ctx, class) {
                    Some(String::from_str(class))
                } else {
                    None
                }
            },
        },
    }
}

// ---------------------------------------------------------------------------
// Copies of a pointer
// ---------------------------------------------------------------------------

/// How many rounds a closure over copies takes.
pub const MAX_ALIAS_ROUNDS: usize = 8;

/// A variable and a constant distance from it, under casts.
pub open spec fn field_address(e: MicroExpr) -> Option<(Seq<char>, i64)> {
    match peeled(e, MAX_COPY_DEPTH as nat) {
        MicroExpr::Var(n) => Some((n@, 0)),
        MicroExpr::Binary(BinOp::Add, l, r) => var_plus(
            peeled(*l, MAX_COPY_DEPTH as nat),
            peeled(*r, MAX_COPY_DEPTH as nat),
        ),
        _ => None,
    }
}

/// Recognizes the address of a field: a variable and a constant distance from
/// it, in either order.
pub fn as_base_offset(addr: &MicroExpr) -> (out: Option<(&String, i64)>)
    ensures
        match (out, field_address(*addr)) {
            (Some((n, o)), Some((m, p))) => n@ == m && o == p,
            (None, None) => true,
            _ => false,
        },
{
    match peel(addr) {
        MicroExpr::Var(n) => Some((n, 0)),
        MicroExpr::Binary(op, l, r) => match op {
            BinOp::Add => as_var_plus(peel(l), peel(r)),
            _ => None,
        },
        _ => None,
    }
}

/// The names that the first `k` statements add to the copies in `set`.
pub open spec fn copies_in(stmts: Seq<SsaStmt>, k: int, set: Set<Seq<char>>) -> Set<Seq<char>>
    decreases k,
{
    if k <= 0 {
        set
    } else {
        let done = copies_in(stmts, k - 1, set);
        match stmts[k - 1].stmt {
            MicroStmt::Assign { dst, value } => match peeled(value, MAX_COPY_DEPTH as nat) {
                MicroExpr::Var(src) => if done.contains(src@) {
                    done.insert(dst@)
                } else {
                    done
                },
                _ => done,
            },
            _ => done,
        }
    }
}

/// One round of copies through the first `b` blocks.
pub open spec fn copies_round(blocks: Seq<SsaBlock>, b: int, set: Set<Seq<char>>) -> Set<Seq<char>>
    decreases b,
{
    if b <= 0 {
        set
    } else {
        copies_in(blocks[b - 1].stmts@, blocks[b - 1].stmts@.len() as int, copies_round(blocks, b - 1, set))
    }
}

/// `n` rounds of copies.
pub open spec fn copies_of(blocks: Seq<SsaBlock>, set: Set<Seq<char>>, n: nat) -> Set<Seq<char>>
    decreases n,
{
    if n == 0 {
        set
    } else {
        copies_of(blocks, copies_round(blocks, blocks.len() as int, set), (n - 1) as nat)
    }
}

/// Every name that holds the pointer `this`.
pub open spec fn aliases_of(blocks: Seq<SsaBlock>, this: Seq<char>) -> Set<Seq<char>> {
    copies_of(blocks, Set::<Seq<char>>::empty().insert(this), MAX_ALIAS_ROUNDS as nat)
}

proof fn lemma_copies_stable(blocks: Seq<SsaBlock>, set: Set<Seq<char>>, n: nat)
    requires
        copies_round(blocks, blocks.len() as int, set) == set,
    ensures
        copies_of(blocks, set, n) == set,
    decreases n,
{
    if n > 0 {
        lemma_copies_stable(blocks, set, (n - 1) as nat);
    }
}

proof fn lemma_copies_in_grow(stmts: Seq<SsaStmt>, k: int, set: Set<Seq<char>>)
    ensures
        set.subset_of(copies_in(stmts, k, set)),
    decreases k,
{
    if k > 0 {
        lemma_copies_in_grow(stmts, k - 1, set);
    }
}

proof fn lemma_copies_round_grow(blocks: Seq<SsaBlock>, b: int, set: Set<Seq<char>>)
    ensures
        set.subset_of(copies_round(blocks, b, set)),
    decreases b,
{
    if b > 0 {
        lemma_copies_round_grow(blocks, b - 1, set);
        lemma_copies_in_grow(
            blocks[b - 1].stmts@,
            blocks[b - 1].stmts@.len() as int,
            copies_round(blocks, b - 1, set),
        );
    }
}

/// The pointer is one of its own copies, and so is whatever was one before.
pub proof fn copies_only_grow(blocks: Seq<SsaBlock>, set: Set<Seq<char>>, n: nat)
    ensures
        set.subset_of(copies_of(blocks, set, n)),
    decreases n,
{
    if n > 0 {
        let next = copies_round(blocks, blocks.len() as int, set);
        lemma_copies_round_grow(blocks, blocks.len() as int, set);
        copies_only_grow(blocks, next, (n - 1) as nat);
    }
}

fn copy_stmts(stmts: &Vec<SsaStmt>, set: &mut NameSet) -> (changed: bool)
    requires
        old(set).wf(),
    ensures
        final(set).wf(),
        final(set).set() == copies_in(stmts@, stmts@.len() as int, old(set).set()),
        !changed ==> final(set).set() == old(set).set(),
{
    let mut changed = false;
    let mut k: usize = 0;
    while k < stmts.len()
        invariant
            k <= stmts@.len(),
            set.wf(),
            set.set() == copies_in(stmts@, k as int, old(set).set()),
            !changed ==> set.set() == old(set).set(),
        decreases stmts@.len() - k,
    {
        match &stmts[k].stmt {
            MicroStmt::Assign { dst, value } => match peel(value) {
                MicroExpr::Var(src) => {
                    if set.contains(src) {
                        let ghost before = set.set();
                        let fresh = set.insert(dst.clone());
                        if fresh {
                            changed = true;
                        } else {
                            assert(set.set() =~= before);
                        }
                    }
                },
                _ => {},
            },
            _ => {},
        }
        k = k + 1;
    }
    changed
}

/// Every name that holds the pointer `this`: the name itself and whatever plain
/// copies carry it to.
pub fn alias_set(blocks: &Vec<SsaBlock>, this: &str) -> (set: NameSet)
    ensures
        set.wf(),
        set.set() == aliases_of(blocks@, this@),
{
    let mut set: NameSet = SortedSet::new();
    set.insert(String::from_str(this));
    let ghost first = set.set();
    let ghost all = copies_of(blocks@, first, MAX_ALIAS_ROUNDS as nat);
    assert(first =~= Set::<Seq<char>>::empty().insert(this@));
    let mut n: usize = MAX_ALIAS_ROUNDS;
    let mut going = true;
    while going && n > 0
        invariant
            set.wf(),
            copies_of(blocks@, set.set(), n as nat) == all,
            !going ==> set.set() == all,
        decreases n, going as int,
    {
        let ghost start = set.set();
        let mut changed = false;
        let mut b: usize = 0;
        while b < blocks.len()
            invariant
                b <= blocks@.len(),
                set.wf(),
                set.set() == copies_round(blocks@, b as int, start),
                !changed ==> set.set() == start,
            decreases blocks@.len() - b,
        {
            let more = copy_stmts(&blocks[b].stmts, &mut set);
            changed = changed || more;
            b = b + 1;
        }
        n = n - 1;
        if !changed {
            proof {
                lemma_copies_stable(blocks@, start, n as nat);
            }
            going = false;
        }
    }
    set
}

// ---------------------------------------------------------------------------
// Results returned through a buffer
// ---------------------------------------------------------------------------

/// The names and the stack slots that the first argument reaches.
pub ghost struct Reach<'a> {
    pub names: Set<Seq<char>>,
    pub slots: Seq<&'a MicroExpr>,
}

/// Some slot is addressed like this.
pub open spec fn in_slots(slots: Seq<&MicroExpr>, e: MicroExpr) -> bool {
    exists|i: int| 0 <= i < slots.len() && alike(*(#[trigger] slots[i]), e)
}

/// The name is reached, or a version of the register is meant.
pub open spec fn is_known(names: Set<Seq<char>>, reg: Seq<char>, v: Seq<char>) -> bool {
    names.contains(v) || root_name(v) == reg
}

/// Some of the first `k` inputs is known.
pub open spec fn input_known(names: Set<Seq<char>>, reg: Seq<char>, inputs: Seq<PhiInput>, k: int) -> bool {
    exists|i: int| 0 <= i < k && is_known(names, reg, (#[trigger] inputs[i]).value@)
}

/// What the first `k` phis add.
pub open spec fn reach_phis<'a>(phis: Seq<Phi>, k: int, reg: Seq<char>, r: Reach<'a>) -> Reach<'a>
    decreases k,
{
    if k <= 0 {
        r
    } else {
        let done = reach_phis(phis, k - 1, reg, r);
        if input_known(done.names, reg, phis[k - 1].inputs@, phis[k - 1].inputs@.len() as int) {
            Reach { names: done.names.insert(phis[k - 1].dst@), slots: done.slots }
        } else {
            done
        }
    }
}

/// What one statement adds: a copy of what is known, a load from a slot, or a
/// slot that something known is stored to.
pub open spec fn reach_stmt<'a>(s: MicroStmt, reg: Seq<char>, r: Reach<'a>) -> Reach<'a> {
    match s {
        MicroStmt::Assign { dst, value } => match peeled(value, MAX_COPY_DEPTH as nat) {
            MicroExpr::Var(src) => if is_known(r.names, reg, src@) {
                Reach { names: r.names.insert(dst@), slots: r.slots }
            } else {
                r
            },
            MicroExpr::Load { addr, .. } => if in_slots(r.slots, *addr) {
                Reach { names: r.names.insert(dst@), slots: r.slots }
            } else {
                r
            },
            _ => r,
        },
        MicroStmt::Store { addr, value, .. } => match peeled(value, MAX_COPY_DEPTH as nat) {
            MicroExpr::Var(v) => if is_known(r.names, reg, v@) && !in_slots(r.slots, addr) {
                Reach { names: r.names, slots: r.slots.push(&addr) }
            } else {
                r
            },
            _ => r,
        },
        _ => r,
    }
}

/// What the first `k` statements add.
pub open spec fn reach_stmts<'a>(stmts: Seq<SsaStmt>, k: int, reg: Seq<char>, r: Reach<'a>) -> Reach<'a>
    decreases k,
{
    if k <= 0 {
        r
    } else {
        reach_stmt(stmts[k - 1].stmt, reg, reach_stmts(stmts, k - 1, reg, r))
    }
}

/// One round through the first `b` blocks: the phis of a block come first.
pub open spec fn reach_round<'a>(blocks: Seq<SsaBlock>, b: int, reg: Seq<char>, r: Reach<'a>) -> Reach<'a>
    decreases b,
{
    if b <= 0 {
        r
    } else {
        let done = reach_round(blocks, b - 1, reg, r);
        let blk = blocks[b - 1];
        reach_stmts(
            blk.stmts@,
            blk.stmts@.len() as int,
            reg,
            reach_phis(blk.phis@, blk.phis@.len() as int, reg, done),
        )
    }
}

/// `n` rounds.
pub open spec fn reach_of<'a>(blocks: Seq<SsaBlock>, reg: Seq<char>, r: Reach<'a>, n: nat) -> Reach<'a>
    decreases n,
{
    if n == 0 {
        r
    } else {
        reach_of(blocks, reg, reach_round(blocks, blocks.len() as int, reg, r), (n - 1) as nat)
    }
}

/// The statement returns something that is known, or loads it from a slot.
pub open spec fn returns_known(s: MicroStmt, reg: Seq<char>, r: Reach) -> bool {
    match s {
        MicroStmt::Return(Some(e)) => match peeled(e, MAX_COPY_DEPTH as nat) {
            MicroExpr::Var(v) => is_known(r.names, reg, v@),
            MicroExpr::Load { addr, .. } => in_slots(r.slots, *addr),
            _ => false,
        },
        _ => false,
    }
}

/// Some statement of the first `b` blocks returns something that is known.
pub open spec fn some_return(blocks: Seq<SsaBlock>, b: int, reg: Seq<char>, r: Reach) -> bool {
    exists|j: int, i: int|
        0 <= j < b && 0 <= i < blocks[j].stmts@.len() && returns_known(
            (#[trigger] blocks[j].stmts@[i]).stmt,
            reg,
            r,
        )
}

/// The function returns its own first argument: the buffer that a caller passes
/// for a large result must be handed back.
pub open spec fn hands_back(blocks: Seq<SsaBlock>, aliases: Set<Seq<char>>, this: Seq<char>) -> bool {
    let reg = root_name(this);
    some_return(
        blocks,
        blocks.len() as int,
        reg,
        reach_of(blocks, reg, Reach { names: aliases, slots: Seq::empty() }, MAX_ALIAS_ROUNDS as nat),
    )
}

fn find_slot(slots: &Vec<&MicroExpr>, e: &MicroExpr) -> (r: bool)
    ensures
        r == in_slots(slots@, *e),
{
    let mut i: usize = 0;
    while i < slots.len()
        invariant
            i <= slots@.len(),
            forall|j: int| 0 <= j < i ==> !alike(*(#[trigger] slots@[j]), *e),
        decreases slots@.len() - i,
    {
        if same_expr(slots[i], e) {
            assert(alike(*slots@[i as int], *e));
            return true;
        }
        i = i + 1;
    }
    false
}

fn knows(names: &NameSet, reg: &str, v: &String) -> (r: bool)
    requires
        names.wf(),
    ensures
        r == is_known(names.set(), reg@, v@),
{
    names.contains(v) || same(before_dot(v.as_str()), reg)
}

fn knows_input(names: &NameSet, reg: &str, inputs: &Vec<PhiInput>) -> (r: bool)
    requires
        names.wf(),
    ensures
        r == input_known(names.set(), reg@, inputs@, inputs@.len() as int),
{
    let mut i: usize = 0;
    while i < inputs.len()
        invariant
            names.wf(),
            i <= inputs@.len(),
            forall|j: int| 0 <= j < i ==> !is_known(names.set(), reg@, (#[trigger] inputs@[j]).value@),
        decreases inputs@.len() - i,
    {
        if knows(names, reg, &inputs[i].value) {
            return true;
        }
        i = i + 1;
    }
    false
}

fn reach_block<'a>(b: &'a SsaBlock, reg: &str, names: &mut NameSet, slots: &mut Vec<&'a MicroExpr>) -> (changed: bool)
    requires
        old(names).wf(),
    ensures
        final(names).wf(),
        ({
            let before = Reach { names: old(names).set(), slots: old(slots)@ };
            let after = Reach { names: final(names).set(), slots: final(slots)@ };
            &&& after == reach_stmts(
                b.stmts@,
                b.stmts@.len() as int,
                reg@,
                reach_phis(b.phis@, b.phis@.len() as int, reg@, before),
            )
            &&& !changed ==> after == before
        }),
{
    let ghost before = Reach { names: names.set(), slots: slots@ };
    let mut changed = false;
    let mut k: usize = 0;
    while k < b.phis.len()
        invariant
            k <= b.phis@.len(),
            names.wf(),
            (Reach { names: names.set(), slots: slots@ }) == reach_phis(b.phis@, k as int, reg@, before),
            !changed ==> (Reach { names: names.set(), slots: slots@ }) == before,
        decreases b.phis@.len() - k,
    {
        let ghost set0 = names.set();
        if knows_input(names, reg, &b.phis[k].inputs) {
            let fresh = names.insert(b.phis[k].dst.clone());
            if fresh {
                changed = true;
            } else {
                assert(names.set() =~= set0);
            }
        }
        k = k + 1;
    }
    let ghost middle = reach_phis(b.phis@, b.phis@.len() as int, reg@, before);
    let mut i: usize = 0;
    while i < b.stmts.len()
        invariant
            i <= b.stmts@.len(),
            names.wf(),
            (Reach { names: names.set(), slots: slots@ }) == reach_stmts(b.stmts@, i as int, reg@, middle),
            !changed ==> (Reach { names: names.set(), slots: slots@ }) == before,
        decreases b.stmts@.len() - i,
    {
        let ghost set0 = names.set();
        match &b.stmts[i].stmt {
            MicroStmt::Assign { dst, value } => {
                let hit = match peel(value) {
                    MicroExpr::Var(src) => knows(names, reg, src),
                    MicroExpr::Load { addr, .. } => find_slot(slots, addr),
                    _ => false,
                };
                if hit {
                    let fresh = names.insert(dst.clone());
                    if fresh {
                        changed = true;
                    } else {
                        assert(names.set() =~= set0);
                    }
                }
            },
            MicroStmt::Store { addr, value, .. } => {
                let hit = match peel(value) {
                    MicroExpr::Var(v) => knows(names, reg, v),
                    _ => false,
                };
                if hit && !find_slot(slots, addr) {
                    slots.push(addr);
                    changed = true;
                }
            },
            _ => {},
        }
        i = i + 1;
    }
    changed
}

proof fn lemma_reach_stable(blocks: Seq<SsaBlock>, reg: Seq<char>, r: Reach, n: nat)
    requires
        reach_round(blocks, blocks.len() as int, reg, r) == r,
    ensures
        reach_of(blocks, reg, r, n) == r,
    decreases n,
{
    if n > 0 {
        lemma_reach_stable(blocks, reg, r, (n - 1) as nat);
    }
}

fn find_return(blocks: &Vec<SsaBlock>, reg: &str, names: &NameSet, slots: &Vec<&MicroExpr>) -> (r: bool)
    requires
        names.wf(),
    ensures
        r == some_return(
            blocks@,
            blocks@.len() as int,
            reg@,
            Reach { names: names.set(), slots: slots@ },
        ),
{
    let ghost reach = Reach { names: names.set(), slots: slots@ };
    let mut b: usize = 0;
    while b < blocks.len()
        invariant
            names.wf(),
            reach == (Reach { names: names.set(), slots: slots@ }),
            b <= blocks@.len(),
            !some_return(blocks@, b as int, reg@, reach),
        decreases blocks@.len() - b,
    {
        let stmts = &blocks[b].stmts;
        let mut i: usize = 0;
        while i < stmts.len()
            invariant
                names.wf(),
                reach == (Reach { names: names.set(), slots: slots@ }),
                b < blocks@.len(),
                stmts@ == blocks@[b as int].stmts@,
                i <= stmts@.len(),
                !some_return(blocks@, b as int, reg@, reach),
                forall|k: int| 0 <= k < i ==> !returns_known((#[trigger] stmts@[k]).stmt, reg@, reach),
            decreases stmts@.len() - i,
        {
            let hit = match &stmts[i].stmt {
                MicroStmt::Return(o) => match o {
                    Some(e) => match peel(e) {
                        MicroExpr::Var(v) => knows(names, reg, v),
                        MicroExpr::Load { addr, .. } => find_slot(slots, addr),
                        _ => false,
                    },
                    None => false,
                },
                _ => false,
            };
            if hit {
                assert(returns_known(blocks@[b as int].stmts@[i as int].stmt, reg@, reach));
                return true;
            }
            i = i + 1;
        }
        proof {
            assert forall|j: int, i: int|
                0 <= j < b + 1 && 0 <= i < blocks@[j].stmts@.len() implies !returns_known(
                (#[trigger] blocks@[j].stmts@[i]).stmt,
                reg@,
                reach,
            ) by {
                if j == b {
                    assert(!returns_known(stmts@[i].stmt, reg@, reach));
                }
            }
        }
        b = b + 1;
    }
    false
}

/// Does the function return its own first argument, of which `aliases` are
/// copies? It does so if it was given a buffer for its result there. The value
/// is followed through copies, joins and stack slots.
pub fn returns_first_arg(blocks: &Vec<SsaBlock>, aliases: &NameSet, this: &str) -> (r: bool)
    requires
        aliases.wf(),
    ensures
        r == hands_back(blocks@, aliases.set(), this@),
{
    let reg = before_dot(this);
    let mut names = copy_names(aliases);
    let mut slots: Vec<&MicroExpr> = Vec::new();
    let ghost start = Reach { names: names.set(), slots: slots@ };
    let ghost all = reach_of(blocks@, reg@, start, MAX_ALIAS_ROUNDS as nat);
    assert(slots@ =~= Seq::<&MicroExpr>::empty());
    let mut n: usize = MAX_ALIAS_ROUNDS;
    let mut going = true;
    while going && n > 0
        invariant
            names.wf(),
            reach_of(blocks@, reg@, Reach { names: names.set(), slots: slots@ }, n as nat) == all,
            !going ==> (Reach { names: names.set(), slots: slots@ }) == all,
        decreases n, going as int,
    {
        let ghost round = Reach { names: names.set(), slots: slots@ };
        let mut changed = false;
        let mut b: usize = 0;
        while b < blocks.len()
            invariant
                b <= blocks@.len(),
                names.wf(),
                (Reach { names: names.set(), slots: slots@ }) == reach_round(blocks@, b as int, reg@, round),
                !changed ==> (Reach { names: names.set(), slots: slots@ }) == round,
            decreases blocks@.len() - b,
        {
            let more = reach_block(&blocks[b], reg, &mut names, &mut slots);
            changed = changed || more;
            b = b + 1;
        }
        n = n - 1;
        if !changed {
            proof {
                lemma_reach_stable(blocks@, reg@, round, n as nat);
            }
            going = false;
        }
    }
    find_return(blocks, reg, &names, &slots)
}

/// Which argument holds the object: the first, or the second where the first is
/// a buffer for the result.
pub open spec fn this_index(blocks: Seq<SsaBlock>, regs: Seq<String>) -> usize {
    if regs.len() < 2 {
        0
    } else {
        let this = regs[0]@ + ".0"@;
        if hands_back(blocks, aliases_of(blocks, this), this) {
            1
        } else {
            0
        }
    }
}

/// Which argument register holds the object.
pub fn this_arg_index(blocks: &Vec<SsaBlock>, arg_regs: &Vec<String>) -> (r: usize)
    ensures
        r == this_index(blocks@, arg_regs@),
        r <= 1,
{
    if arg_regs.len() < 2 {
        return 0;
    }
    let this = arg_regs[0].clone().concat(".0");
    let aliases = alias_set(blocks, this.as_str());
    if returns_first_arg(blocks, &aliases, this.as_str()) {
        1
    } else {
        0
    }
}

// ---------------------------------------------------------------------------
// The types of fields, from one method
// ---------------------------------------------------------------------------

/// The types of the first `k` parameters, by the names with which their
/// registers enter the function.
pub open spec fn param_types(params: Seq<ParamInfo>, regs: Seq<String>, k: int) -> Map<Seq<char>, Seq<char>>
    decreases k,
{
    if k <= 0 {
        Map::empty()
    } else {
        let done = param_types(params, regs, k - 1);
        match params[k - 1].ty.name {
            Some(t) => done.insert(regs[k - 1]@ + ".0"@, t@),
            None => done,
        }
    }
}

/// As many parameters as there are argument registers for.
pub open spec fn paired(params: Seq<ParamInfo>, regs: Seq<String>) -> int {
    if params.len() <= regs.len() {
        params.len() as int
    } else {
        regs.len() as int
    }
}

/// The callees whose results the first `k` statements name.
pub open spec fn stmt_rets(stmts: Seq<SsaStmt>, k: int, m: Map<Seq<char>, u64>) -> Map<Seq<char>, u64>
    decreases k,
{
    if k <= 0 {
        m
    } else {
        let done = stmt_rets(stmts, k - 1, m);
        match stmts[k - 1].stmt {
            MicroStmt::Call { target: CallTarget::Direct { va }, ret: Some(r), .. } => done.insert(r@, va.0),
            _ => done,
        }
    }
}

/// The callees whose results the first `b` blocks name.
pub open spec fn block_rets(blocks: Seq<SsaBlock>, b: int) -> Map<Seq<char>, u64>
    decreases b,
{
    if b <= 0 {
        Map::empty()
    } else {
        stmt_rets(blocks[b - 1].stmts@, blocks[b - 1].stmts@.len() as int, block_rets(blocks, b - 1))
    }
}

/// Where the type of a stored value is found.
#[derive(Clone, Debug, PartialEq, Eq)]
pub enum ValueSrc {
    /// The type is known.
    Named(String),
    /// It is what this function returns.
    Callee(u64),
}

pub ghost enum SourceAt {
    Named(Seq<char>),
    Callee(u64),
}

pub open spec fn source_at(s: Option<ValueSrc>) -> Option<SourceAt> {
    match s {
        Some(ValueSrc::Named(t)) => Some(SourceAt::Named(t@)),
        Some(ValueSrc::Callee(c)) => Some(SourceAt::Callee(c)),
        None => None,
    }
}

/// What a method knows when its fields are typed.
pub ghost struct FieldWorld<'a> {
    pub ctx: Ctx<'a>,
    pub params: Map<Seq<char>, Seq<char>>,
    pub rets: Map<Seq<char>, u64>,
    pub copies: Map<Seq<char>, &'a MicroExpr>,
    pub aliases: Set<Seq<char>>,
    /// The types that mean the same in every function.
    pub portable: Set<Seq<char>>,
}

/// A definition that is not the variable itself.
pub open spec fn moves_on(e: MicroExpr, name: Seq<char>) -> bool {
    !(peeled(e, MAX_COPY_DEPTH as nat) matches MicroExpr::Var(n) && n@ == name)
}

/// Where the type of a value is found, through at most `k` copies.
pub open spec fn value_source(w: FieldWorld, e: MicroExpr, k: nat) -> Option<SourceAt>
    decreases k,
{
    if k == 0 {
        None
    } else {
        match peeled(e, MAX_COPY_DEPTH as nat) {
            MicroExpr::Var(n) => if w.params.contains_key(n@) {
                Some(SourceAt::Named(w.params[n@]))
            } else if w.rets.contains_key(n@) {
                Some(SourceAt::Callee(w.rets[n@]))
            } else if w.copies.contains_key(n@) && moves_on(*w.copies[n@], n@) {
                value_source(w, *w.copies[n@], (k - 1) as nat)
            } else {
                None
            },
            MicroExpr::Call { target: CallTarget::Direct { va }, .. } => Some(SourceAt::Callee(va.0)),
            _ => None,
        }
    }
}

/// The expression that a value is a copy of, through at most `k` copies.
pub open spec fn defined(copies: Map<Seq<char>, &MicroExpr>, e: MicroExpr, k: nat) -> MicroExpr
    decreases k,
{
    if k == 0 {
        peeled(e, MAX_COPY_DEPTH as nat)
    } else {
        match peeled(e, MAX_COPY_DEPTH as nat) {
            MicroExpr::Var(n) => if copies.contains_key(n@) && moves_on(*copies[n@], n@) {
                defined(copies, *copies[n@], (k - 1) as nat)
            } else {
                peeled(e, MAX_COPY_DEPTH as nat)
            },
            other => other,
        }
    }
}

pub open spec fn definition(copies: Map<Seq<char>, &MicroExpr>, e: MicroExpr) -> MicroExpr {
    defined(copies, e, MAX_COPY_DEPTH as nat)
}

/// The offset of the field that a value is the address of. The object itself
/// is no field of its own.
pub open spec fn interior_of(w: FieldWorld, e: MicroExpr) -> Option<i64> {
    let inner = match definition(w.copies, e) {
        MicroExpr::AddrOf(i) => definition(w.copies, *i),
        other => other,
    };
    match inner {
        MicroExpr::Binary(BinOp::Add, l, r) => match var_plus(
            peeled(*l, MAX_COPY_DEPTH as nat),
            peeled(*r, MAX_COPY_DEPTH as nat),
        ) {
            Some((base, off)) => if w.aliases.contains(base) && off != 0 {
                Some(off)
            } else {
                None
            },
            None => None,
        },
        _ => None,
    }
}

/// The offset of the field that a value was loaded from.
pub open spec fn loaded_of(w: FieldWorld, e: MicroExpr) -> Option<i64> {
    match definition(w.copies, e) {
        MicroExpr::Load { addr, .. } => match field_address(definition(w.copies, *addr)) {
            Some((base, off)) => if w.aliases.contains(base) {
                Some(off)
            } else {
                None
            },
            None => None,
        },
        _ => None,
    }
}

/// What has been found out about the fields so far.
pub ghost struct Claims<'a> {
    pub types: Map<i64, Seq<char>>,
    /// Offsets about which the method contradicts itself.
    pub poisoned: Set<i64>,
    /// Fields filled with the result of a function whose type is not known yet.
    pub pending: Seq<(i64, u64)>,
    /// Fields filled with values whose source says nothing.
    pub open: Seq<(i64, &'a MicroExpr)>,
}

impl<'a> Claims<'a> {
    pub open spec fn claim(self, off: i64, ty: Seq<char>) -> Claims<'a> {
        if self.types.contains_key(off) && self.types[off] != ty {
            Claims { poisoned: self.poisoned.insert(off), ..self }
        } else {
            Claims { types: self.types.insert(off, ty), ..self }
        }
    }
}

/// The type that a function returns.
pub open spec fn ret_type(ctx: Ctx, callee: u64) -> Option<Seq<char>> {
    match ctx.type_flow {
        Some(f) => f.ret_of(callee),
        None => None,
    }
}

/// What a store says about a field.
pub open spec fn store_claims<'a>(w: FieldWorld, addr: MicroExpr, value: MicroExpr, c: Claims<'a>) -> Claims<'a> {
    match field_address(addr) {
        None => c,
        Some((base, off)) => if !w.aliases.contains(base) {
            c
        } else {
            match value_source(w, value, MAX_COPY_DEPTH as nat) {
                Some(SourceAt::Named(t)) => if w.portable.contains(t) {
                    c.claim(off, t)
                } else {
                    c
                },
                Some(SourceAt::Callee(f)) => match ret_type(w.ctx, f) {
                    Some(t) => if w.portable.contains(t) {
                        c.claim(off, t)
                    } else {
                        Claims { pending: c.pending.push((off, f)), ..c }
                    },
                    None => Claims { pending: c.pending.push((off, f)), ..c },
                },
                None => Claims { open: c.open.push((off, &value)), ..c },
            }
        },
    }
}

/// What a call says about a field: one whose address goes to a constructor is
/// an object of that class, and one whose value goes to a method points to one.
pub open spec fn call_claims<'a>(w: FieldWorld, target: CallTarget, args: Seq<MicroExpr>, c: Claims<'a>) -> Claims<'a> {
    match target {
        CallTarget::Direct { va } => if args.len() == 0 {
            c
        } else {
            match interior_of(w, args[0]) {
                Some(off) => match ctor_at(w.ctx, va) {
                    Some(class) => c.claim(off, class),
                    None => c,
                },
                None => match loaded_of(w, args[0]) {
                    Some(off) => match this_class_at(w.ctx, va) {
                        Some(class) => c.claim(off, class + " *"@),
                        None => c,
                    },
                    None => c,
                },
            }
        },
        _ => c,
    }
}

/// What one statement says about the fields.
pub open spec fn stmt_claims<'a>(w: FieldWorld, s: MicroStmt, c: Claims<'a>) -> Claims<'a> {
    match s {
        MicroStmt::Store { addr, value, .. } => store_claims(w, addr, value, c),
        MicroStmt::Call { target, args, .. } => call_claims(w, target, args@, c),
        MicroStmt::Assign { value: MicroExpr::Call { target, args }, .. } => call_claims(w, target, args@, c),
        _ => c,
    }
}

pub open spec fn stmts_claims<'a>(w: FieldWorld, stmts: Seq<SsaStmt>, k: int, c: Claims<'a>) -> Claims<'a>
    decreases k,
{
    if k <= 0 {
        c
    } else {
        stmt_claims(w, stmts[k - 1].stmt, stmts_claims(w, stmts, k - 1, c))
    }
}

pub open spec fn blocks_claims<'a>(w: FieldWorld, blocks: Seq<SsaBlock>, b: int) -> Claims<'a>
    decreases b,
{
    if b <= 0 {
        Claims { types: Map::empty(), poisoned: Set::empty(), pending: Seq::empty(), open: Seq::empty() }
    } else {
        stmts_claims(w, blocks[b - 1].stmts@, blocks[b - 1].stmts@.len() as int, blocks_claims(w, blocks, b - 1))
    }
}

/// The definition of a variable by a join whose inputs agree.
#[derive(Debug, PartialEq, Eq)]
pub struct PhiDef {
    pub name: String,
    pub value: MicroExpr,
}

/// What is known of the classes of values: definitions by joins, and the class
/// of the object that each variable points to.
pub struct ValueClasses {
    pub phi_defs: Vec<PhiDef>,
    pub classes: NameMap<String>,
}

/// The definitions, with those by the first `k` joins.
pub open spec fn with_phis<'a>(
    defs: Map<Seq<char>, &'a MicroExpr>,
    phis: Seq<PhiDef>,
    k: int,
) -> Map<Seq<char>, &'a MicroExpr>
    decreases k,
{
    if k <= 0 {
        defs
    } else {
        with_phis(defs, phis, k - 1).insert(phis[k - 1].name@, &phis[k - 1].value)
    }
}

/// The pointer type of a value, by the class of the object it points to.
pub open spec fn closure_type(
    defs: Map<Seq<char>, &MicroExpr>,
    classes: Map<Seq<char>, Seq<char>>,
    portable: Set<Seq<char>>,
    e: MicroExpr,
) -> Option<Seq<char>> {
    match resolved(e, defs) {
        MicroExpr::Var(v) => if classes.contains_key(v@) && portable.contains(classes[v@] + " *"@) {
            Some(classes[v@] + " *"@)
        } else {
            None
        },
        _ => None,
    }
}

/// The claims after the first `k` open stores, and how many of them claim.
pub open spec fn closed_claims<'a>(
    defs: Map<Seq<char>, &MicroExpr>,
    classes: Map<Seq<char>, Seq<char>>,
    portable: Set<Seq<char>>,
    c: Claims<'a>,
    k: int,
) -> (Claims<'a>, nat)
    decreases k,
{
    if k <= 0 {
        (c, 0)
    } else {
        let (done, n) = closed_claims(defs, classes, portable, c, k - 1);
        match closure_type(defs, classes, portable, *c.open[k - 1].1) {
            Some(t) => (done.claim(c.open[k - 1].0, t), n + 1),
            None => (done, n),
        }
    }
}

/// What one method says about the fields of its object.
pub struct FieldFacts {
    pub types: SortedMap<i64, String>,
    pub pending: Vec<(i64, u64)>,
    /// How many claims rest on the classes of values alone.
    pub closure_typed: usize,
}

pub open spec fn offset_texts(m: Map<i64, String>) -> Map<i64, Seq<char>> {
    Map::new(|k: i64| m.contains_key(k), |k: i64| m[k]@)
}

/// The types that stand: those about which the method does not contradict
/// itself.
pub open spec fn standing(c: Claims) -> Map<i64, Seq<char>> {
    Map::new(|k: i64| c.types.contains_key(k) && !c.poisoned.contains(k), |k: i64| c.types[k])
}

/// The pending fields that are neither contradicted nor typed otherwise.
pub open spec fn still_pending(c: Claims) -> Seq<(i64, u64)> {
    c.pending.filter(|p: (i64, u64)| !c.poisoned.contains(p.0) && !standing(c).contains_key(p.0))
}

/// What a method says about the fields of its object, from its claims.
pub open spec fn facts_hold(f: FieldFacts, c: Claims, n: nat) -> bool {
    &&& f.types.wf()
    &&& offset_texts(f.types.map()) == standing(c)
    &&& f.pending@ == still_pending(c)
    &&& f.closure_typed == n
}

/// The world in which a method's fields are typed.
pub open spec fn field_world<'a>(
    ctx: Ctx<'a>,
    blocks: Seq<SsaBlock>,
    types: TypeArtifact,
    aliases: Set<Seq<char>>,
    regs: Seq<String>,
    portable: Set<Seq<char>>,
) -> FieldWorld<'a> {
    FieldWorld {
        ctx,
        params: param_types(types.signature.params@, regs, paired(types.signature.params@, regs)),
        rets: block_rets(blocks, blocks.len() as int),
        copies: block_defs(blocks, blocks.len() as int),
        aliases,
        portable,
    }
}

/// All claims of a method, and how many rest on the classes of values alone.
pub open spec fn all_claims<'a>(w: FieldWorld<'a>, blocks: Seq<SsaBlock>, values: ValueClasses) -> (Claims<'a>, nat) {
    let c = blocks_claims(w, blocks, blocks.len() as int);
    closed_claims(
        with_phis(w.copies, values.phi_defs@, values.phi_defs@.len() as int),
        texts(values.classes.map()),
        w.portable,
        c,
        c.open.len() as int,
    )
}

/// What a method knows when its fields are typed.
struct Knowledge<'a, 'b> {
    ctx: &'b Ctx<'a>,
    params: NameMap<String>,
    rets: NameMap<u64>,
    copies: Defs<'a>,
    aliases: &'b NameSet,
    portable: &'b NameSet,
}

impl<'a, 'b> Knowledge<'a, 'b> {
    spec fn wf(&self) -> bool {
        &&& self.ctx.wf()
        &&& self.params.wf()
        &&& self.rets.wf()
        &&& self.copies.wf()
        &&& self.aliases.wf()
        &&& self.portable.wf()
    }

    spec fn world(&self) -> FieldWorld<'a> {
        FieldWorld {
            ctx: *self.ctx,
            params: texts(self.params.map()),
            rets: self.rets.map(),
            copies: self.copies.map(),
            aliases: self.aliases.set(),
            portable: self.portable.set(),
        }
    }
}

/// What has been found out so far.
struct ClaimSet<'a> {
    types: SortedMap<i64, String>,
    poisoned: SortedSet<i64>,
    pending: Vec<(i64, u64)>,
    open: Vec<(i64, &'a MicroExpr)>,
}

impl<'a> ClaimSet<'a> {
    spec fn wf(&self) -> bool {
        self.types.wf() && self.poisoned.wf()
    }

    spec fn claims(&self) -> Claims<'a> {
        Claims {
            types: offset_texts(self.types.map()),
            poisoned: self.poisoned.set(),
            pending: self.pending@,
            open: self.open@,
        }
    }

    fn claim(&mut self, off: i64, ty: String)
        requires
            old(self).wf(),
        ensures
            final(self).wf(),
            final(self).claims() == old(self).claims().claim(off, ty@),
    {
        let clash = match self.types.get(&off) {
            Some(t) => !same(t.as_str(), ty.as_str()),
            None => false,
        };
        if clash {
            self.poisoned.insert(off);
        } else {
            let ghost before = self.types.map();
            let ghost text = ty@;
            self.types.insert(off, ty);
            assert(offset_texts(self.types.map()) =~= offset_texts(before).insert(off, text));
        }
    }
}

fn collect_param_types(params: &Vec<ParamInfo>, regs: &Vec<String>) -> (out: NameMap<String>)
    ensures
        out.wf(),
        texts(out.map()) == param_types(params@, regs@, paired(params@, regs@)),
{
    let mut out: NameMap<String> = SortedMap::new();
    let mut k: usize = 0;
    assert(texts(out.map()) =~= Map::<Seq<char>, Seq<char>>::empty());
    while k < params.len() && k < regs.len()
        invariant
            k <= params@.len(),
            k <= regs@.len(),
            out.wf(),
            texts(out.map()) == param_types(params@, regs@, k as int),
        decreases params@.len() - k,
    {
        let ghost before = out.map();
        match &params[k].ty.name {
            Some(t) => {
                let key = regs[k].clone().concat(".0");
                out.insert(key, t.clone());
                assert(texts(out.map()) =~= texts(before).insert(regs@[k as int]@ + ".0"@, t@));
            },
            None => {},
        }
        k = k + 1;
    }
    out
}

fn collect_stmt_rets(stmts: &Vec<SsaStmt>, rets: &mut NameMap<u64>)
    requires
        old(rets).wf(),
    ensures
        final(rets).wf(),
        final(rets).map() == stmt_rets(stmts@, stmts@.len() as int, old(rets).map()),
{
    let mut k: usize = 0;
    while k < stmts.len()
        invariant
            k <= stmts@.len(),
            rets.wf(),
            rets.map() == stmt_rets(stmts@, k as int, old(rets).map()),
        decreases stmts@.len() - k,
    {
        match &stmts[k].stmt {
            MicroStmt::Call { target, ret, .. } => match (target, ret) {
                (CallTarget::Direct { va }, Some(r)) => {
                    rets.insert(r.clone(), va.0);
                },
                _ => {},
            },
            _ => {},
        }
        k = k + 1;
    }
}

fn collect_rets(blocks: &Vec<SsaBlock>) -> (rets: NameMap<u64>)
    ensures
        rets.wf(),
        rets.map() == block_rets(blocks@, blocks@.len() as int),
{
    let mut rets: NameMap<u64> = SortedMap::new();
    let mut b: usize = 0;
    while b < blocks.len()
        invariant
            b <= blocks@.len(),
            rets.wf(),
            rets.map() == block_rets(blocks@, b as int),
        decreases blocks@.len() - b,
    {
        collect_stmt_rets(&blocks[b].stmts, &mut rets);
        b = b + 1;
    }
    rets
}

fn goes_on(e: &MicroExpr, name: &String) -> (r: bool)
    ensures
        r == moves_on(*e, name@),
{
    match peel(e) {
        MicroExpr::Var(n) => !same(n.as_str(), name.as_str()),
        _ => true,
    }
}

fn find_source<'a, 'b>(w: &Knowledge<'a, 'b>, e: &'a MicroExpr) -> (r: Option<ValueSrc>)
    requires
        w.wf(),
    ensures
        source_at(r) == value_source(w.world(), *e, MAX_COPY_DEPTH as nat),
{
    let mut cur: &'a MicroExpr = e;
    let mut k: usize = MAX_COPY_DEPTH;
    while k > 0
        invariant
            w.wf(),
            k <= MAX_COPY_DEPTH,
            value_source(w.world(), *cur, k as nat) == value_source(w.world(), *e, MAX_COPY_DEPTH as nat),
        decreases k,
    {
        match peel(cur) {
            MicroExpr::Var(n) => {
                match w.params.get(n) {
                    Some(t) => {
                        return Some(ValueSrc::Named(t.clone()));
                    },
                    None => {},
                }
                match w.rets.get(n) {
                    Some(f) => {
                        return Some(ValueSrc::Callee(*f));
                    },
                    None => {},
                }
                match w.copies.get(n) {
                    Some(next) => {
                        if goes_on(*next, n) {
                            cur = *next;
                        } else {
                            return None;
                        }
                    },
                    None => {
                        return None;
                    },
                }
            },
            MicroExpr::Call { target, .. } => {
                return match target {
                    CallTarget::Direct { va } => Some(ValueSrc::Callee(va.0)),
                    _ => None,
                };
            },
            _ => {
                return None;
            },
        }
        k = k - 1;
    }
    None
}

fn find_definition<'a>(copies: &Defs<'a>, e: &'a MicroExpr) -> (r: &'a MicroExpr)
    requires
        copies.wf(),
    ensures
        *r == definition(copies.map(), *e),
{
    let mut cur: &'a MicroExpr = e;
    let mut k: usize = MAX_COPY_DEPTH;
    while k > 0
        invariant
            copies.wf(),
            k <= MAX_COPY_DEPTH,
            defined(copies.map(), *cur, k as nat) == definition(copies.map(), *e),
        decreases k,
    {
        let here = peel(cur);
        match here {
            MicroExpr::Var(n) => match copies.get(n) {
                Some(next) => {
                    if goes_on(*next, n) {
                        cur = *next;
                    } else {
                        return here;
                    }
                },
                None => {
                    return here;
                },
            },
            _ => {
                return here;
            },
        }
        k = k - 1;
    }
    peel(cur)
}

fn interior<'a, 'b>(w: &Knowledge<'a, 'b>, e: &'a MicroExpr) -> (r: Option<i64>)
    requires
        w.wf(),
    ensures
        r == interior_of(w.world(), *e),
{
    let d = find_definition(&w.copies, e);
    let inner = match d {
        MicroExpr::AddrOf(i) => find_definition(&w.copies, i),
        _ => d,
    };
    match inner {
        MicroExpr::Binary(op, l, r) => match op {
            BinOp::Add => match as_var_plus(peel(l), peel(r)) {
                Some((base, off)) => {
                    if w.aliases.contains(base) && off != 0 {
                        Some(off)
                    } else {
                        None
                    }
                },
                None => None,
            },
            _ => None,
        },
        _ => None,
    }
}

fn loaded_field<'a, 'b>(w: &Knowledge<'a, 'b>, e: &'a MicroExpr) -> (r: Option<i64>)
    requires
        w.wf(),
    ensures
        r == loaded_of(w.world(), *e),
{
    match find_definition(&w.copies, e) {
        MicroExpr::Load { addr, .. } => match as_base_offset(find_definition(&w.copies, addr)) {
            Some((base, off)) => {
                if w.aliases.contains(base) {
                    Some(off)
                } else {
                    None
                }
            },
            None => None,
        },
        _ => None,
    }
}

fn returned(ctx: &Ctx, callee: u64) -> (r: Option<String>)
    requires
        ctx.wf(),
    ensures
        text_of(r) == ret_type(*ctx, callee),
{
    match ctx.type_flow {
        Some(f) => match f.ret(callee) {
            Some(t) => Some(String::from_str(t)),
            None => None,
        },
        None => None,
    }
}

fn claim_store<'a, 'b>(w: &Knowledge<'a, 'b>, addr: &'a MicroExpr, value: &'a MicroExpr, c: &mut ClaimSet<'a>)
    requires
        w.wf(),
        old(c).wf(),
    ensures
        final(c).wf(),
        final(c).claims() == store_claims(w.world(), *addr, *value, old(c).claims()),
{
    let (base, off) = match as_base_offset(addr) {
        Some(p) => p,
        None => {
            return ;
        },
    };
    if !w.aliases.contains(base) {
        return ;
    }
    match find_source(w, value) {
        Some(ValueSrc::Named(t)) => {
            if w.portable.contains(&t) {
                c.claim(off, t);
            }
        },
        Some(ValueSrc::Callee(f)) => match returned(w.ctx, f) {
            Some(t) => {
                if w.portable.contains(&t) {
                    c.claim(off, t);
                } else {
                    c.pending.push((off, f));
                }
            },
            None => {
                c.pending.push((off, f));
            },
        },
        None => {
            c.open.push((off, value));
        },
    }
}

fn claim_call<'a, 'b>(w: &Knowledge<'a, 'b>, target: &CallTarget, args: &'a Vec<MicroExpr>, c: &mut ClaimSet<'a>)
    requires
        w.wf(),
        old(c).wf(),
    ensures
        final(c).wf(),
        final(c).claims() == call_claims(w.world(), *target, args@, old(c).claims()),
{
    let va = match target {
        CallTarget::Direct { va } => *va,
        _ => {
            return ;
        },
    };
    if args.len() == 0 {
        return ;
    }
    match interior(w, &args[0]) {
        Some(off) => match ctor_class(w.ctx, va) {
            Some(class) => {
                c.claim(off, class);
            },
            None => {},
        },
        None => match loaded_field(w, &args[0]) {
            Some(off) => match this_class_of(w.ctx, va) {
                Some(class) => {
                    c.claim(off, class.concat(" *"));
                },
                None => {},
            },
            None => {},
        },
    }
}

fn claim_stmts<'a, 'b>(w: &Knowledge<'a, 'b>, stmts: &'a Vec<SsaStmt>, c: &mut ClaimSet<'a>)
    requires
        w.wf(),
        old(c).wf(),
    ensures
        final(c).wf(),
        final(c).claims() == stmts_claims(w.world(), stmts@, stmts@.len() as int, old(c).claims()),
{
    let mut k: usize = 0;
    while k < stmts.len()
        invariant
            w.wf(),
            c.wf(),
            k <= stmts@.len(),
            c.claims() == stmts_claims(w.world(), stmts@, k as int, old(c).claims()),
        decreases stmts@.len() - k,
    {
        match &stmts[k].stmt {
            MicroStmt::Store { addr, value, .. } => claim_store(w, addr, value, c),
            MicroStmt::Call { target, args, .. } => claim_call(w, target, args, c),
            MicroStmt::Assign { value, .. } => match value {
                MicroExpr::Call { target, args } => claim_call(w, target, args, c),
                _ => {},
            },
            _ => {},
        }
        k = k + 1;
    }
}

fn join_phis<'a>(defs: &mut Defs<'a>, phis: &'a Vec<PhiDef>)
    requires
        old(defs).wf(),
    ensures
        final(defs).wf(),
        final(defs).map() == with_phis(old(defs).map(), phis@, phis@.len() as int),
{
    let mut k: usize = 0;
    while k < phis.len()
        invariant
            k <= phis@.len(),
            defs.wf(),
            defs.map() == with_phis(old(defs).map(), phis@, k as int),
        decreases phis@.len() - k,
    {
        defs.insert(phis[k].name.clone(), &phis[k].value);
        k = k + 1;
    }
}

fn type_by_class<'a>(
    defs: &Defs<'a>,
    classes: &NameMap<String>,
    portable: &NameSet,
    e: &'a MicroExpr,
) -> (r: Option<String>)
    requires
        defs.wf(),
        classes.wf(),
        portable.wf(),
    ensures
        text_of(r) == closure_type(defs.map(), texts(classes.map()), portable.set(), *e),
{
    match resolve(e, defs) {
        MicroExpr::Var(v) => match classes.get(v) {
            Some(c) => {
                let t = c.clone().concat(" *");
                if portable.contains(&t) {
                    Some(t)
                } else {
                    None
                }
            },
            None => None,
        },
        _ => None,
    }
}

proof fn lemma_claim_len(c: Claims, off: i64, ty: Seq<char>)
    ensures
        c.claim(off, ty).open == c.open,
{
}

proof fn lemma_closed_open(
    defs: Map<Seq<char>, &MicroExpr>,
    classes: Map<Seq<char>, Seq<char>>,
    portable: Set<Seq<char>>,
    c: Claims,
    k: int,
)
    ensures
        closed_claims(defs, classes, portable, c, k).0.open == c.open,
        closed_claims(defs, classes, portable, c, k).1 <= if k >= 0 {
            k
        } else {
            0
        },
    decreases k,
{
    if k > 0 {
        lemma_closed_open(defs, classes, portable, c, k - 1);
    }
}

fn close_claims<'a>(defs: &Defs<'a>, classes: &NameMap<String>, portable: &NameSet, c: &mut ClaimSet<'a>) -> (n: usize)
    requires
        defs.wf(),
        classes.wf(),
        portable.wf(),
        old(c).wf(),
    ensures
        final(c).wf(),
        (final(c).claims(), n as nat) == closed_claims(
            defs.map(),
            texts(classes.map()),
            portable.set(),
            old(c).claims(),
            old(c).claims().open.len() as int,
        ),
{
    let mut n: usize = 0;
    let mut k: usize = 0;
    let ghost first = c.claims();
    while k < c.open.len()
        invariant
            defs.wf(),
            classes.wf(),
            portable.wf(),
            c.wf(),
            k <= c.open@.len(),
            c.open@ == first.open,
            first == old(c).claims(),
            n <= k,
            (c.claims(), n as nat) == closed_claims(
                defs.map(),
                texts(classes.map()),
                portable.set(),
                first,
                k as int,
            ),
        decreases c.open@.len() - k,
    {
        let (off, value) = c.open[k];
        match type_by_class(defs, classes, portable, value) {
            Some(t) => {
                proof {
                    lemma_claim_len(c.claims(), off, t@);
                }
                c.claim(off, t);
                assert(c.open@ == c.claims().open);
                n = n + 1;
            },
            None => {},
        }
        k = k + 1;
    }
    n
}

fn keep_standing(types: SortedMap<i64, String>, poisoned: &SortedSet<i64>) -> (out: SortedMap<i64, String>)
    requires
        types.wf(),
        poisoned.wf(),
    ensures
        out.wf(),
        offset_texts(out.map()) == Map::new(
            |k: i64| offset_texts(types.map()).contains_key(k) && !poisoned.set().contains(k),
            |k: i64| offset_texts(types.map())[k],
        ),
{
    let ghost all = types.map();
    let mut out = types;
    let mut i: usize = 0;
    let ghost gone = Set::<i64>::empty();
    while i < poisoned.items.len()
        invariant
            poisoned.wf(),
            out.wf(),
            i <= poisoned.items@.len(),
            forall|k: i64| #[trigger] gone.contains(k) ==> poisoned.set().contains(k),
            forall|j: int| 0 <= j < i ==> gone.contains(#[trigger] poisoned.items@[j]),
            forall|k: i64| #[trigger] out.map().contains_key(k) <==> all.contains_key(k) && !gone.contains(k),
            forall|k: i64| #[trigger] out.map().contains_key(k) ==> out.map()[k] == all[k],
        decreases poisoned.items@.len() - i,
    {
        let off: i64 = poisoned.items[i];
        out.remove(&off);
        proof {
            gone = gone.insert(off);
            assert(poisoned.items@[i as int] == off);
            assert(crate::sorted::holds(poisoned.items@, off)) by {
                assert(crate::sorted::SortKey::model(&poisoned.items@[i as int]) == off);
            }
        }
        i = i + 1;
    }
    proof {
        assert forall|k: i64| poisoned.set().contains(k) implies gone.contains(k) by {
            let j = choose|j: int|
                0 <= j < poisoned.items@.len() && crate::sorted::SortKey::model(&(#[trigger] poisoned.items@[j])) == k;
            assert(gone.contains(poisoned.items@[j]));
        }
        assert(offset_texts(out.map()) =~= Map::new(
            |k: i64| offset_texts(all).contains_key(k) && !poisoned.set().contains(k),
            |k: i64| offset_texts(all)[k],
        ));
    }
    out
}

fn keep_pending(pending: &Vec<(i64, u64)>, poisoned: &SortedSet<i64>, types: &SortedMap<i64, String>) -> (out: Vec<
    (i64, u64),
>)
    requires
        poisoned.wf(),
        types.wf(),
    ensures
        out@ == pending@.filter(
            |p: (i64, u64)| !poisoned.set().contains(p.0) && !offset_texts(types.map()).contains_key(p.0),
        ),
{
    let ghost f = |p: (i64, u64)| !poisoned.set().contains(p.0) && !offset_texts(types.map()).contains_key(p.0);
    let mut out: Vec<(i64, u64)> = Vec::new();
    let mut i: usize = 0;
    proof {
        reveal(Seq::filter);
    }
    while i < pending.len()
        invariant
            poisoned.wf(),
            types.wf(),
            i <= pending@.len(),
            f == (|p: (i64, u64)| !poisoned.set().contains(p.0) && !offset_texts(types.map()).contains_key(p.0)),
            out@ == pending@.take(i as int).filter(f),
        decreases pending@.len() - i,
    {
        let p = pending[i];
        proof {
            reveal(Seq::filter);
            assert(pending@.take(i + 1).drop_last() =~= pending@.take(i as int));
            assert(pending@.take(i + 1).last() == p);
        }
        if !poisoned.contains(&p.0) && types.get(&p.0).is_none() {
            out.push(p);
        }
        i = i + 1;
    }
    assert(pending@.take(i as int) =~= pending@);
    out
}

/// Types the fields of the object that a method works on, through the copies
/// `aliases` of its pointer: an object constructed in a field, a field handed to
/// a method as its object, and a value of a known type stored into a field. A
/// field about which the method contradicts itself is left out.
pub fn field_types<'a>(
    ctx: &Ctx<'a>,
    blocks: &'a Vec<SsaBlock>,
    types: &TypeArtifact,
    aliases: &NameSet,
    arg_regs: &Vec<String>,
    portable: &NameSet,
    values: &'a ValueClasses,
) -> (r: FieldFacts)
    requires
        ctx.wf(),
        aliases.wf(),
        portable.wf(),
        values.classes.wf(),
    ensures
        ({
            let w = field_world(*ctx, blocks@, *types, aliases.set(), arg_regs@, portable.set());
            let (c, n) = all_claims(w, blocks@, *values);
            facts_hold(r, c, n)
        }),
{
    let w = Knowledge {
        ctx,
        params: collect_param_types(&types.signature.params, arg_regs),
        rets: collect_rets(blocks),
        copies: collect_defs(blocks),
        aliases,
        portable,
    };
    let mut c: ClaimSet<'a> = ClaimSet {
        types: SortedMap::new(),
        poisoned: SortedSet::new(),
        pending: Vec::new(),
        open: Vec::new(),
    };
    let ghost world = field_world(*ctx, blocks@, *types, aliases.set(), arg_regs@, portable.set());
    proof {
        assert(w.world() == world);
        assert(offset_texts(c.types.map()) =~= Map::<i64, Seq<char>>::empty());
        assert(c.poisoned.set() =~= Set::<i64>::empty());
        assert(c.pending@ =~= Seq::<(i64, u64)>::empty());
        assert(c.open@ =~= Seq::<(i64, &MicroExpr)>::empty());
    }
    let mut b: usize = 0;
    while b < blocks.len()
        invariant
            w.wf(),
            w.world() == world,
            c.wf(),
            b <= blocks@.len(),
            c.claims() == blocks_claims(world, blocks@, b as int),
        decreases blocks@.len() - b,
    {
        claim_stmts(&w, &blocks[b].stmts, &mut c);
        b = b + 1;
    }
    let mut defs = w.copies;
    join_phis(&mut defs, &values.phi_defs);
    let n: usize = close_claims(&defs, &values.classes, portable, &mut c);
    let ghost all = c.claims();
    let standing_types = keep_standing(c.types, &c.poisoned);
    let pending = keep_pending(&c.pending, &c.poisoned, &standing_types);
    proof {
        assert(offset_texts(standing_types.map()) =~= standing(all));
        let f = |p: (i64, u64)|
            !all.poisoned.contains(p.0) && !offset_texts(standing_types.map()).contains_key(p.0);
        let g = |p: (i64, u64)| !all.poisoned.contains(p.0) && !standing(all).contains_key(p.0);
        assert(f =~= g);
    }
    FieldFacts { types: standing_types, pending, closure_typed: n }
}

// ---------------------------------------------------------------------------
// One method
// ---------------------------------------------------------------------------

/// What one method accesses at one offset.
#[derive(Clone, Copy, Debug, PartialEq, Eq, Structural)]
pub struct FieldSeen {
    pub bits: Bits,
    pub signed: bool,
    pub count: usize,
}

/// The sum, or the largest count where that is past it.
pub open spec fn sat_sum(a: usize, b: usize) -> usize {
    if a + b > usize::MAX {
        usize::MAX
    } else {
        (a + b) as usize
    }
}

pub open spec fn wider(a: Bits, b: Bits) -> Bits {
    if a >= b {
        a
    } else {
        b
    }
}

/// One more access to a field.
pub open spec fn seen_more(m: Map<i64, FieldSeen>, off: i64, f: FieldSeen) -> Map<i64, FieldSeen> {
    if m.contains_key(off) {
        m.insert(
            off,
            FieldSeen {
                bits: wider(m[off].bits, f.bits),
                signed: m[off].signed || f.signed,
                count: sat_sum(m[off].count, f.count),
            },
        )
    } else {
        m.insert(off, f)
    }
}

/// The accesses in the first `k` fields of one aggregate.
pub open spec fn struct_fields(t: RecoveredType, k: int, m: Map<i64, FieldSeen>) -> Map<i64, FieldSeen>
    decreases k,
{
    if k <= 0 {
        m
    } else {
        let f = t.fields@[k - 1];
        seen_more(
            struct_fields(t, k - 1, m),
            f.offset,
            FieldSeen { bits: f.size_bits, signed: f.signed, count: f.access_count },
        )
    }
}

/// The accesses in those of the first `k` aggregates that are reached through
/// the object.
pub open spec fn object_fields(structs: Seq<RecoveredType>, k: int, aliases: Set<Seq<char>>) -> Map<i64, FieldSeen>
    decreases k,
{
    if k <= 0 {
        Map::empty()
    } else {
        let done = object_fields(structs, k - 1, aliases);
        if aliases.contains(structs[k - 1].base_var@) {
            struct_fields(structs[k - 1], structs[k - 1].fields@.len() as int, done)
        } else {
            done
        }
    }
}

/// The fields that are accessed, and those that are known by their type alone.
pub open spec fn all_fields(m: Map<i64, FieldSeen>, typed: Map<i64, Seq<char>>) -> Map<i64, FieldSeen> {
    Map::new(
        |k: i64| m.contains_key(k) || typed.contains_key(k),
        |k: i64|
            if m.contains_key(k) {
                m[k]
            } else {
                FieldSeen { bits: 0, signed: false, count: 0 }
            },
    )
}

/// What the analysis of one function gave.
pub struct MethodInput {
    pub va: Va,
    /// Where its control-flow graph starts, and whether it has a block.
    pub start: Va,
    pub has_blocks: bool,
    pub blocks: Vec<SsaBlock>,
    pub types: TypeArtifact,
    pub values: ValueClasses,
    /// The registers that carry arguments, in order.
    pub arg_regs: Vec<String>,
}

/// What one method says about its class.
pub struct MethodFacts {
    pub class: String,
    pub fields: SortedMap<i64, FieldSeen>,
    pub types: SortedMap<i64, String>,
    pub pending: Vec<(i64, u64)>,
    pub closure_typed: usize,
}

/// What one method says about its class, by contents.
pub ghost struct MethodNode {
    pub class: Seq<char>,
    pub fields: Map<i64, FieldSeen>,
    pub types: Map<i64, Seq<char>>,
    pub pending: Seq<(i64, u64)>,
    pub closure_typed: nat,
}

impl MethodFacts {
    pub open spec fn wf(&self) -> bool {
        self.fields.wf() && self.types.wf()
    }

    pub open spec fn node(&self) -> MethodNode {
        MethodNode {
            class: self.class@,
            fields: self.fields.map(),
            types: offset_texts(self.types.map()),
            pending: self.pending@,
            closure_typed: self.closure_typed as nat,
        }
    }
}

/// What a function says about the class that it is a method of, by its own
/// symbol; nothing if it is none, or says nothing.
pub open spec fn method_of(ctx: Ctx, m: MethodInput, portable: Set<Seq<char>>) -> Option<MethodNode> {
    let index = this_index(m.blocks@, m.arg_regs@);
    if m.start != m.va || !m.has_blocks || index >= m.arg_regs@.len() {
        None
    } else {
        match this_class_at(ctx, m.va) {
            None => None,
            Some(class) => {
                let this = m.arg_regs@[index as int]@ + ".0"@;
                let aliases = aliases_of(m.blocks@, this);
                let w = field_world(ctx, m.blocks@, m.types, aliases, m.arg_regs@, portable);
                let (c, n) = all_claims(w, m.blocks@, m.values);
                let seen = object_fields(m.types.structs@, m.types.structs@.len() as int, aliases);
                let fields = all_fields(seen, standing(c));
                if fields == Map::<i64, FieldSeen>::empty() {
                    None
                } else {
                    Some(
                        MethodNode {
                            class,
                            fields,
                            types: standing(c),
                            pending: still_pending(c),
                            closure_typed: n,
                        },
                    )
                }
            },
        }
    }
}

fn see_field(m: &mut SortedMap<i64, FieldSeen>, off: i64, f: FieldSeen)
    requires
        old(m).wf(),
    ensures
        final(m).wf(),
        final(m).map() == seen_more(old(m).map(), off, f),
{
    let next = match m.get(&off) {
        Some(e) => FieldSeen {
            bits: if e.bits >= f.bits {
                e.bits
            } else {
                f.bits
            },
            signed: e.signed || f.signed,
            count: e.count.saturating_add(f.count),
        },
        None => f,
    };
    m.insert(off, next);
}

fn collect_fields(structs: &Vec<RecoveredType>, aliases: &NameSet) -> (m: SortedMap<i64, FieldSeen>)
    requires
        aliases.wf(),
    ensures
        m.wf(),
        m.map() == object_fields(structs@, structs@.len() as int, aliases.set()),
{
    let mut m: SortedMap<i64, FieldSeen> = SortedMap::new();
    let mut k: usize = 0;
    while k < structs.len()
        invariant
            aliases.wf(),
            m.wf(),
            k <= structs@.len(),
            m.map() == object_fields(structs@, k as int, aliases.set()),
        decreases structs@.len() - k,
    {
        let t = &structs[k];
        if aliases.contains(&t.base_var) {
            let ghost before = m.map();
            let mut i: usize = 0;
            while i < t.fields.len()
                invariant
                    m.wf(),
                    i <= t.fields@.len(),
                    m.map() == struct_fields(*t, i as int, before),
                decreases t.fields@.len() - i,
            {
                let f = t.fields[i];
                see_field(
                    &mut m,
                    f.offset,
                    FieldSeen { bits: f.size_bits, signed: f.signed, count: f.access_count },
                );
                i = i + 1;
            }
        }
        k = k + 1;
    }
    m
}

fn add_typed(fields: &mut SortedMap<i64, FieldSeen>, types: &SortedMap<i64, String>)
    requires
        old(fields).wf(),
        types.wf(),
    ensures
        final(fields).wf(),
        final(fields).map() == all_fields(old(fields).map(), offset_texts(types.map())),
{
    let ghost first = fields.map();
    let mut i: usize = 0;
    while i < types.keys.len()
        invariant
            fields.wf(),
            types.wf(),
            i <= types.keys@.len(),
            forall|k: i64| #[trigger]
                fields.map().contains_key(k) <==> first.contains_key(k) || exists|j: int|
                    0 <= j < i && #[trigger] types.keys@[j] == k,
            forall|k: i64| #[trigger]
                fields.map().contains_key(k) ==> fields.map()[k] == if first.contains_key(k) {
                    first[k]
                } else {
                    FieldSeen { bits: 0, signed: false, count: 0 }
                },
        decreases types.keys@.len() - i,
    {
        let off: i64 = types.keys[i];
        let ghost before = fields.map();
        if fields.get(&off).is_none() {
            fields.insert(off, FieldSeen { bits: 0, signed: false, count: 0 });
        }
        proof {
            assert forall|k: i64| #[trigger]
                fields.map().contains_key(k) <==> first.contains_key(k) || exists|j: int|
                    0 <= j < i + 1 && #[trigger] types.keys@[j] == k by {
                assert(fields.map().contains_key(k) <==> before.contains_key(k) || k == off);
                if k == off {
                    assert(types.keys@[i as int] == k);
                }
            }
        }
        i = i + 1;
    }
    proof {
        let want = all_fields(first, offset_texts(types.map()));
        assert forall|k: i64| #[trigger] want.contains_key(k) <==> fields.map().contains_key(k) by {
            if types.map().contains_key(k) {
                let j = crate::sorted::index_of_model(types.keys@, k);
                assert(types.keys@[j] == k);
            }
            if exists|j: int| 0 <= j < types.keys@.len() && #[trigger] types.keys@[j] == k {
                let j = choose|j: int| 0 <= j < types.keys@.len() && #[trigger] types.keys@[j] == k;
                lemma_map_at(types, j);
            }
        }
        assert(fields.map() =~= want);
    }
}

pub open spec fn opt_method(m: Option<MethodFacts>) -> Option<MethodNode> {
    match m {
        Some(f) => Some(f.node()),
        None => None,
    }
}

/// Reduces a function to what it says about the class that it is a method of.
pub fn extract<'a>(ctx: &Ctx<'a>, m: &'a MethodInput, portable: &NameSet) -> (r: Option<MethodFacts>)
    requires
        ctx.wf(),
        portable.wf(),
        m.values.classes.wf(),
    ensures
        opt_method(r) == method_of(*ctx, *m, portable.set()),
        r matches Some(f) ==> f.wf(),
{
    if m.start.0 != m.va.0 || !m.has_blocks {
        return None;
    }
    let index: usize = this_arg_index(&m.blocks, &m.arg_regs);
    if index >= m.arg_regs.len() {
        return None;
    }
    let class = match this_class_of(ctx, m.va) {
        Some(c) => c,
        None => {
            return None;
        },
    };
    let this = m.arg_regs[index].clone().concat(".0");
    let aliases = alias_set(&m.blocks, this.as_str());
    let mut fields = collect_fields(&m.types.structs, &aliases);
    let facts = field_types(ctx, &m.blocks, &m.types, &aliases, &m.arg_regs, portable, &m.values);
    add_typed(&mut fields, &facts.types);
    if fields.keys.len() == 0 {
        assert(fields.map() =~= Map::<i64, FieldSeen>::empty());
        return None;
    }
    proof {
        lemma_map_at(&fields, 0);
        assert(fields.map().contains_key(fields.keys@[0]));
    }
    Some(
        MethodFacts {
            class,
            fields,
            types: facts.types,
            pending: facts.pending,
            closure_typed: facts.closure_typed,
        },
    )
}

// ---------------------------------------------------------------------------
// All methods
// ---------------------------------------------------------------------------

/// What all methods of a class access at one offset.
#[derive(Clone, Copy, Debug, PartialEq, Eq, Structural)]
pub struct FieldSum {
    pub bits: Bits,
    pub signed: bool,
    pub count: usize,
    pub methods: usize,
}

/// What the methods of one class say about it, by contents. A type is `None`
/// where two of them disagree.
pub ghost struct ClassNode {
    pub fields: Map<i64, FieldSum>,
    pub methods: usize,
    pub types: Map<i64, Option<Seq<char>>>,
}

pub open spec fn no_class() -> ClassNode {
    ClassNode { fields: Map::empty(), methods: 0, types: Map::empty() }
}

/// A class with one more type claimed. A disagreement is never undone.
pub open spec fn claimed(t: Option<Option<Seq<char>>>, ty: Seq<char>) -> Option<Seq<char>> {
    match t {
        None => Some(ty),
        Some(None) => None,
        Some(Some(prev)) => if prev == ty {
            Some(prev)
        } else {
            None
        },
    }
}

pub open spec fn lookup(m: Map<i64, Option<Seq<char>>>, k: i64) -> Option<Option<Seq<char>>> {
    if m.contains_key(k) {
        Some(m[k])
    } else {
        None
    }
}

/// A field after one more method.
pub open spec fn summed(old_sum: Option<FieldSum>, f: FieldSeen) -> FieldSum {
    match old_sum {
        Some(s) => FieldSum {
            bits: wider(s.bits, f.bits),
            signed: s.signed || f.signed,
            count: sat_sum(s.count, f.count),
            methods: sat_sum(s.methods, 1),
        },
        None => FieldSum { bits: f.bits, signed: f.signed, count: f.count, methods: 1 },
    }
}

pub open spec fn sum_at(m: Map<i64, FieldSum>, k: i64) -> Option<FieldSum> {
    if m.contains_key(k) {
        Some(m[k])
    } else {
        None
    }
}

/// A class after one more method.
pub open spec fn merged(c: ClassNode, m: MethodNode) -> ClassNode {
    ClassNode {
        fields: Map::new(
            |k: i64| c.fields.contains_key(k) || m.fields.contains_key(k),
            |k: i64|
                if m.fields.contains_key(k) {
                    summed(sum_at(c.fields, k), m.fields[k])
                } else {
                    c.fields[k]
                },
        ),
        methods: sat_sum(c.methods, 1),
        types: Map::new(
            |k: i64| c.types.contains_key(k) || m.types.contains_key(k),
            |k: i64|
                if m.types.contains_key(k) {
                    claimed(lookup(c.types, k), m.types[k])
                } else {
                    c.types[k]
                },
        ),
    }
}

/// All classes after the first `k` functions.
pub open spec fn classes_of(methods: Seq<Option<MethodNode>>, k: int) -> Map<Seq<char>, ClassNode>
    decreases k,
{
    if k <= 0 {
        Map::empty()
    } else {
        let done = classes_of(methods, k - 1);
        match methods[k - 1] {
            Some(m) => done.insert(
                m.class,
                merged(
                    if done.contains_key(m.class) {
                        done[m.class]
                    } else {
                        no_class()
                    },
                    m,
                ),
            ),
            None => done,
        }
    }
}

/// Counts over the first `k` functions: how many are methods, how many fields
/// they touch, and how many claims rest on the classes of values.
pub open spec fn counts_of(methods: Seq<Option<MethodNode>>, k: int) -> (usize, usize, usize)
    decreases k,
{
    if k <= 0 {
        (0, 0, 0)
    } else {
        let (a, b, c) = counts_of(methods, k - 1);
        match methods[k - 1] {
            Some(m) => (
                sat_sum(a, 1),
                sat_sum(b, m.fields.dom().len() as usize),
                sat_sum(c, m.closure_typed as usize),
            ),
            None => (a, b, c),
        }
    }
}

/// The type of a field as it is reported.
pub open spec fn reported_type(c: ClassNode, off: i64) -> Option<Seq<char>> {
    match lookup(c.types, off) {
        Some(t) => t,
        None => None,
    }
}

/// The field is what the methods say.
pub open spec fn field_holds(f: FieldObs, c: ClassNode) -> bool {
    &&& c.fields.contains_key(f.offset)
    &&& f.size_bits == c.fields[f.offset].bits
    &&& f.signed == c.fields[f.offset].signed
    &&& f.access_count == c.fields[f.offset].count
    &&& f.methods == c.fields[f.offset].methods
    &&& text_of(f.ty) == reported_type(c, f.offset)
    &&& f.ty_ambiguous == (lookup(c.types, f.offset) == Some(None::<Seq<char>>))
}

/// Where a field ends, in bytes from the start of the object.
pub open spec fn field_end(f: FieldObs) -> int {
    if f.offset >= 0 {
        f.offset + (f.size_bits + 7) / 8
    } else {
        0
    }
}

/// The layout is what the methods say.
pub open spec fn layout_holds(l: ClassLayout, c: ClassNode) -> bool {
    &&& l.methods == c.methods
    &&& forall|i: int| 0 <= i < l.fields@.len() ==> field_holds(#[trigger] l.fields@[i], c)
    &&& forall|i: int, j: int| 0 <= i < j < l.fields@.len() ==> (#[trigger] l.fields@[i]).offset < (
        #[trigger] l.fields@[j]).offset
    &&& forall|off: i64| #[trigger]
        c.fields.contains_key(off) ==> exists|i: int| 0 <= i < l.fields@.len() && (#[trigger] l.fields@[i]).offset == off
    &&& forall|i: int| 0 <= i < l.fields@.len() ==> field_end(#[trigger] l.fields@[i]) <= l.extent
    &&& l.extent == 0 || exists|i: int| 0 <= i < l.fields@.len() && field_end(#[trigger] l.fields@[i]) == l.extent
}

/// How many of the first `k` fields have a type, and how many are ambiguous.
pub open spec fn typed_in(fields: Seq<FieldObs>, k: int) -> (usize, usize)
    decreases k,
{
    if k <= 0 {
        (0, 0)
    } else {
        let (a, b) = typed_in(fields, k - 1);
        (
            sat_sum(
                a,
                if fields[k - 1].ty is Some {
                    1
                } else {
                    0
                },
            ),
            sat_sum(
                b,
                if fields[k - 1].ty_ambiguous {
                    1
                } else {
                    0
                },
            ),
        )
    }
}

/// The same over the first `k` classes.
pub open spec fn typed_in_all(layouts: Seq<ClassLayout>, k: int) -> (usize, usize)
    decreases k,
{
    if k <= 0 {
        (0, 0)
    } else {
        let (a, b) = typed_in_all(layouts, k - 1);
        let (x, y) = typed_in(layouts[k - 1].fields@, layouts[k - 1].fields@.len() as int);
        (sat_sum(a, x), sat_sum(b, y))
    }
}

/// The store is what all functions say.
pub open spec fn store_holds(s: LayoutStore, methods: Seq<Option<MethodNode>>) -> bool {
    let classes = classes_of(methods, methods.len() as int);
    &&& s.classes.wf()
    &&& s.classes.map().dom() == classes.dom()
    &&& forall|c: Seq<char>| #[trigger] classes.contains_key(c) ==> layout_holds(s.classes.map()[c], classes[c])
    &&& s.functions_analyzed == methods.len()
    &&& s.fields_typed_by_fixpoint == 0
    &&& (s.methods_matched, s.observations, s.claims_by_value_closure) == counts_of(methods, methods.len() as int)
    &&& (s.typed_fields, s.ambiguous_fields) == typed_in_all(s.classes.vals@, s.classes.vals@.len() as int)
}

/// What the methods of one class say about it.
struct Accum {
    fields: SortedMap<i64, FieldSum>,
    methods: usize,
    types: SortedMap<i64, Option<String>>,
}

spec fn claim_texts(m: Map<i64, Option<String>>) -> Map<i64, Option<Seq<char>>> {
    Map::new(|k: i64| m.contains_key(k), |k: i64| text_of(m[k]))
}

impl Accum {
    spec fn wf(&self) -> bool {
        self.fields.wf() && self.types.wf()
    }

    spec fn node(&self) -> ClassNode {
        ClassNode { fields: self.fields.map(), methods: self.methods, types: claim_texts(self.types.map()) }
    }

    fn new() -> (r: Accum)
        ensures
            r.wf(),
            r.node() == no_class(),
    {
        let r = Accum { fields: SortedMap::new(), methods: 0, types: SortedMap::new() };
        assert(claim_texts(r.types.map()) =~= Map::<i64, Option<Seq<char>>>::empty());
        r
    }

    /// Takes in a type that one method claims.
    fn merge_type(&mut self, off: i64, ty: &String)
        requires
            old(self).wf(),
        ensures
            final(self).wf(),
            final(self).fields == old(self).fields,
            final(self).methods == old(self).methods,
            claim_texts(final(self).types.map()) == claim_texts(old(self).types.map()).insert(
                off,
                claimed(lookup(claim_texts(old(self).types.map()), off), ty@),
            ),
    {
        let ghost before = self.types.map();
        let next: Option<String> = match self.types.get(&off) {
            Some(t) => match t {
                Some(prev) => {
                    if same(prev.as_str(), ty.as_str()) {
                        Some(prev.clone())
                    } else {
                        None
                    }
                },
                None => None,
            },
            None => Some(ty.clone()),
        };
        let ghost text = text_of(next);
        self.types.insert(off, next);
        assert(claim_texts(self.types.map()) =~= claim_texts(before).insert(off, text));
    }

    fn merge_field(&mut self, off: i64, f: FieldSeen)
        requires
            old(self).wf(),
        ensures
            final(self).wf(),
            final(self).types == old(self).types,
            final(self).methods == old(self).methods,
            final(self).fields.map() == old(self).fields.map().insert(
                off,
                summed(sum_at(old(self).fields.map(), off), f),
            ),
    {
        let next = match self.fields.get(&off) {
            Some(s) => FieldSum {
                bits: if s.bits >= f.bits {
                    s.bits
                } else {
                    f.bits
                },
                signed: s.signed || f.signed,
                count: s.count.saturating_add(f.count),
                methods: s.methods.saturating_add(1),
            },
            None => FieldSum { bits: f.bits, signed: f.signed, count: f.count, methods: 1 },
        };
        self.fields.insert(off, next);
    }

    /// Takes in what one method says.
    fn merge(&mut self, m: &MethodFacts)
        requires
            old(self).wf(),
            m.wf(),
        ensures
            final(self).wf(),
            final(self).node() == merged(old(self).node(), m.node()),
    {
        let ghost first = self.node();
        let ghost node = m.node();
        self.methods = self.methods.saturating_add(1);
        let mut i: usize = 0;
        while i < m.fields.keys.len()
            invariant
                m.wf(),
                self.wf(),
                node == m.node(),
                i <= m.fields.keys@.len(),
                self.methods == sat_sum(first.methods, 1),
                claim_texts(self.types.map()) == first.types,
                forall|k: i64| #[trigger]
                    self.fields.map().contains_key(k) <==> first.fields.contains_key(k) || exists|j: int|
                        0 <= j < i && #[trigger] m.fields.keys@[j] == k,
                forall|j: int|
                    i <= j < m.fields.keys@.len() ==> sum_at(
                        self.fields.map(),
                        #[trigger] m.fields.keys@[j],
                    ) == sum_at(first.fields, m.fields.keys@[j]),
                forall|j: int|
                    0 <= j < i ==> self.fields.map()[#[trigger] m.fields.keys@[j]] == summed(
                        sum_at(first.fields, m.fields.keys@[j]),
                        m.fields.vals@[j],
                    ),
                forall|k: i64| #[trigger]
                    first.fields.contains_key(k) && !node.fields.contains_key(k) ==> self.fields.map()[k]
                        == first.fields[k],
            decreases m.fields.keys@.len() - i,
        {
            let off: i64 = m.fields.keys[i];
            let f = m.fields.vals[i];
            let ghost before = self.fields.map();
            proof {
                assert(m.fields.keys@[i as int] == off);
                lemma_map_at(&m.fields, i as int);
            }
            self.merge_field(off, f);
            proof {
                assert forall|j: int| 0 <= j < m.fields.keys@.len() && j != i implies #[trigger] m.fields.keys@[j]
                    != off by {
                    lemma_distinct(m.fields.keys@, i as int, j);
                }
                assert forall|k: i64| #[trigger]
                    self.fields.map().contains_key(k) <==> first.fields.contains_key(k) || exists|j: int|
                        0 <= j < i + 1 && #[trigger] m.fields.keys@[j] == k by {
                    assert(self.fields.map().contains_key(k) <==> before.contains_key(k) || k == off);
                }
            }
            i = i + 1;
        }
        let ghost done = self.fields.map();
        proof {
            let want = merged(first, node).fields;
            assert forall|k: i64| #[trigger] want.contains_key(k) <==> done.contains_key(k) by {
                if node.fields.contains_key(k) {
                    let j = crate::sorted::index_of_model(m.fields.keys@, k);
                    assert(m.fields.keys@[j] == k);
                }
                if exists|j: int| 0 <= j < m.fields.keys@.len() && #[trigger] m.fields.keys@[j] == k {
                    let j = choose|j: int| 0 <= j < m.fields.keys@.len() && #[trigger] m.fields.keys@[j] == k;
                    lemma_map_at(&m.fields, j);
                }
            }
            assert forall|k: i64| #[trigger] want.contains_key(k) implies done[k] == want[k] by {
                if node.fields.contains_key(k) {
                    let j = crate::sorted::index_of_model(m.fields.keys@, k);
                    assert(m.fields.keys@[j] == k);
                    lemma_map_at(&m.fields, j);
                } else {
                    assert(first.fields.contains_key(k));
                }
            }
            assert(done =~= want);
        }
        let mut t: usize = 0;
        while t < m.types.keys.len()
            invariant
                m.wf(),
                self.wf(),
                node == m.node(),
                t <= m.types.keys@.len(),
                self.methods == sat_sum(first.methods, 1),
                self.fields.map() == done,
                forall|k: i64| #[trigger]
                    claim_texts(self.types.map()).contains_key(k) <==> first.types.contains_key(k) || exists|j: int|
                        0 <= j < t && #[trigger] m.types.keys@[j] == k,
                forall|j: int|
                    t <= j < m.types.keys@.len() ==> lookup(
                        claim_texts(self.types.map()),
                        #[trigger] m.types.keys@[j],
                    ) == lookup(first.types, m.types.keys@[j]),
                forall|j: int|
                    0 <= j < t ==> claim_texts(self.types.map())[#[trigger] m.types.keys@[j]] == claimed(
                        lookup(first.types, m.types.keys@[j]),
                        m.types.vals@[j]@,
                    ),
                forall|k: i64| #[trigger]
                    first.types.contains_key(k) && !node.types.contains_key(k) ==> claim_texts(self.types.map())[k]
                        == first.types[k],
            decreases m.types.keys@.len() - t,
        {
            let off: i64 = m.types.keys[t];
            let ghost before = claim_texts(self.types.map());
            proof {
                assert(m.types.keys@[t as int] == off);
                lemma_map_at(&m.types, t as int);
            }
            self.merge_type(off, &m.types.vals[t]);
            proof {
                assert forall|j: int| 0 <= j < m.types.keys@.len() && j != t implies #[trigger] m.types.keys@[j]
                    != off by {
                    lemma_distinct(m.types.keys@, t as int, j);
                }
                assert forall|k: i64| #[trigger]
                    claim_texts(self.types.map()).contains_key(k) <==> first.types.contains_key(k) || exists|j: int|
                        0 <= j < t + 1 && #[trigger] m.types.keys@[j] == k by {
                    assert(claim_texts(self.types.map()).contains_key(k) <==> before.contains_key(k) || k == off);
                }
            }
            t = t + 1;
        }
        proof {
            let got = claim_texts(self.types.map());
            let want = merged(first, node).types;
            assert forall|k: i64| #[trigger] want.contains_key(k) <==> got.contains_key(k) by {
                if node.types.contains_key(k) {
                    let j = crate::sorted::index_of_model(m.types.keys@, k);
                    assert(m.types.keys@[j] == k);
                }
                if exists|j: int| 0 <= j < m.types.keys@.len() && #[trigger] m.types.keys@[j] == k {
                    let j = choose|j: int| 0 <= j < m.types.keys@.len() && #[trigger] m.types.keys@[j] == k;
                    lemma_map_at(&m.types, j);
                }
            }
            assert forall|k: i64| #[trigger] want.contains_key(k) implies got[k] == want[k] by {
                if node.types.contains_key(k) {
                    let j = crate::sorted::index_of_model(m.types.keys@, k);
                    assert(m.types.keys@[j] == k);
                    lemma_map_at(&m.types, j);
                } else {
                    assert(first.types.contains_key(k));
                }
            }
            assert(got =~= want);
        }
    }
}

proof fn lemma_distinct(s: Seq<i64>, i: int, j: int)
    requires
        ascending(s),
        0 <= i < s.len(),
        0 <= j < s.len(),
        i != j,
    ensures
        s[i] != s[j],
{
    if i < j {
        assert(<i64 as crate::sorted::SortKey>::before(
            crate::sorted::SortKey::model(&s[i]),
            crate::sorted::SortKey::model(&s[j]),
        ));
    } else {
        assert(<i64 as crate::sorted::SortKey>::before(
            crate::sorted::SortKey::model(&s[j]),
            crate::sorted::SortKey::model(&s[i]),
        ));
    }
}

spec fn class_nodes(m: Map<Seq<char>, Accum>) -> Map<Seq<char>, ClassNode> {
    Map::new(|k: Seq<char>| m.contains_key(k), |k: Seq<char>| m[k].node())
}

spec fn accums_wf(m: &NameMap<Accum>) -> bool {
    m.wf() && forall|i: int| 0 <= i < m.vals@.len() ==> (#[trigger] m.vals@[i]).wf()
}

fn take_in(acc: &mut NameMap<Accum>, m: &MethodFacts)
    requires
        accums_wf(old(acc)),
        m.wf(),
    ensures
        accums_wf(final(acc)),
        class_nodes(final(acc).map()) == class_nodes(old(acc).map()).insert(
            m.class@,
            merged(
                if class_nodes(old(acc).map()).contains_key(m.class@) {
                    class_nodes(old(acc).map())[m.class@]
                } else {
                    no_class()
                },
                m.node(),
            ),
        ),
{
    let ghost before = *acc;
    let ghost want = class_nodes(before.map()).insert(
        m.class@,
        merged(
            if class_nodes(before.map()).contains_key(m.class@) {
                class_nodes(before.map())[m.class@]
            } else {
                no_class()
            },
            m.node(),
        ),
    );
    match crate::sorted::index_in(&acc.keys, &m.class) {
        Some(i) => {
            proof {
                lemma_map_at(&before, i as int);
            }
            acc.vals[i].merge(m);
            proof {
                assert forall|k: Seq<char>| #[trigger] class_nodes(acc.map()).contains_key(k) implies class_nodes(
                    acc.map(),
                )[k] == want[k] by {
                    let j = crate::sorted::index_of_model(acc.keys@, k);
                    assert(crate::sorted::holds(acc.keys@, k));
                    lemma_map_at(acc, j);
                    lemma_map_at(&before, j);
                    if k == m.class@ {
                        crate::sorted::lemma_index_unique(acc.keys@, i as int);
                    }
                }
                assert(class_nodes(acc.map()) =~= want);
            }
        },
        None => {
            let mut a = Accum::new();
            a.merge(m);
            let ghost node = a.node();
            acc.insert(m.class.clone(), a);
            proof {
                assert(!before.map().contains_key(m.class@));
                assert(class_nodes(acc.map()) =~= want);
                assert forall|i: int| 0 <= i < acc.vals@.len() implies (#[trigger] acc.vals@[i]).wf() by {
                    lemma_map_at(acc, i);
                    let k = acc.keys@[i]@;
                    if k != m.class@ {
                        assert(before.map().contains_key(k));
                        let j = crate::sorted::index_of_model(before.keys@, k);
                        lemma_map_at(&before, j);
                        assert(before.vals@[j].wf());
                    }
                }
            }
        },
    }
}

fn observe(offset: i64, s: FieldSum, claim: Option<&Option<String>>) -> (f: FieldObs)
    ensures
        f.offset == offset,
        f.size_bits == s.bits,
        f.signed == s.signed,
        f.access_count == s.count,
        f.methods == s.methods,
        match claim {
            Some(Some(t)) => text_of(f.ty) == Some(t@) && !f.ty_ambiguous,
            Some(None) => f.ty is None && f.ty_ambiguous,
            None => f.ty is None && !f.ty_ambiguous,
        },
{
    let (ty, ty_ambiguous): (Option<String>, bool) = match claim {
        Some(t) => match t {
            Some(t) => (Some(t.clone()), false),
            None => (None, true),
        },
        None => (None, false),
    };
    FieldObs {
        offset,
        size_bits: s.bits,
        signed: s.signed,
        access_count: s.count,
        methods: s.methods,
        ty,
        ty_ambiguous,
    }
}

fn end_of(offset: i64, bits: Bits) -> (e: u64)
    ensures
        e == if offset >= 0 {
            offset + (bits + 7) / 8
        } else {
            0
        },
{
    if offset >= 0 {
        offset as u64 + (bits as u64 + 7) / 8
    } else {
        0
    }
}

fn lay_out(a: &Accum) -> (l: ClassLayout)
    requires
        a.wf(),
    ensures
        layout_holds(l, a.node()),
{
    let mut fields: Vec<FieldObs> = Vec::new();
    let mut extent: u64 = 0;
    let mut i: usize = 0;
    let ghost node = a.node();
    while i < a.fields.keys.len()
        invariant
            a.wf(),
            node == a.node(),
            i <= a.fields.keys@.len(),
            fields@.len() == i,
            forall|k: int| 0 <= k < i ==> field_holds(#[trigger] fields@[k], node),
            forall|k: int| 0 <= k < i ==> (#[trigger] fields@[k]).offset == a.fields.keys@[k],
            forall|k: int| 0 <= k < i ==> field_end(#[trigger] fields@[k]) <= extent,
            extent == 0 || exists|k: int| 0 <= k < i && field_end(#[trigger] fields@[k]) == extent,
        decreases a.fields.keys@.len() - i,
    {
        let off: i64 = a.fields.keys[i];
        let sum = a.fields.vals[i];
        proof {
            lemma_map_at(&a.fields, i as int);
        }
        let f = observe(off, sum, a.types.get(&off));
        let end: u64 = end_of(off, sum.bits);
        let ghost before = fields@;
        let ghost extent0 = extent;
        fields.push(f);
        if end > extent {
            extent = end;
        }
        proof {
            assert(field_holds(f, node));
            assert(field_end(f) == end);
            assert(fields@[i as int] == f);
            assert forall|k: int| 0 <= k < i implies #[trigger] fields@[k] == before[k] by {
            }
            if extent == extent0 && extent != 0 {
                let k = choose|k: int| 0 <= k < i && field_end(#[trigger] before[k]) == extent;
                assert(field_end(fields@[k]) == extent);
            }
        }
        i = i + 1;
    }
    proof {
        assert forall|x: int, y: int| 0 <= x < y < fields@.len() implies (#[trigger] fields@[x]).offset < (
        #[trigger] fields@[y]).offset by {
            assert(<i64 as crate::sorted::SortKey>::before(
                crate::sorted::SortKey::model(&a.fields.keys@[x]),
                crate::sorted::SortKey::model(&a.fields.keys@[y]),
            ));
        }
        assert forall|off: i64| #[trigger] node.fields.contains_key(off) implies exists|k: int|
            0 <= k < fields@.len() && (#[trigger] fields@[k]).offset == off by {
            let j = crate::sorted::index_of_model(a.fields.keys@, off);
            assert(a.fields.keys@[j] == off);
            assert(fields@[j].offset == off);
        }
    }
    ClassLayout { methods: a.methods, fields, extent }
}

fn count_typed(fields: &Vec<FieldObs>) -> (r: (usize, usize))
    ensures
        r == typed_in(fields@, fields@.len() as int),
{
    let mut typed: usize = 0;
    let mut ambiguous: usize = 0;
    let mut i: usize = 0;
    while i < fields.len()
        invariant
            i <= fields@.len(),
            (typed, ambiguous) == typed_in(fields@, i as int),
        decreases fields@.len() - i,
    {
        if fields[i].ty.is_some() {
            typed = typed.saturating_add(1);
        }
        if fields[i].ty_ambiguous {
            ambiguous = ambiguous.saturating_add(1);
        }
        i = i + 1;
    }
    (typed, ambiguous)
}

fn count_all_typed(layouts: &Vec<ClassLayout>) -> (r: (usize, usize))
    ensures
        r == typed_in_all(layouts@, layouts@.len() as int),
{
    let mut typed: usize = 0;
    let mut ambiguous: usize = 0;
    let mut i: usize = 0;
    while i < layouts.len()
        invariant
            i <= layouts@.len(),
            (typed, ambiguous) == typed_in_all(layouts@, i as int),
        decreases layouts@.len() - i,
    {
        let (a, b) = count_typed(&layouts[i].fields);
        typed = typed.saturating_add(a);
        ambiguous = ambiguous.saturating_add(b);
        i = i + 1;
    }
    (typed, ambiguous)
}

fn lay_out_all(acc: &NameMap<Accum>) -> (out: NameMap<ClassLayout>)
    requires
        accums_wf(acc),
    ensures
        out.wf(),
        out.map().dom() == class_nodes(acc.map()).dom(),
        forall|c: Seq<char>| #[trigger]
            class_nodes(acc.map()).contains_key(c) ==> layout_holds(out.map()[c], class_nodes(acc.map())[c]),
{
    let mut out: NameMap<ClassLayout> = SortedMap::new();
    let ghost nodes = class_nodes(acc.map());
    let mut i: usize = 0;
    while i < acc.keys.len()
        invariant
            accums_wf(acc),
            nodes == class_nodes(acc.map()),
            out.wf(),
            i <= acc.keys@.len(),
            forall|c: Seq<char>| #[trigger]
                out.map().contains_key(c) <==> exists|j: int| 0 <= j < i && (#[trigger] acc.keys@[j])@ == c,
            forall|c: Seq<char>| #[trigger] out.map().contains_key(c) ==> layout_holds(out.map()[c], nodes[c]),
        decreases acc.keys@.len() - i,
    {
        let ghost before = out.map();
        proof {
            lemma_map_at(acc, i as int);
        }
        let l = lay_out(&acc.vals[i]);
        out.insert(acc.keys[i].clone(), l);
        proof {
            let name = acc.keys@[i as int]@;
            assert forall|c: Seq<char>| #[trigger]
                out.map().contains_key(c) <==> exists|j: int| 0 <= j < i + 1 && (#[trigger] acc.keys@[j])@ == c by {
                assert(out.map().contains_key(c) <==> before.contains_key(c) || c == name);
                assert(before.contains_key(c) <==> exists|j: int| 0 <= j < i && (#[trigger] acc.keys@[j])@ == c);
                if c == name {
                    assert(acc.keys@[i as int]@ == c);
                }
            }
        }
        i = i + 1;
    }
    proof {
        assert forall|c: Seq<char>| #[trigger] nodes.dom().contains(c) <==> out.map().dom().contains(c) by {
            if nodes.contains_key(c) {
                let j = crate::sorted::index_of_model(acc.keys@, c);
                assert(acc.keys@[j]@ == c);
                assert(out.map().contains_key(c));
            }
            if out.map().contains_key(c) {
                let j = choose|j: int| 0 <= j < acc.keys@.len() && (#[trigger] acc.keys@[j])@ == c;
                lemma_map_at(acc, j);
            }
        }
        assert(out.map().dom() =~= nodes.dom());
        assert forall|c: Seq<char>| #[trigger] nodes.contains_key(c) implies layout_holds(out.map()[c], nodes[c]) by {
            assert(out.map().dom().contains(c));
            assert(out.map().contains_key(c));
        }
    }
    out
}

/// What each function says about its class.
pub open spec fn methods_of(ctx: Ctx, methods: Seq<MethodInput>, portable: Set<Seq<char>>) -> Seq<Option<MethodNode>> {
    methods.map_values(|m: MethodInput| method_of(ctx, m, portable))
}

/// Merges what every method says into one layout for each class.
pub fn unify<'a>(ctx: &Ctx<'a>, methods: &'a Vec<MethodInput>, portable: &NameSet) -> (store: LayoutStore)
    requires
        ctx.wf(),
        portable.wf(),
        forall|i: int| 0 <= i < methods@.len() ==> (#[trigger] methods@[i]).values.classes.wf(),
    ensures
        store_holds(store, methods_of(*ctx, methods@, portable.set())),
{
    let mut acc: NameMap<Accum> = SortedMap::new();
    let mut matched: usize = 0;
    let mut observations: usize = 0;
    let mut closure: usize = 0;
    let ghost nodes = methods_of(*ctx, methods@, portable.set());
    let mut i: usize = 0;
    assert(class_nodes(acc.map()) =~= Map::<Seq<char>, ClassNode>::empty());
    while i < methods.len()
        invariant
            ctx.wf(),
            portable.wf(),
            forall|i: int| 0 <= i < methods@.len() ==> (#[trigger] methods@[i]).values.classes.wf(),
            nodes == methods_of(*ctx, methods@, portable.set()),
            accums_wf(&acc),
            i <= methods@.len(),
            class_nodes(acc.map()) == classes_of(nodes, i as int),
            (matched, observations, closure) == counts_of(nodes, i as int),
        decreases methods@.len() - i,
    {
        assert(methods@[i as int].values.classes.wf());
        match extract(ctx, &methods[i], portable) {
            Some(m) => {
                proof {
                    assert(nodes[i as int] == Some(m.node()));
                    crate::sorted::lemma_map_len(&m.fields);
                }
                matched = matched.saturating_add(1);
                observations = observations.saturating_add(m.fields.keys.len());
                closure = closure.saturating_add(m.closure_typed);
                take_in(&mut acc, &m);
            },
            None => {
                assert(nodes[i as int] == None::<MethodNode>);
            },
        }
        i = i + 1;
    }
    let classes = lay_out_all(&acc);
    let (typed_fields, ambiguous_fields) = count_all_typed(&classes.vals);
    LayoutStore {
        classes,
        functions_analyzed: methods.len(),
        methods_matched: matched,
        observations,
        typed_fields,
        ambiguous_fields,
        fields_typed_by_fixpoint: 0,
        claims_by_value_closure: closure,
    }
}

/// Which functions make up the program.
pub struct ClassLayoutInput {
    pub methods: Vec<MethodInput>,
    /// The types that mean the same in every function.
    pub portable: NameSet,
}

/// Merges what functions recover about fields into one layout for each class.
pub struct ClassLayoutPass;

impl ClassLayoutPass {
    pub fn name(&self) -> (r: &'static str)
        ensures
            r@ == "function.layout"@,
    {
        "function.layout"
    }

    pub fn run<'a>(&self, ctx: &Ctx<'a>, input: &'a ClassLayoutInput) -> (r: Result<LayoutStore, CoreError>)
        requires
            ctx.wf(),
            input.portable.wf(),
            forall|i: int| 0 <= i < input.methods@.len() ==> (#[trigger] input.methods@[i]).values.classes.wf(),
        ensures
            r matches Ok(store) && store_holds(store, methods_of(*ctx, input.methods@, input.portable.set())),
    {
        Ok(unify(ctx, &input.methods, &input.portable))
    }
}

// ---------------------------------------------------------------------------
// Laws
// ---------------------------------------------------------------------------

/// Once two methods disagree about the type of a field, no further method
/// settles it.
pub proof fn a_disagreement_is_never_undone(c: ClassNode, m: MethodNode, off: i64)
    requires
        lookup(c.types, off) == Some(None::<Seq<char>>),
    ensures
        lookup(merged(c, m).types, off) == Some(None::<Seq<char>>),
{
}

/// A further method neither drops a field nor makes it narrower.
pub proof fn layouts_only_grow(c: ClassNode, m: MethodNode, off: i64)
    requires
        c.fields.contains_key(off),
    ensures
        merged(c, m).fields.contains_key(off),
        merged(c, m).fields[off].bits >= c.fields[off].bits,
        c.fields[off].signed ==> merged(c, m).fields[off].signed,
        merged(c, m).fields[off].methods >= c.fields[off].methods,
{
}

/// The order in which two methods are taken in does not matter to the size, the
/// sign and the type of a field.
pub proof fn the_order_of_methods_does_not_matter(c: ClassNode, m: MethodNode, n: MethodNode, off: i64)
    ensures
        ({
            let a = merged(merged(c, m), n);
            let b = merged(merged(c, n), m);
            &&& a.fields.contains_key(off) == b.fields.contains_key(off)
            &&& a.fields.contains_key(off) ==> a.fields[off].bits == b.fields[off].bits && a.fields[off].signed
                == b.fields[off].signed && a.fields[off].methods == b.fields[off].methods
            &&& lookup(a.types, off) == lookup(b.types, off)
            &&& a.methods == b.methods
        }),
{
}

// ---------------------------------------------------------------------------
// What methods say about their class
// ---------------------------------------------------------------------------

/// A symbol is known without the module that it is qualified with.
pub proof fn modules_come_off(module: Seq<char>, name: Seq<char>)
    requires
        forall|i: int| 0 <= i < name.len() ==> #[trigger] name[i] != '!',
    ensures
        without_module(module + seq!['!'] + name) == name,
        without_module(name) == name,
{
    crate::text::texts_are_split_at_the_last(module, '!', name);
}

/// A destructor is called by a tilde and the name of its class.
pub proof fn tildes_come_off(name: Seq<char>)
    ensures
        without_tilde(seq!['~'] + name) == name,
        name.len() > 0 && name[0] != '~' ==> without_tilde(name) == name,
{
    reveal_strlit("~");
    assert("~"@ =~= seq!['~']);
    crate::text::prefixes_and_suffixes_come_off(seq!['~'], name);
    crate::text::only_prefixes_come_off(name, "~"@);
}

/// A method whose last name repeats that of its class is a constructor, and one with a
/// tilde in front a destructor; no other name is either.
pub proof fn constructors_repeat_the_class(q: Seq<char>, class: Seq<char>, method: Seq<char>)
    requires
        scopes_of(q) == Some((class, method)),
        class.len() > 0,
        stem_of(last_part(class)).len() > 0,
    ensures
        stem_of(method) == stem_of(last_part(class)) && (method.len() == 0 || method[0] != '~') ==> constructed(q) == Some(
            class,
        ),
        constructed(q) matches Some(c) ==> c == class && stem_of(without_tilde(method)) == stem_of(last_part(class)),
        stem_of(without_tilde(method)) != stem_of(last_part(class)) ==> constructed(q) is None,
{
    if method.len() > 0 && method[0] != '~' {
        tildes_come_off(method);
    }
    if method.len() == 0 {
        reveal_strlit("~");
        assert(strip(method, "~"@) is None);
    }
}

/// The class of the object that a function works on is that of which it is a constructor
/// or destructor; failing that, the one that its name states; and failing that, the one
/// around its name where that has a table.
pub proof fn functions_work_on_the_class_of_their_name(ctx: Ctx, va: Va)
    ensures
        ctor_at(ctx, va) matches Some(c) ==> this_class_at(ctx, va) == Some(c),
        ctor_at(ctx, va) is None ==> (bare_symbol(ctx, va) matches Some(n) ==> (member_class_of(n) matches Some(c)
            ==> this_class_at(ctx, va) == Some(c))),
        bare_symbol(ctx, va) is None ==> this_class_at(ctx, va) is None,
        ctor_at(ctx, va) is None ==> (bare_symbol(ctx, va) matches Some(n) ==> (member_class_of(n) is None ==> (qualified_at(
            ctx,
            va,
        ) matches Some(q) ==> (enclosing(q) matches Some(c) ==> (this_class_at(ctx, va) is Some <==> has_table(ctx, c))
            && (has_table(ctx, c) ==> this_class_at(ctx, va) == Some(c)))))),
{
}

/// The address of a field is a variable, or a variable and a distance.
pub proof fn fields_have_a_base_and_a_distance(n: String, value: i128, bits: Bits)
    requires
        i64::MIN < value <= i64::MAX,
    ensures
        field_address(MicroExpr::Var(n)) == Some((n@, 0i64)),
        field_address(
            MicroExpr::Binary(BinOp::Add, Box::new(MicroExpr::Var(n)), Box::new(MicroExpr::Const { value, bits })),
        ) == Some((n@, value as i64)),
{
    crate::micro::distances_have_a_direction(n, value, bits);
    crate::micro::casts_come_off(MicroExpr::Var(n), false, bits, MAX_COPY_DEPTH as nat);
    crate::micro::casts_come_off(MicroExpr::Const { value, bits }, false, bits, MAX_COPY_DEPTH as nat);
    crate::micro::casts_come_off(
        MicroExpr::Binary(BinOp::Add, Box::new(MicroExpr::Var(n)), Box::new(MicroExpr::Const { value, bits })),
        false,
        bits,
        MAX_COPY_DEPTH as nat,
    );
}

/// A variable that is assigned a copy of the object is one too, and none that is assigned
/// anything else becomes one.
pub proof fn copies_hold_the_object(stmts: Seq<SsaStmt>, k: int, set: Set<Seq<char>>, n: Seq<char>)
    requires
        0 <= k < stmts.len(),
    ensures
        ({
            let done = copies_in(stmts, k, set);
            let now = copies_in(stmts, k + 1, set);
            &&& stmts[k].stmt matches MicroStmt::Assign { dst, value: MicroExpr::Var(src) } ==> (done.contains(src@)
                ==> now.contains(dst@))
            &&& !done.contains(n) && now.contains(n) ==> (stmts[k].stmt matches MicroStmt::Assign { dst, value } && dst@
                == n && (peeled(value, MAX_COPY_DEPTH as nat) matches MicroExpr::Var(src) && done.contains(src@)))
        }),
{
    match stmts[k].stmt {
        MicroStmt::Assign { dst, value } => {
            crate::micro::casts_come_off(value, false, 0, MAX_COPY_DEPTH as nat);
        },
        _ => {},
    }
}

/// The object is the first argument, unless the function hands its first argument back:
/// it is then the second.
pub proof fn the_object_is_the_first_or_second_argument(blocks: Seq<SsaBlock>, regs: Seq<String>)
    ensures
        regs.len() < 2 ==> this_index(blocks, regs) == 0,
        regs.len() >= 2 ==> {
            let this = regs[0]@ + ".0"@;
            &&& hands_back(blocks, aliases_of(blocks, this), this) ==> this_index(blocks, regs) == 1
            &&& !hands_back(blocks, aliases_of(blocks, this), this) ==> this_index(blocks, regs) == 0
        },
{
}

/// A first claim gives the field its type; the same claim again changes nothing, and
/// another one poisons the field.
pub proof fn claims_must_agree(c: Claims, off: i64, a: Seq<char>, b: Seq<char>)
    ensures
        !c.types.contains_key(off) ==> c.claim(off, a).types.contains_key(off) && c.claim(off, a).types[off] == a && c.claim(
            off,
            a,
        ).poisoned == c.poisoned,
        !c.types.contains_key(off) && a != b ==> c.claim(off, a).claim(off, b).poisoned.contains(off),
        c.types.contains_key(off) && c.types[off] == a ==> c.claim(off, a).types == c.types && c.claim(off, a).poisoned
            == c.poisoned,
        c.poisoned.contains(off) ==> !standing(c).contains_key(off),
        !c.poisoned.contains(off) && c.types.contains_key(off) ==> standing(c).contains_key(off) && standing(c)[off]
            == c.types[off],
{
    if c.types.contains_key(off) && c.types[off] == a {
        assert(c.types.insert(off, a) =~= c.types);
    }
}

/// A store to a field of the object claims the type of what is stored.
pub proof fn stores_claim_the_type_of_their_value<'a>(
    w: FieldWorld,
    n: String,
    value: i128,
    bits: Bits,
    v: String,
    c: Claims<'a>,
)
    requires
        0 <= value <= i64::MAX,
        w.aliases.contains(n@),
        w.params.contains_key(v@),
        w.portable.contains(w.params[v@]),
    ensures
        store_claims(
            w,
            MicroExpr::Binary(BinOp::Add, Box::new(MicroExpr::Var(n)), Box::new(MicroExpr::Const { value, bits })),
            MicroExpr::Var(v),
            c,
        ) == c.claim(value as i64, w.params[v@]),
{
    fields_have_a_base_and_a_distance(n, value, bits);
    crate::micro::casts_come_off(MicroExpr::Var(v), false, bits, MAX_COPY_DEPTH as nat);
}

/// A store to anything but the object claims nothing.
pub proof fn other_stores_claim_nothing<'a>(w: FieldWorld, addr: MicroExpr, value: MicroExpr, c: Claims<'a>)
    requires
        field_address(addr) matches Some((base, _)) ==> !w.aliases.contains(base),
    ensures
        store_claims(w, addr, value, c) == c,
{
}

/// A field whose address goes to a constructor is an object of the constructor's class,
/// and one whose value goes to a method points to one of the method's class.
pub proof fn calls_claim_the_class_of_their_callee<'a>(w: FieldWorld, va: Va, args: Seq<MicroExpr>, c: Claims<'a>, off: i64)
    requires
        args.len() > 0,
    ensures
        interior_of(w, args[0]) == Some(off) ==> (ctor_at(w.ctx, va) matches Some(class) ==> call_claims(
            w,
            CallTarget::Direct { va },
            args,
            c,
        ) == c.claim(off, class)),
        interior_of(w, args[0]) is None && loaded_of(w, args[0]) == Some(off) ==> (this_class_at(w.ctx, va) matches Some(
            class,
        ) ==> call_claims(w, CallTarget::Direct { va }, args, c) == c.claim(off, class + " *"@)),
        interior_of(w, args[0]) is None && loaded_of(w, args[0]) is None ==> call_claims(
            w,
            CallTarget::Direct { va },
            args,
            c,
        ) == c,
{
}

/// A field is as wide as its widest access, signed where any of them is, and counts them
/// all.
pub proof fn accesses_add_up(m: Map<i64, FieldSeen>, off: i64, f: FieldSeen, other: i64)
    ensures
        !m.contains_key(off) ==> seen_more(m, off, f)[off] == f,
        m.contains_key(off) ==> {
            let g = seen_more(m, off, f)[off];
            &&& g.bits >= f.bits && g.bits >= m[off].bits && (g.bits == f.bits || g.bits == m[off].bits)
            &&& g.signed == (f.signed || m[off].signed)
            &&& f.count + m[off].count <= usize::MAX ==> g.count == f.count + m[off].count
        },
        other != off ==> seen_more(m, off, f).contains_key(other) == m.contains_key(other),
        other != off && m.contains_key(other) ==> seen_more(m, off, f)[other] == m[other],
        seen_more(m, off, f).contains_key(off),
{
}

/// Only what is reached through the object counts as a field of it.
pub proof fn only_the_object_has_fields(structs: Seq<RecoveredType>, k: int, aliases: Set<Seq<char>>)
    requires
        0 <= k < structs.len(),
    ensures
        !aliases.contains(structs[k].base_var@) ==> object_fields(structs, k + 1, aliases) == object_fields(
            structs,
            k,
            aliases,
        ),
        aliases.contains(structs[k].base_var@) && structs[k].fields@.len() == 1 ==> object_fields(structs, k + 1, aliases)
            == seen_more(
            object_fields(structs, k, aliases),
            structs[k].fields@[0].offset,
            FieldSeen {
                bits: structs[k].fields@[0].size_bits,
                signed: structs[k].fields@[0].signed,
                count: structs[k].fields@[0].access_count,
            },
        ),
{
    reveal_with_fuel(struct_fields, 2);
}

/// A further method adds what it saw of each field to what was seen before, and counts
/// once.
pub proof fn methods_add_up(c: ClassNode, m: MethodNode, off: i64)
    ensures
        ({
            let r = merged(c, m);
            &&& c.methods < usize::MAX ==> r.methods == c.methods + 1
            &&& m.fields.contains_key(off) && !c.fields.contains_key(off) ==> r.fields.contains_key(off)
                && r.fields[off].bits == m.fields[off].bits && r.fields[off].signed == m.fields[off].signed
                && r.fields[off].count == m.fields[off].count && r.fields[off].methods == 1
            &&& m.fields.contains_key(off) && c.fields.contains_key(off) ==> r.fields[off].signed == (c.fields[off].signed
                || m.fields[off].signed) && r.fields[off].bits >= m.fields[off].bits && (c.fields[off].count
                + m.fields[off].count <= usize::MAX ==> r.fields[off].count == c.fields[off].count + m.fields[off].count)
            &&& !m.fields.contains_key(off) && c.fields.contains_key(off) ==> r.fields[off] == c.fields[off]
            &&& !m.fields.contains_key(off) && !c.fields.contains_key(off) ==> !r.fields.contains_key(off)
            &&& m.types.contains_key(off) && !c.types.contains_key(off) ==> r.types[off] == Some(m.types[off])
            &&& m.types.contains_key(off) && c.types.contains_key(off) && c.types[off] == Some(m.types[off])
                ==> r.types[off] == Some(m.types[off])
            &&& m.types.contains_key(off) && c.types.contains_key(off) && c.types[off] != Some(m.types[off])
                ==> r.types[off] is None
            &&& !m.types.contains_key(off) && c.types.contains_key(off) ==> r.types[off] == c.types[off]
        }),
{
}

/// The type of a field is the one that is reported for it, unless methods disagree.
pub proof fn fields_have_the_reported_type(l: LayoutStore, class: Seq<char>, i: int)
    requires
        l.classes.map().contains_key(class),
        0 <= i < l.classes.map()[class].fields@.len(),
        forall|j: int|
            0 <= j < i ==> (#[trigger] l.classes.map()[class].fields@[j]).offset
                != l.classes.map()[class].fields@[i].offset,
    ensures
        ({
            let f = l.classes.map()[class].fields@[i];
            &&& f.ty_ambiguous ==> l.type_of(class, f.offset) is None
            &&& !f.ty_ambiguous ==> l.type_of(class, f.offset) == text_of(f.ty)
        }),
{
    lemma_field_found(l.classes.map()[class].fields@, i, 0);
}

proof fn lemma_field_found(fields: Seq<FieldObs>, i: int, k: int)
    requires
        0 <= k <= i < fields.len(),
        forall|j: int| k <= j < i ==> (#[trigger] fields[j]).offset != fields[i].offset,
    ensures
        field_from(fields, fields[i].offset, k) == Some(i),
    decreases i - k,
{
    if k < i {
        lemma_field_found(fields, i, k + 1);
    }
}

/// A name is known if it was reached or is a version of the register; a copy of what is
/// known becomes known, and so does what is loaded from a slot to which it was stored.
pub proof fn what_is_known_spreads<'a>(s: MicroStmt, reg: Seq<char>, r: Reach<'a>, v: Seq<char>)
    ensures
        r.names.contains(v) ==> reach_stmt(s, reg, r).names.contains(v),
        s matches MicroStmt::Assign { dst, value: MicroExpr::Var(n) } ==> (r.names.contains(n@) || root_name(n@) == reg ==> (
        reach_stmt(s, reg, r).names.contains(dst@))) && (!r.names.contains(n@) && root_name(n@) != reg ==> reach_stmt(s, reg, r)
            == r),
        s matches MicroStmt::Assign { dst, value: MicroExpr::Load { addr, .. } } ==> (in_slots(r.slots, *addr) ==> reach_stmt(
            s,
            reg,
            r,
        ).names.contains(dst@)) && (!in_slots(r.slots, *addr) ==> reach_stmt(s, reg, r) == r),
        s matches MicroStmt::Store { addr, value: MicroExpr::Var(n), .. } ==> (r.names.contains(n@) || root_name(n@) == reg ==> (
        in_slots(r.slots, addr) ==> reach_stmt(s, reg, r) == r) && (!in_slots(r.slots, addr) ==> reach_stmt(s, reg, r).slots
            == r.slots.push(&addr))) && (!r.names.contains(n@) && root_name(n@) != reg ==> reach_stmt(s, reg, r) == r),
{
    reveal_with_fuel(peeled, 2);
}

/// A function hands its argument back where it returns something that is known.
pub proof fn returns_of_what_is_known_hand_it_back(s: MicroStmt, reg: Seq<char>, r: Reach)
    ensures
        s matches MicroStmt::Return(Some(MicroExpr::Var(n))) ==> (returns_known(s, reg, r) <==> r.names.contains(n@)
            || root_name(n@) == reg),
        s matches MicroStmt::Return(Some(MicroExpr::Load { addr, .. })) ==> (returns_known(s, reg, r) <==> in_slots(
            r.slots,
            *addr,
        )),
        !(s is Return) ==> !returns_known(s, reg, r),
        s matches MicroStmt::Return(None) ==> !returns_known(s, reg, r),
{
    reveal_with_fuel(peeled, 2);
}

/// A join makes a name known where one of its inputs is.
pub proof fn joins_of_what_is_known_are_known<'a>(phis: Seq<Phi>, k: int, reg: Seq<char>, r: Reach<'a>, i: int)
    requires
        0 <= k < phis.len(),
        0 <= i < phis[k].inputs@.len(),
        reach_phis(phis, k, reg, r).names.contains(phis[k].inputs@[i].value@) || root_name(phis[k].inputs@[i].value@) == reg,
    ensures
        reach_phis(phis, k + 1, reg, r).names.contains(phis[k].dst@),
{
    assert(is_known(reach_phis(phis, k, reg, r).names, reg, phis[k].inputs@[i].value@));
}

/// A parameter's register enters the function with the parameter's type.
pub proof fn parameters_enter_with_their_type(params: Seq<ParamInfo>, regs: Seq<String>, k: int)
    requires
        0 <= k < params.len(),
        k < regs.len(),
    ensures
        params[k].ty.name matches Some(t) ==> param_types(params, regs, k + 1).contains_key(regs[k]@ + ".0"@) && param_types(
            params,
            regs,
            k + 1,
        )[regs[k]@ + ".0"@] == t@,
        params[k].ty.name is None ==> param_types(params, regs, k + 1) == param_types(params, regs, k),
{
}

/// The result of a direct call is known by the last callee that it was assigned from.
pub proof fn results_come_from_their_callee(stmts: Seq<SsaStmt>, k: int, m: Map<Seq<char>, u64>)
    requires
        0 <= k < stmts.len(),
    ensures
        stmts[k].stmt matches MicroStmt::Call { target: CallTarget::Direct { va }, ret: Some(r), .. } ==> stmt_rets(
            stmts,
            k + 1,
            m,
        ) == stmt_rets(stmts, k, m).insert(r@, va.0),
        !(stmts[k].stmt matches MicroStmt::Call { target: CallTarget::Direct { va }, ret: Some(r), .. }) ==> stmt_rets(
            stmts,
            k + 1,
            m,
        ) == stmt_rets(stmts, k, m),
{
}

/// A value has the type of the parameter that it is, or of the result of the call that it
/// comes from; a copy has that of what it copies.
pub proof fn values_have_the_type_of_their_source(w: FieldWorld, n: String, k: nat, args: Vec<MicroExpr>, va: Va)
    requires
        k > 0,
    ensures
        w.params.contains_key(n@) ==> value_source(w, MicroExpr::Var(n), k) == Some(SourceAt::Named(w.params[n@])),
        !w.params.contains_key(n@) && w.rets.contains_key(n@) ==> value_source(w, MicroExpr::Var(n), k) == Some(
            SourceAt::Callee(w.rets[n@]),
        ),
        !w.params.contains_key(n@) && !w.rets.contains_key(n@) && !w.copies.contains_key(n@) ==> value_source(
            w,
            MicroExpr::Var(n),
            k,
        ) is None,
        !w.params.contains_key(n@) && !w.rets.contains_key(n@) && w.copies.contains_key(n@) && !(*w.copies[n@] is Var)
            && !(*w.copies[n@] is Cast) ==> value_source(w, MicroExpr::Var(n), k) == value_source(w, *w.copies[n@], (k - 1) as nat),
        value_source(w, MicroExpr::Call { target: CallTarget::Direct { va }, args }, k) == Some(SourceAt::Callee(va.0)),
{
    reveal_with_fuel(peeled, 2);
    reveal_with_fuel(value_source, 2);
}

/// The sum of the object and a distance is the address of a field; the object itself is
/// no field; and a load from there loads the field.
pub proof fn fields_lie_at_a_distance_from_the_object(w: FieldWorld, n: String, value: i128, bits: Bits, vbits: Bits, signed: bool)
    requires
        w.aliases.contains(n@),
        0 < value <= i64::MAX,
    ensures
        ({
            let at = MicroExpr::Binary(
                BinOp::Add,
                Box::new(MicroExpr::Var(n)),
                Box::new(MicroExpr::Const { value, bits: vbits }),
            );
            &&& interior_of(w, at) == Some(value as i64)
            &&& loaded_of(w, MicroExpr::Load { addr: Box::new(at), bits, signed }) == Some(value as i64)
            &&& !w.copies.contains_key(n@) ==> interior_of(w, MicroExpr::Var(n)) is None
        }),
{
    reveal_with_fuel(peeled, 2);
    reveal_with_fuel(defined, 2);
}

/// An open store claims a pointer to the class of the object that it stores.
pub proof fn open_stores_claim_the_class_of_their_value(
    defs: Map<Seq<char>, &MicroExpr>,
    classes: Map<Seq<char>, Seq<char>>,
    portable: Set<Seq<char>>,
    n: String,
)
    requires
        !defs.contains_key(n@),
    ensures
        classes.contains_key(n@) && portable.contains(classes[n@] + " *"@) ==> closure_type(
            defs,
            classes,
            portable,
            MicroExpr::Var(n),
        ) == Some(classes[n@] + " *"@),
        !classes.contains_key(n@) ==> closure_type(defs, classes, portable, MicroExpr::Var(n)) is None,
{
    reveal_with_fuel(crate::devirt::resolution, 2);
}

/// A type stands where nothing contradicts it, and a field waits for a callee's type where
/// it has neither.
pub proof fn contradicted_types_do_not_stand(c: Claims, off: i64)
    ensures
        c.poisoned.contains(off) ==> !standing(c).contains_key(off),
        !c.poisoned.contains(off) && c.types.contains_key(off) ==> standing(c).contains_key(off) && standing(c)[off]
            == c.types[off],
        !c.types.contains_key(off) ==> !standing(c).contains_key(off),
{
}

/// A class has what its methods say; a function that says nothing changes nothing.
pub proof fn classes_are_what_their_methods_say(methods: Seq<Option<MethodNode>>, k: int, other: Seq<char>)
    requires
        0 <= k < methods.len(),
    ensures
        methods[k] is None ==> classes_of(methods, k + 1) == classes_of(methods, k),
        methods[k] matches Some(m) ==> classes_of(methods, k + 1).contains_key(m.class) && (other != m.class ==> (
        classes_of(methods, k + 1).contains_key(other) <==> classes_of(methods, k).contains_key(other))),
        methods[k] matches Some(m) ==> (classes_of(methods, k).contains_key(m.class) && classes_of(methods, k)[m.class].methods
            < usize::MAX ==> classes_of(methods, k + 1)[m.class].methods == classes_of(methods, k)[m.class].methods + 1),
        methods[k] matches Some(m) ==> (!classes_of(methods, k).contains_key(m.class) ==> classes_of(methods, k + 1)[m.class].methods
            == 1),
{
}

/// A field ends behind its last byte, and one before the object does not extend it.
pub proof fn fields_end_behind_their_last_byte(f: FieldObs)
    ensures
        f.offset >= 0 && f.size_bits % 8 == 0 ==> field_end(f) == f.offset + f.size_bits / 8,
        f.offset >= 0 && f.size_bits % 8 != 0 ==> field_end(f) == f.offset + f.size_bits / 8 + 1,
        f.offset < 0 ==> field_end(f) == 0,
{
}

/// A field with a type counts as typed, and one about whose type methods disagree as
/// ambiguous.
pub proof fn typed_and_ambiguous_fields_are_counted(fields: Seq<FieldObs>, k: int)
    requires
        0 <= k < fields.len(),
    ensures
        ({
            let (a, b) = typed_in(fields, k);
            let (x, y) = typed_in(fields, k + 1);
            &&& fields[k].ty is None ==> x == a
            &&& fields[k].ty is Some && a < usize::MAX ==> x == a + 1
            &&& !fields[k].ty_ambiguous ==> y == b
            &&& fields[k].ty_ambiguous && b < usize::MAX ==> y == b + 1
        }),
{
}

} // verus!
