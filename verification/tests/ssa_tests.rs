use n0xis_core::arch::{FrameInfo, InsnKind};
use n0xis_core::classlayout::{
    alias_set, as_base_offset, ctor_class, ctor_class_of, field_types, qualified_part, returns_first_arg, this_arg_index,
    ClassLayout, ClassLayoutInput, ClassLayoutPass, FieldObs, LayoutStore, MethodInput, ValueClasses,
};
use n0xis_core::coalesce::{coalesce_vars, destruct_ssa};
use n0xis_core::ctx::{Ctx, FlowTypes, TypeFlow, TypeFlowLookup};
use n0xis_core::decomp::{DecompInput, DecompPass, DecompStyle};
use n0xis_core::deobfuscate::{one_operand, two_operands, Condition, DeobfuscateArtifact, DeobfuscatePass};
use n0xis_core::devirt::{as_vtable_dispatch, class_of, class_to_vtable, devirtualize, Defs, Object, TableSpan};
use n0xis_core::ir::{CfgArtifact, CfgBlock, CfgStats, IrInsn, Successor};
use n0xis_core::micro::{BinOp, CallTarget, MicroExpr, MicroStmt};
use n0xis_core::pipeline::{DecompAction, DecompEvent, DecompStage};
use n0xis_core::sorted::{NameMap, NameSet, SortedMap, SortedSet};
use n0xis_core::source::{Region, Snapshot};
use n0xis_core::ssa::{
    CType, FieldAccess, ParamInfo, Phi, PhiInput, RecoveredSignature, RecoveredType, SsaBlock, SsaStmt, TypeArtifact,
};
use n0xis_core::symbols::{SymKind, Symbol, SymbolSpan, SymbolTable};
use n0xis_core::va::Va;

fn var(n: &str) -> MicroExpr {
    MicroExpr::Var(n.to_string())
}

fn constant(value: i128, bits: u32) -> MicroExpr {
    MicroExpr::Const { value, bits }
}

fn load(addr: MicroExpr) -> MicroExpr {
    MicroExpr::Load { addr: Box::new(addr), bits: 64, signed: false }
}

fn binary(op: BinOp, l: MicroExpr, r: MicroExpr) -> MicroExpr {
    MicroExpr::Binary(op, Box::new(l), Box::new(r))
}

fn plus(b: &str, o: i128) -> MicroExpr {
    binary(BinOp::Add, var(b), constant(o, 64))
}

fn assign(dst: &str, value: MicroExpr) -> SsaStmt {
    SsaStmt { va: Va(0), stmt: MicroStmt::Assign { dst: dst.to_string(), value } }
}

fn named(n: &str) -> CType {
    CType { bits: 64, signed: false, name: Some(n.to_string()) }
}

fn empty_sig() -> RecoveredSignature {
    RecoveredSignature { params: vec![], ret: None }
}

fn succ_to(va: u64, kind: &str) -> Successor {
    Successor { to: Va(va), kind: kind.to_string(), confidence: 100 }
}

fn mk(va: u64) -> Successor {
    succ_to(va, "edge")
}

fn nothing() -> Snapshot {
    Snapshot { regions: vec![], code: vec![] }
}

fn frame() -> FrameInfo {
    FrameInfo { frame_size: 0, uses_rbp: false, spilled_regs: vec![], prolog: vec![] }
}

fn stats() -> CfgStats {
    CfgStats { returns: 0, calls: 0, indirect_branches: 0, tail_calls: 0, noreturn_calls: 0 }
}

fn mk_cfg(blocks: &[SsaBlock]) -> CfgArtifact {
    CfgArtifact {
        start: blocks[0].start,
        end: blocks.last().unwrap().end,
        block_count: blocks.len(),
        insn_count: 0,
        blocks: blocks
            .iter()
            .map(|b| CfgBlock {
                id: b.id,
                start: b.start,
                end: b.end,
                terminator: b.terminator.clone(),
                successors: b.successors.clone(),
                insns: vec![],
            })
            .collect(),
        callsites: vec![],
        switches: vec![],
        frame: frame(),
        stats: stats(),
    }
}

fn set_of(names: &[&str]) -> NameSet {
    let mut s: NameSet = SortedSet::new();
    for n in names {
        s.insert(n.to_string());
    }
    s
}

fn key(s: &str) -> String {
    s.to_string()
}

// ---- virtual calls ----

fn dispatch(this: &str, off: i128) -> MicroExpr {
    let vptr = load(var(this));
    let addr = if off == 0 { vptr } else { binary(BinOp::Add, vptr, constant(off, 64)) };
    load(addr)
}

#[test]
fn recognizes_the_dispatch_shape_and_its_slot() {
    let no_defs: Defs = SortedMap::new();
    assert_eq!(as_vtable_dispatch(&dispatch("rcx.0", 0x40), &no_defs), Some((Object::Var("rcx.0"), 0x40)));
    assert_eq!(as_vtable_dispatch(&dispatch("rcx.0", 0), &no_defs), Some((Object::Var("rcx.0"), 0)));
    let single = load(var("rcx.0"));
    assert_eq!(as_vtable_dispatch(&single, &no_defs), None);
    let computed = load(load(constant(0x1000, 64)));
    assert_eq!(as_vtable_dispatch(&computed, &no_defs), None);
}

#[test]
fn follows_the_vptr_through_the_assignment_the_optimizer_leaves() {
    let vptr_def = load(var("rcx.0"));
    let mut defs: Defs = SortedMap::new();
    defs.insert(key("v3"), &vptr_def);
    let split = load(plus("v3", 0x40));
    assert_eq!(as_vtable_dispatch(&split, &defs), Some((Object::Var("rcx.0"), 0x40)));
}

#[test]
fn recognizes_a_dispatch_through_a_field_of_the_object() {
    let field = load(plus("rcx.0", 0x30));
    let vptr = load(var("v1"));
    let mut defs: Defs = SortedMap::new();
    defs.insert(key("v1"), &field);
    defs.insert(key("v2"), &vptr);
    let call = load(plus("v2", 0x18));
    assert_eq!(as_vtable_dispatch(&call, &defs), Some((Object::Field { base: "rcx.0", offset: 0x30 }, 0x18)));
}

#[test]
fn a_field_at_offset_zero_is_still_a_field() {
    let field = load(var("rcx.0"));
    let vptr = load(var("v1"));
    let mut defs: Defs = SortedMap::new();
    defs.insert(key("v1"), &field);
    defs.insert(key("v2"), &vptr);
    let call = load(var("v2"));
    assert_eq!(as_vtable_dispatch(&call, &defs), Some((Object::Field { base: "rcx.0", offset: 0 }, 0)));
}

#[test]
fn a_cyclic_definition_terminates() {
    let a = var("b");
    let b = var("a");
    let mut defs: Defs = SortedMap::new();
    defs.insert(key("a"), &a);
    defs.insert(key("b"), &b);
    let e = load(var("a"));
    assert_eq!(as_vtable_dispatch(&e, &defs), None);
}

fn vtables(entries: &[(u64, &str)]) -> SortedMap<u64, String> {
    let mut m: SortedMap<u64, String> = SortedMap::new();
    for (va, name) in entries {
        m.insert(*va, name.to_string());
    }
    m
}

fn span(m: &NameMap<TableSpan>, class: &str) -> Option<(u64, u64)> {
    m.get(&class.to_string()).map(|s| (s.start, s.end))
}

#[test]
fn a_class_with_several_vtables_is_excluded() {
    let m = vtables(&[(0x1000, "Widget"), (0x2000, "Widget"), (0x3000, "Button"), (0x4000, "Label")]);
    let by_class = class_to_vtable(&m);
    assert_eq!(span(&by_class, "Button"), Some((0x3000, 0x4000)), "bounded by the next table");
    assert!(span(&by_class, "Widget").is_none(), "cannot tell primary from secondary — refuse");
    assert!(span(&by_class, "Label").is_none(), "the last table has no known end — refuse");
}

#[test]
fn the_slot_is_bounded_by_the_next_vtable() {
    let m = vtables(&[(0x1000, "Small"), (0x1010, "Next"), (0x2000, "Last")]);
    let by_class = class_to_vtable(&m);
    let (base, end) = span(&by_class, "Small").unwrap();
    assert_eq!((base, end), (0x1000, 0x1010));
    assert!(base + 8 <= end && base + 8 + 8 <= end);
    assert!(base + 0x10 + 8 > end, "slot 0x10 must be refused");
}

#[test]
fn only_a_real_class_name_is_tried() {
    assert_eq!(class_of("Widget *"), Some("Widget"));
    assert_eq!(class_of("Ns::Widget*"), Some("Ns::Widget"));
    assert_eq!(class_of("struct_rcx_0 *"), None, "a synthetic name is not a class");
    assert_eq!(class_of("void *"), None);
    assert_eq!(class_of("  * "), None);
    assert_eq!(class_of("uint64_t"), None, "a width type has no table");
    assert_eq!(class_of("int8_t *"), None);
    assert_eq!(class_of("uint_t"), Some("uint_t"));
    assert_eq!(class_of("Widget * *"), Some("Widget"));
    assert_eq!(class_of("int32_type"), Some("int32_type"));
}

fn widget_sig() -> TypeArtifact {
    TypeArtifact {
        locals: vec![],
        structs: vec![],
        signature: RecoveredSignature {
            params: vec![ParamInfo { reg: key("rcx"), name: key("rcx"), ty: named("Widget *") }],
            ret: None,
        },
    }
}

#[test]
fn a_virtual_call_goes_to_the_method_in_the_table() {
    let mut table = Vec::new();
    table.extend_from_slice(&0x5000u64.to_le_bytes());
    table.extend_from_slice(&0x6000u64.to_le_bytes());
    table.extend_from_slice(&0x7000u64.to_le_bytes());
    let snap = Snapshot {
        regions: vec![Region { start: Va(0x1000), bytes: table }, Region { start: Va(0x5000), bytes: vec![0xc3; 0x3000] }],
        code: vec![n0xis_core::source::CodeRange { start: Va(0x5000), size: 0x3000 }],
    };
    let vt = vtables(&[(0x1000, "Widget"), (0x1010, "Next")]);
    let syms = table_of(vec![(0x6000, 1, "Widget::paint")]);
    let ctx = Ctx::new(&snap).with_vtables(&vt).with_symbols(&syms);
    let call = |slot: i128| SsaStmt {
        va: Va(0x40),
        stmt: MicroStmt::Call { target: CallTarget::Indirect(Box::new(dispatch("rcx.0", slot))), args: vec![], ret: None },
    };
    let mut blocks = vec![SsaBlock {
        id: 0,
        start: Va(0x40),
        end: Va(0x50),
        terminator: key("ret"),
        successors: vec![],
        phis: vec![],
        stmts: vec![call(8), call(0), call(0x10)],
        condition: None,
    }];
    let found = devirtualize(&ctx, &mut blocks, &widget_sig());
    assert_eq!(found.len(), 2, "the third slot is that of another class");
    assert_eq!((found[0].name.as_str(), found[0].method, found[0].slot), ("Widget::paint", Va(0x6000), 8));
    assert_eq!((found[1].name.as_str(), found[1].method), ("Widget::vf0", Va(0x5000)));
    assert!(matches!(
        &blocks[0].stmts[0].stmt,
        MicroStmt::Call { target: CallTarget::Direct { va: Va(0x6000) }, .. }
    ));
    assert!(matches!(&blocks[0].stmts[2].stmt, MicroStmt::Call { target: CallTarget::Indirect(_), .. }));
}

#[test]
fn blocks_are_optimized_anew_only_where_a_call_was_resolved() {
    let snap = Snapshot {
        regions: vec![
            Region { start: Va(0x1000), bytes: 0x5000u64.to_le_bytes().to_vec() },
            Region { start: Va(0x5000), bytes: vec![0xc3; 0x10] },
        ],
        code: vec![n0xis_core::source::CodeRange { start: Va(0x5000), size: 0x10 }],
    };
    let vt = vtables(&[(0x1000, "Widget"), (0x1008, "Next")]);
    let syms = table_of(vec![]);
    let none: NameMap<String> = SortedMap::new();
    let blocks = || {
        let call = MicroStmt::Call {
            target: CallTarget::Indirect(Box::new(dispatch("rcx.0", 0))),
            args: vec![],
            ret: None,
        };
        vec![SsaBlock {
            id: 0,
            start: Va(0x40),
            end: Va(0x50),
            terminator: key("ret"),
            successors: vec![],
            phis: vec![],
            stmts: vec![SsaStmt { va: Va(0x40), stmt: call }],
            condition: None,
        }]
    };
    let actions = |ctx: &Ctx| {
        let input = DecompInput {
            cfg: mk_cfg(&blocks()),
            style: DecompStyle::Structured,
            explain: false,
            strip_block_labels: false,
            var_names: SortedMap::new(),
            var_types: SortedMap::new(),
            struct_defs: SortedMap::new(),
        };
        let mut st = DecompPass.begin(input);
        let mut asked = vec![];
        loop {
            let a = DecompPass.next(&st);
            asked.push(a);
            let ev = match a {
                DecompAction::Build => DecompEvent::Built(blocks()),
                DecompAction::Optimize => DecompEvent::Optimized { blocks: blocks(), delta: vec![] },
                DecompAction::Infer => DecompEvent::Inferred(widget_sig()),
                _ => return (asked, st),
            };
            st = DecompPass.step(ctx, &none, st, ev);
        }
    };
    let (asked, _) = actions(&Ctx::new(&snap));
    assert_eq!(asked, vec![DecompAction::Build, DecompAction::Optimize, DecompAction::Infer, DecompAction::Structure]);
    let (asked, st) = actions(&Ctx::new(&snap).with_vtables(&vt).with_symbols(&syms));
    assert_eq!(asked[2..], [DecompAction::Infer, DecompAction::Optimize, DecompAction::Structure]);
    match &st.stage {
        DecompStage::Ready { shown, prepared, .. } => {
            assert_eq!(prepared.devirtualized.len(), 1);
            assert!(matches!(
                &shown[0].stmts[0].stmt,
                MicroStmt::Call { target: CallTarget::Direct { va: Va(0x5000) }, .. }
            ));
        },
        _ => panic!("not ready"),
    }
}

fn table_of(entries: Vec<(u64, u64, &str)>) -> SymbolTable {
    SymbolTable {
        spans: entries
            .into_iter()
            .map(|(va, covers, name)| SymbolSpan {
                symbol: Symbol { va: Va(va), module: String::new(), name: name.to_string(), kind: SymKind::Export },
                covers,
            })
            .collect(),
        slots: vec![],
        sizes: vec![],
    }
}

// ---- class layouts ----

fn block(assigns: Vec<(&str, MicroExpr)>) -> SsaBlock {
    SsaBlock {
        id: 0,
        start: Va(0x1000),
        end: Va(0x1000 + 4 * assigns.len() as u64),
        terminator: key("ret"),
        successors: vec![],
        phis: vec![],
        condition: None,
        stmts: assigns
            .into_iter()
            .enumerate()
            .map(|(i, (dst, value))| SsaStmt {
                va: Va(0x1000 + 4 * i as u64),
                stmt: MicroStmt::Assign { dst: dst.to_string(), value },
            })
            .collect(),
    }
}

fn base_offset(e: &MicroExpr) -> Option<(&str, i64)> {
    as_base_offset(e).map(|(n, o)| (n.as_str(), o))
}

#[test]
fn a_field_address_is_recognized_in_either_operand_order_and_through_casts() {
    assert_eq!(base_offset(&plus("rdi.0", 0x30)), Some(("rdi.0", 0x30)));
    let swapped = binary(BinOp::Add, constant(0x30, 64), var("rdi.0"));
    assert_eq!(base_offset(&swapped), Some(("rdi.0", 0x30)));
    assert_eq!(base_offset(&var("rdi.0")), Some(("rdi.0", 0)));
    let computed = binary(BinOp::Add, var("rdi.0"), var("rax.1"));
    assert_eq!(base_offset(&computed), None);
}

#[test]
fn this_aliases_follow_plain_copies() {
    let blocks = vec![block(vec![("rbx.1", var("rdi.0")), ("rbx.2", var("rbx.1")), ("rcx.1", var("rsi.0"))])];
    let set = alias_set(&blocks, "rdi.0");
    assert!(set.contains(&key("rdi.0")) && set.contains(&key("rbx.1")) && set.contains(&key("rbx.2")));
    assert!(!set.contains(&key("rcx.1")), "an unrelated copy is not an alias of this");
}

#[test]
fn a_cyclic_copy_terminates() {
    let blocks = vec![block(vec![("a", var("b")), ("b", var("a"))])];
    let set = alias_set(&blocks, "a");
    assert!(set.contains(&key("a")) && set.contains(&key("b")));
}

#[test]
fn a_constructor_is_recognized_by_its_own_name_and_nothing_else_is() {
    assert_eq!(ctor_class_of("QPixmap::QPixmap"), Some("QPixmap"));
    assert_eq!(ctor_class_of("QPixmap::~QPixmap"), Some("QPixmap"), "a destructor is as certain as a constructor");
    assert_eq!(ctor_class_of("Ui::Widget::Widget"), Some("Ui::Widget"), "the class keeps its namespace");
    assert_eq!(ctor_class_of("QList<int>::QList"), Some("QList<int>"), "template arguments are stripped only to compare");
    assert_eq!(ctor_class_of("QPixmap::isNull"), None, "an ordinary method is not a constructor");
    assert_eq!(ctor_class_of("Ui::doSomething"), None, "a namespaced free function has no this");
    assert_eq!(ctor_class_of("main"), None);
    assert_eq!(ctor_class_of("::foo"), None);
    assert_eq!(ctor_class_of("QList<ns::Foo>::QList"), Some("QList<ns::Foo>"));
    assert_eq!(ctor_class_of("QList<ns::Foo>::~QList"), Some("QList<ns::Foo>"));
    assert_eq!(ctor_class_of("QList<ns::Foo>::Foo"), None);
}

fn ret(e: MicroExpr) -> SsaStmt {
    SsaStmt { va: Va(0x1010), stmt: MicroStmt::Return(Some(e)) }
}

#[test]
fn a_function_returning_its_own_first_argument_is_refused() {
    let aliases = set_of(&["rdi.0", "rax.3"]);
    let mut b = block(vec![("rax.3", var("rdi.0"))]);
    b.stmts.push(ret(var("rax.3")));
    assert!(returns_first_arg(&vec![b], &aliases, "rdi.0"));

    let mut c = block(vec![("rax.3", var("rsi.0"))]);
    c.stmts.push(ret(var("rax.3")));
    assert!(
        !returns_first_arg(&vec![c], &set_of(&["rdi.0"]), "rdi.0"),
        "returning something else is an ordinary method"
    );

    let mut d = block(vec![("rax.3", var("rsi.0"))]);
    d.stmts.push(ret(var("rdi.9")));
    assert!(returns_first_arg(&vec![d], &set_of(&["rdi.0"]), "rdi.0"));

    let mut e = block(vec![("rdx.4", var("rdi.0"))]);
    e.phis.push(Phi {
        var: key("rdx"),
        dst: key("rdx.6"),
        inputs: vec![
            PhiInput { from_block: 0, value: key("rdx.4") },
            PhiInput { from_block: 1, value: key("rdx.5") },
        ],
    });
    e.stmts.push(ret(var("rdx.6")));
    assert!(returns_first_arg(&vec![e], &set_of(&["rdi.0", "rdx.4"]), "rdi.0"));
}

#[test]
fn the_three_field_typing_rules_fire_and_nothing_else_does() {
    let syms = table_of(vec![
        (0x2000, 1, "_ZN7QPixmapC1Ev"),
        (0x3000, 1, "_ZN6Widget5paintEv"),
        (0x4000, 1, "_Z8helper_fv"),
    ]);
    let snap = Snapshot { regions: vec![Region { start: Va(0x1000), bytes: vec![0xC3] }], code: vec![] };
    let vt = vtables(&[(0x9000, "Widget")]);
    let ctx = Ctx::new(&snap).with_symbols(&syms).with_vtables(&vt);

    let this = "rdi.0";
    let call = |va: u64, arg: MicroExpr| MicroStmt::Call {
        target: CallTarget::Direct { va: Va(va) },
        args: vec![arg],
        ret: None,
    };
    let stmt = |st: MicroStmt| SsaStmt { va: Va(0x1000), stmt: st };

    let mut b = block(vec![
        ("v1", MicroExpr::AddrOf(Box::new(plus(this, 0x30)))),
        ("v2", load(plus(this, 0x40))),
        ("v3", MicroExpr::AddrOf(Box::new(plus(this, 0x50)))),
    ]);
    b.stmts.push(stmt(call(0x2000, var("v1"))));
    b.stmts.push(stmt(call(0x3000, var("v2"))));
    b.stmts.push(stmt(call(0x4000, var("v3"))));
    b.stmts.push(stmt(MicroStmt::Store { addr: plus(this, 0x60), value: var("rsi.0"), bits: 64 }));
    b.stmts.push(stmt(MicroStmt::Store { addr: plus(this, 0x68), value: constant(7, 64), bits: 64 }));
    b.stmts.push(stmt(call(0x2000, var("v4"))));
    b.stmts.push(stmt(MicroStmt::Store { addr: plus(this, 0x70), value: var("v4"), bits: 64 }));

    let types = TypeArtifact {
        locals: vec![],
        structs: vec![],
        signature: RecoveredSignature {
            params: vec![
                ParamInfo { reg: key("rdi"), name: key("rdi"), ty: named("Widget *") },
                ParamInfo { reg: key("rsi"), name: key("rsi"), ty: named("QFont *") },
            ],
            ret: None,
        },
    };
    let blocks = vec![b];
    let aliases = alias_set(&blocks, this);
    // What the closure over values names by the constructor it is handed to.
    let mut classes: NameMap<String> = SortedMap::new();
    classes.insert(key("v4"), key("QPixmap"));
    let values = ValueClasses { phi_defs: vec![], classes };
    let portable = set_of(&["QPixmap", "QPixmap *", "Widget *", "QFont *"]);
    let got = field_types(&ctx, &blocks, &types, &aliases, &vec![key("rdi"), key("rsi")], &portable, &values);
    let ty = |o: i64| got.types.get(&o).map(String::as_str);

    assert_eq!(ty(0x30), Some("QPixmap"), "an interior pointer into a constructor is an embedded sub-object");
    assert_eq!(ty(0x40), Some("Widget *"), "a loaded field used as a `this` is a pointer field");
    assert_eq!(ty(0x50), None, "a free function's argument proves nothing");
    assert_eq!(ty(0x60), Some("QFont *"), "a class-typed parameter stored in types the field");
    assert_eq!(ty(0x68), None, "a constant carries no type to move");
    assert_eq!(
        ty(0x70),
        Some("QPixmap *"),
        "a value the class closure names by the constructor it was handed to types the field"
    );
}

#[test]
fn lookup_refuses_an_ambiguous_field_and_answers_a_proven_one() {
    let field = |offset: i64, access_count: usize, methods: usize, ty: Option<&str>, ty_ambiguous: bool| FieldObs {
        offset,
        size_bits: 64,
        signed: false,
        access_count,
        methods,
        ty: ty.map(str::to_string),
        ty_ambiguous,
    };
    let mut classes: NameMap<ClassLayout> = SortedMap::new();
    classes.insert(
        key("Widget"),
        ClassLayout {
            methods: 3,
            fields: vec![field(0x30, 9, 3, Some("QImage *"), false), field(0x38, 2, 2, None, true)],
            extent: 0x40,
        },
    );
    let store = LayoutStore {
        classes,
        functions_analyzed: 0,
        methods_matched: 0,
        observations: 0,
        typed_fields: 0,
        ambiguous_fields: 0,
        fields_typed_by_fixpoint: 0,
        claims_by_value_closure: 0,
    };
    let ty = |c: &str, o: i64| store.field_type(c, o).map(|s| s.to_string());
    assert_eq!(ty("Widget", 0x30).as_deref(), Some("QImage *"));
    assert_eq!(ty("Widget", 0x38), None, "a contested field answers nothing");
    assert_eq!(ty("Widget", 0x99), None);
    assert_eq!(ty("Button", 0x30), None);
}

#[test]
fn a_constructor_is_found_behind_its_mangled_name() {
    let snap = nothing();
    let syms = table_of(vec![(0x2000, 1, "_ZN7QPixmapC1Ev"), (0x3000, 1, "_ZN6Widget5paintEv")]);
    let ctx = Ctx::new(&snap).with_symbols(&syms);
    assert_eq!(ctor_class(&ctx, Va(0x2000)).as_deref(), Some("QPixmap"));
    assert_eq!(ctor_class(&ctx, Va(0x3000)), None);
    assert_eq!(qualified_part(" ns::A::f (int)").as_deref(), Some("ns::A::f"));
    let part = |s: &str| qualified_part(s);
    assert_eq!(part("public: bool __cdecl QPixmap::isNull(void) const").as_deref(), Some("QPixmap::isNull"));
    assert_eq!(part("void Foo::bar<int, ns::B>(int)").as_deref(), Some("Foo::bar<int, ns::B>"));
    assert_eq!(part("Foo::operator()(int) const").as_deref(), Some("Foo::operator()"));
    assert_eq!(part("bool operator==(A, B)").as_deref(), Some("operator=="));
    assert_eq!(part("void Foo::operator delete(void *)").as_deref(), Some("Foo::operator delete"));
    assert_eq!(part("(anonymous namespace)::f(int)").as_deref(), Some("(anonymous namespace)::f"));
    assert_eq!(part("non-virtual thunk to Foo::~Foo()"), None, "a thunk is not the function itself");
    assert_eq!(part("vtable for ns::Foo"), None);
    assert_eq!(part("(int)"), None);
    let syms = table_of(vec![(0x2000, 1, "??0QPixmap@@QEAA@XZ"), (0x3000, 1, "?isNull@QPixmap@@QEBA_NXZ")]);
    let ctx = Ctx::new(&snap).with_symbols(&syms);
    assert_eq!(ctor_class(&ctx, Va(0x2000)).as_deref(), Some("QPixmap"));
    assert_eq!(ctor_class(&ctx, Va(0x3000)), None);
    assert_eq!(this_arg_index(&vec![], &vec![key("rdi")]), 0);
}

fn method(va: u64, bits: u32, signed: bool, param: &str, extra: Option<i64>) -> MethodInput {
    let mut b = block(vec![("rbx.1", var("rdi.0"))]);
    b.stmts.push(SsaStmt {
        va: Va(va),
        stmt: MicroStmt::Store { addr: plus("rbx.1", 0x10), value: var("rsi.0"), bits: 64 },
    });
    let access = |offset: i64, size_bits: u32, signed: bool| FieldAccess { offset, size_bits, signed, access_count: 2 };
    let mut fields = vec![access(8, bits, signed)];
    fields.extend(extra.map(|o| access(o, 64, false)));
    MethodInput {
        va: Va(va),
        start: Va(va),
        has_blocks: true,
        blocks: vec![b],
        types: TypeArtifact {
            locals: vec![],
            structs: vec![
                RecoveredType { name: key("a"), base_var: key("rbx.1"), fields },
                RecoveredType { name: key("b"), base_var: key("rcx.7"), fields: vec![access(0x99, 64, false)] },
            ],
            signature: RecoveredSignature {
                params: vec![
                    ParamInfo { reg: key("rdi"), name: key("rdi"), ty: named("QPixmap *") },
                    ParamInfo { reg: key("rsi"), name: key("rsi"), ty: named(param) },
                ],
                ret: None,
            },
        },
        values: ValueClasses { phi_defs: vec![], classes: SortedMap::new() },
        arg_regs: vec![key("rdi"), key("rsi")],
    }
}

fn layouts(methods: Vec<MethodInput>) -> LayoutStore {
    let snap = nothing();
    let syms = table_of(vec![
        (0x2000, 1, "_ZN7QPixmapC1Ev"),
        (0x2100, 1, "_ZN7QPixmapD1Ev"),
        (0x2200, 1, "_ZN7QPixmapC2Ev"),
        (0x3000, 1, "_Z8helper_fv"),
    ]);
    let ctx = Ctx::new(&snap).with_symbols(&syms);
    let portable = set_of(&["QFont *", "QImage *", "QPixmap *"]);
    let input = ClassLayoutInput { methods, portable };
    ClassLayoutPass.run(&ctx, &input).unwrap()
}

#[test]
fn the_methods_of_a_class_make_one_layout() {
    let store = layouts(vec![
        method(0x2000, 32, false, "QFont *", None),
        method(0x2100, 64, true, "QFont *", Some(0x20)),
        method(0x3000, 64, false, "QFont *", Some(0x40)),
    ]);
    assert_eq!((store.functions_analyzed, store.methods_matched), (3, 2));
    let c = store.classes.get(&key("QPixmap")).unwrap();
    assert_eq!((c.methods, c.extent), (2, 0x28));
    let offsets: Vec<i64> = c.fields.iter().map(|f| f.offset).collect();
    assert_eq!(offsets, vec![8, 0x10, 0x20]);
    assert_eq!((c.fields[0].size_bits, c.fields[0].signed, c.fields[0].access_count, c.fields[0].methods), (64, true, 4, 2));
    assert_eq!(store.field_type("QPixmap", 0x10).map(|s| s.to_string()).as_deref(), Some("QFont *"));
    assert_eq!(store.field_type("QPixmap", 8).map(|s| s.to_string()), None);
}

#[test]
fn a_disagreement_about_a_type_is_never_undone_in_any_order() {
    let one = |va: u64, ty: &str| method(va, 64, false, ty, None);
    let orders = vec![
        vec![one(0x2000, "QFont *"), one(0x2100, "QImage *"), one(0x2200, "QFont *")],
        vec![one(0x2200, "QFont *"), one(0x2000, "QFont *"), one(0x2100, "QImage *")],
        vec![one(0x2100, "QImage *"), one(0x2000, "QFont *"), one(0x2200, "QFont *")],
    ];
    for methods in orders {
        let store = layouts(methods);
        assert_eq!(store.field_type("QPixmap", 0x10).map(|s| s.to_string()), None);
        let c = store.classes.get(&key("QPixmap")).unwrap();
        assert!(c.fields[1].ty_ambiguous);
        assert_eq!(store.ambiguous_fields, 1);
    }
}

// ---- coalescing ----

fn counter_loop(cond_on: &str, returned: Option<MicroExpr>, first: Option<&str>, from: &str) -> Vec<SsaBlock> {
    let b0 = SsaBlock {
        id: 0,
        start: Va(0x1000),
        end: Va(0x1004),
        terminator: key("jmp"),
        successors: vec![mk(0x1004)],
        phis: vec![],
        stmts: first.map(|d| assign(d, constant(3, 64))).into_iter().collect(),
        condition: None,
    };
    let b1 = SsaBlock {
        id: 1,
        start: Va(0x1004),
        end: Va(0x1008),
        terminator: key("cjmp"),
        successors: vec![mk(0x1004), mk(0x1008)],
        phis: vec![Phi {
            var: key("rcx"),
            dst: key("rcx.2"),
            inputs: vec![
                PhiInput { from_block: 0, value: key(from) },
                PhiInput { from_block: 1, value: key("rcx.3") },
            ],
        }],
        stmts: vec![assign("rcx.3", binary(BinOp::Sub, var("rcx.2"), constant(1, 64)))],
        condition: Some(binary(BinOp::Ne, var(cond_on), constant(0, 64))),
    };
    let b2 = SsaBlock {
        id: 2,
        start: Va(0x1008),
        end: Va(0x1009),
        terminator: key("ret"),
        successors: vec![],
        phis: vec![],
        stmts: vec![SsaStmt { va: Va(0), stmt: MicroStmt::Return(returned) }],
        condition: None,
    };
    vec![b0, b1, b2]
}

#[test]
fn a_critical_edge_phi_is_materialized_by_splitting_the_edge() {
    let b0 = SsaBlock {
        id: 0,
        start: Va(0x1000),
        end: Va(0x1008),
        terminator: key("cjmp"),
        successors: vec![succ_to(0x1030, "cjmp-true"), succ_to(0x1010, "cjmp-false")],
        phis: vec![],
        stmts: vec![assign("rax.3", constant(7, 64))],
        condition: Some(binary(BinOp::Ne, var("rcx.0"), constant(0, 64))),
    };
    let b2 = SsaBlock {
        id: 2,
        start: Va(0x1010),
        end: Va(0x1018),
        terminator: key("jmp"),
        successors: vec![succ_to(0x1030, "jmp")],
        phis: vec![],
        stmts: vec![assign("rax.5", load(var("rcx.0")))],
        condition: None,
    };
    let b3 = SsaBlock {
        id: 3,
        start: Va(0x1030),
        end: Va(0x1038),
        terminator: key("ret"),
        successors: vec![],
        phis: vec![Phi {
            var: key("rax"),
            dst: key("rax.6"),
            inputs: vec![
                PhiInput { from_block: 0, value: key("rax.3") },
                PhiInput { from_block: 2, value: key("rax.5") },
            ],
        }],
        stmts: vec![SsaStmt { va: Va(0), stmt: MicroStmt::Return(Some(var("rax.6"))) }],
        condition: None,
    };
    let blocks = vec![b0, b2, b3];
    let cfg = mk_cfg(&blocks);
    let names: NameMap<String> = SortedMap::new();
    let (dcfg, dblocks) = destruct_ssa(cfg, blocks, &names);

    assert_eq!(dblocks.len(), 4);
    assert_eq!(dcfg.blocks.len(), 4);

    let is_copy = |s: &SsaStmt, d: &str, v: &str| matches!(&s.stmt, MicroStmt::Assign { dst, value } if dst == d && *value == var(v));
    assert!(dblocks[1].stmts.iter().any(|s| is_copy(s, "rax.6", "rax.5")), "{:?}", dblocks[1].stmts);
    assert!(dblocks[3].stmts.iter().any(|s| is_copy(s, "rax.6", "rax.3")), "{:?}", dblocks[3].stmts);
    assert!(!dblocks[0].successors.iter().any(|e| e.to == Va(0x1030)), "true edge must be redirected: {:?}", dblocks[0].successors);
    assert!(!dcfg.blocks[0].successors.iter().any(|e| e.to == Va(0x1030)), "cfg true edge must be redirected too");
    assert!(dblocks[3].successors.iter().any(|e| e.to == Va(0x1030)), "split block must fall through to the merge");
}

#[test]
fn two_phis_that_swap_their_inputs_do_swap() {
    let entry = SsaBlock {
        id: 0,
        start: Va(0x1000),
        end: Va(0x1008),
        terminator: key("jmp"),
        successors: vec![succ_to(0x1010, "jmp")],
        phis: vec![],
        stmts: vec![],
        condition: None,
    };
    let swap = |dst: &str, first: &str, again: &str| Phi {
        var: key("r"),
        dst: key(dst),
        inputs: vec![
            PhiInput { from_block: 0, value: key(first) },
            PhiInput { from_block: 1, value: key(again) },
        ],
    };
    let body = SsaBlock {
        id: 1,
        start: Va(0x1010),
        end: Va(0x1018),
        terminator: key("jmp"),
        successors: vec![succ_to(0x1010, "jmp")],
        phis: vec![swap("rax.2", "rax.1", "rbx.2"), swap("rbx.2", "rbx.1", "rax.2")],
        stmts: vec![],
        condition: None,
    };
    let blocks = vec![entry, body];
    let cfg = mk_cfg(&blocks);
    let (_, out) = destruct_ssa(cfg, blocks, &SortedMap::new());
    let copies = |b: &SsaBlock| -> Vec<(String, String)> {
        b.stmts
            .iter()
            .map(|s| match &s.stmt {
                MicroStmt::Assign { dst, value: MicroExpr::Var(src) } => (dst.clone(), src.clone()),
                _ => panic!("no copy"),
            })
            .collect()
    };
    let pair = |a: &str, b: &str| (key(a), key(b));
    assert_eq!(copies(&out[0]), vec![pair("rax.2", "rax.1"), pair("rbx.2", "rbx.1")]);
    assert_eq!(
        copies(&out[1]),
        vec![pair("rax.2_old", "rax.2"), pair("rax.2", "rbx.2"), pair("rbx.2", "rax.2_old")]
    );
}

#[test]
fn a_coalesced_phi_needs_no_edge_copies() {
    let mut blocks = counter_loop("rcx.3", None, Some("rcx.1"), "rcx.1");
    blocks[0].successors = vec![succ_to(0x1004, "jmp")];
    blocks[1].successors = vec![succ_to(0x1004, "cjmp-true"), succ_to(0x1008, "cjmp-false")];
    let cfg = mk_cfg(&blocks);
    let names = coalesce_vars(&blocks, &empty_sig());
    let (_dcfg, dblocks) = destruct_ssa(cfg, blocks, &names);
    assert_eq!(dblocks.len(), 3, "no split blocks should be added for a coalesced phi");
}

#[test]
fn a_loop_counter_phi_web_coalesces_to_one_name() {
    let blocks = counter_loop("rcx.3", None, Some("rcx.1"), "rcx.1");
    let map = coalesce_vars(&blocks, &empty_sig());
    let n1 = map.get(&key("rcx.1")).expect("rcx.1 coalesced");
    assert_eq!(map.get(&key("rcx.2")), Some(n1));
    assert_eq!(map.get(&key("rcx.3")), Some(n1));
    assert!(n1.starts_with('v'), "non-parameter loop var should be a fresh vN: {n1}");
}

#[test]
fn a_value_that_escapes_the_loop_is_not_coalesced() {
    let blocks = counter_loop("rcx.3", Some(var("rcx.2")), Some("rcx.1"), "rcx.1");
    let map = coalesce_vars(&blocks, &empty_sig());
    let has = |n: &str| map.get(&key(n)).is_some();
    assert!(!has("rcx.1") && !has("rcx.2") && !has("rcx.3"), "escaping value must not coalesce: {:?}", map.keys);
}

#[test]
fn a_counter_whose_pre_update_value_is_tested_is_not_coalesced() {
    let blocks = counter_loop("rcx.2", None, Some("rcx.1"), "rcx.1");
    let map = coalesce_vars(&blocks, &empty_sig());
    let has = |n: &str| map.get(&key(n)).is_some();
    assert!(
        !has("rcx.1") && !has("rcx.2") && !has("rcx.3"),
        "pre-update-tested counter must not coalesce (would change the tested value): {:?}",
        map.keys
    );
}

#[test]
fn a_parameter_in_a_phi_web_keeps_its_parameter_name() {
    let blocks = counter_loop("rcx.3", None, None, "rcx.0");
    let sig = RecoveredSignature {
        params: vec![ParamInfo { reg: key("rcx"), name: key("rcx"), ty: CType { bits: 64, signed: false, name: None } }],
        ret: None,
    };
    let map = coalesce_vars(&blocks, &sig);
    assert_eq!(map.get(&key("rcx.0")).map(String::as_str), Some("rcx"));
    assert_eq!(map.get(&key("rcx.2")).map(String::as_str), Some("rcx"));
    assert_eq!(map.get(&key("rcx.3")).map(String::as_str), Some("rcx"));
}

// ---- filler and opaque branches ----

fn insn(va: u64, len: u8, text: &str) -> IrInsn {
    IrInsn {
        va: Va(va),
        len,
        mnemonic: text.split(' ').next().unwrap().to_string(),
        text: text.to_string(),
        flow: InsnKind::Plain,
        target: None,
        target_name: None,
        reads: vec![],
        writes: vec![],
        def_use: vec![],
        cond: None,
        stack_adjust: None,
    }
}

fn one_block(insns: Vec<IrInsn>, to: Vec<Successor>) -> (CfgArtifact, Vec<SsaBlock>) {
    let ssa = vec![SsaBlock {
        id: 0,
        start: Va(0x1000),
        end: Va(0x1010),
        terminator: key("ret"),
        successors: to,
        phis: vec![],
        stmts: vec![],
        condition: None,
    }];
    let mut cfg = mk_cfg(&ssa);
    cfg.blocks[0].insns = insns;
    (cfg, ssa)
}

fn deobfuscate(insns: Vec<IrInsn>) -> DeobfuscateArtifact {
    let (cfg, ssa) = one_block(insns, vec![]);
    let snap = nothing();
    DeobfuscatePass.run(&Ctx::new(&snap), &cfg, &ssa, &vec![None]).unwrap()
}

#[test]
fn flags_a_self_move_as_junk() {
    let art = deobfuscate(vec![insn(0x1000, 2, "mov eax, eax"), insn(0x1002, 1, "ret")]);
    assert_eq!(art.junk.len(), 1);
    assert!(art.junk[0].reason.contains("self-mov"));
    assert_eq!(art.junk[0].reason, "self-mov (mov eax, eax)");
    assert_eq!((art.junk[0].va, art.junk_bytes), (Va(0x1000), 2));
}

#[test]
fn flags_identity_add_as_junk() {
    let art = deobfuscate(vec![insn(0x1000, 3, "add eax, 0"), insn(0x1003, 1, "ret")]);
    assert_eq!(art.junk.len(), 1);
    assert!(art.junk[0].reason.contains("identity arithmetic"));
}

#[test]
fn flags_a_push_pop_pair_as_junk() {
    let art = deobfuscate(vec![insn(0x1000, 1, "push rax"), insn(0x1001, 1, "pop rax"), insn(0x1002, 1, "ret")]);
    assert_eq!(art.junk.len(), 2, "both the push and the pop are flagged");
    assert_eq!(art.junk[1].reason, "push/pop pair cancels out (push rax / pop rax)");
    assert_eq!(art.junk_bytes, 2);
}

#[test]
fn a_real_move_is_never_flagged() {
    let art = deobfuscate(vec![insn(0x1000, 2, "mov eax, ecx"), insn(0x1002, 1, "ret")]);
    assert!(art.junk.is_empty(), "a genuine cross-register move must never be reported as junk: {:#?}", art.junk);
}

#[test]
fn a_real_add_by_a_nonzero_constant_is_never_flagged() {
    let art = deobfuscate(vec![insn(0x1000, 3, "add eax, 5"), insn(0x1003, 1, "ret")]);
    assert!(art.junk.is_empty());
}

fn branches(value: Option<i128>) -> DeobfuscateArtifact {
    let (cfg, ssa) = one_block(
        vec![insn(0x1000, 5, "mov eax, 5"), insn(0x1005, 3, "cmp eax, 5"), insn(0x1008, 2, "je 0x100c")],
        vec![succ_to(0x100c, "cjmp-true"), succ_to(0x100a, "cjmp-false")],
    );
    let snap = nothing();
    let known = vec![Some(Condition { value, text: key("eax == 5") })];
    DeobfuscatePass.run(&Ctx::new(&snap), &cfg, &ssa, &known).unwrap()
}

#[test]
fn detects_an_always_true_opaque_predicate() {
    let art = branches(Some(1));
    assert_eq!(art.opaque_branches.len(), 1, "expected exactly one opaque branch: {:#?}", art.opaque_branches);
    assert!(art.opaque_branches[0].always_taken);
    assert_eq!((art.opaque_branches[0].at, art.opaque_branches[0].dead_target), (Va(0x1008), Va(0x100a)));
    assert_eq!(art.opaque_branches[0].reason, "condition eax == 5 resolves to the constant true");
    let never = branches(Some(0));
    assert!(!never.opaque_branches[0].always_taken);
    assert_eq!(never.opaque_branches[0].dead_target, Va(0x100c));
}

#[test]
fn a_real_conditional_branch_on_unknown_input_is_never_flagged() {
    let art = branches(None);
    assert!(art.opaque_branches.is_empty(), "an unknown input's branch must never be called opaque: {:#?}", art.opaque_branches);
    assert!(branches(Some(7)).opaque_branches.is_empty());
}

#[test]
fn operands_are_split_at_the_only_comma_between_them() {
    assert_eq!(two_operands("mov  eax , ebx"), Some(("eax", "ebx")));
    assert_eq!(two_operands("imul eax, ecx, 5"), None, "three operands are no pair");
    assert_eq!(two_operands("ldr x0, [x1, 8]"), Some(("x0", "[x1, 8]")), "a comma in brackets separates no operands");
    assert_eq!(two_operands("ldr x0, [x1], 8"), None);
    assert_eq!(two_operands("ret"), None);
    assert_eq!(one_operand("push  rax"), Some("rax"));
    assert_eq!(one_operand("mov eax, ebx"), None);
}

#[test]
fn the_token_of_a_flow_depends_on_its_types() {
    let flow = |va: u64, params: Vec<Option<&str>>, ret: Option<&str>| {
        let mut f = TypeFlow { functions: SortedMap::new() };
        let params = params.into_iter().map(|p| p.map(key)).collect();
        f.functions.insert(va, FlowTypes { params, ret: ret.map(key) });
        f.type_flow_fingerprint()
    };
    assert_eq!(TypeFlow { functions: SortedMap::new() }.type_flow_fingerprint(), "");
    assert_eq!(flow(16, vec![None, Some("QPixmap *")], Some("int")), "16(-9:QPixmap *)3:int");
    assert_ne!(flow(16, vec![Some("a")], None), flow(16, vec![], Some("a")));
    assert_ne!(flow(16, vec![Some("ab")], None), flow(16, vec![Some("a"), Some("b")], None));
    assert_ne!(flow(16, vec![], None), flow(17, vec![], None));
}

#[test]
fn only_what_is_done_to_a_register_is_filler() {
    let junk = |text: &str| deobfuscate(vec![insn(0x1000, 4, text), insn(0x1004, 1, "ret")]).junk.len();
    assert_eq!(junk("or rax, 0x0"), 1);
    assert_eq!(junk("add dword ptr [rax], 0"), 0);
    assert_eq!(junk("xchg r8, r8"), 1);
    let pair = vec![insn(0x1000, 4, "push [rsp+8]"), insn(0x1004, 4, "pop [rsp+8]"), insn(0x1008, 1, "ret")];
    assert!(deobfuscate(pair).junk.is_empty());
}

#[test]
fn a_field_below_its_base_is_found() {
    let field = load(binary(BinOp::Sub, var("rcx.0"), constant(8, 64)));
    let defs: Defs = SortedMap::new();
    let e = load(load(field));
    match as_vtable_dispatch(&e, &defs) {
        Some((Object::Field { base, offset }, slot)) => assert_eq!((base, offset, slot), ("rcx.0", -8, 0)),
        _ => panic!("no field"),
    }
}
