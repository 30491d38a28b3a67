use n0xis_core::bits::{cut, divide, extend, from_lanes, lanes, read_signed, sar, shl, to_word};
use n0xis_core::emulate::{
    binop, describe_target, is_entry_version, scratch_value, BodyMap, CallPolicy, EmuConfig, EmuError, EmuResult, Emulator,
};
use n0xis_core::intrinsics::{intrinsic, Answer, FloatCall, FloatFact, FloatOp};
use n0xis_core::ir::Successor;
use n0xis_core::memory::Memory;
use n0xis_core::micro::{BinOp, CallTarget, MicroExpr, MicroStmt};
use n0xis_core::source::{Region, Snapshot};
use n0xis_core::ssa::{Phi, PhiInput, SsaBlock, SsaStmt};
use n0xis_core::va::Va;

fn var(n: &str) -> MicroExpr {
    MicroExpr::Var(n.to_string())
}

fn constant(value: i128) -> MicroExpr {
    MicroExpr::Const { value, bits: 64 }
}

fn binary(op: BinOp, l: MicroExpr, r: MicroExpr) -> MicroExpr {
    MicroExpr::Binary(op, Box::new(l), Box::new(r))
}

fn load(addr: MicroExpr) -> MicroExpr {
    MicroExpr::Load { addr: Box::new(addr), bits: 64, signed: false }
}

fn stmt(s: MicroStmt) -> SsaStmt {
    SsaStmt { va: Va(0x1000), stmt: s }
}

fn assign(dst: &str, value: MicroExpr) -> SsaStmt {
    stmt(MicroStmt::Assign { dst: dst.to_string(), value })
}

fn ret(e: MicroExpr) -> SsaStmt {
    stmt(MicroStmt::Return(Some(e)))
}

fn block(id: usize, start: u64, terminator: &str, to: &[(u64, &str)], stmts: Vec<SsaStmt>) -> SsaBlock {
    SsaBlock {
        id,
        start: Va(start),
        end: Va(start + 0x10),
        terminator: terminator.to_string(),
        successors: to
            .iter()
            .map(|(a, k)| Successor { to: Va(*a), kind: k.to_string(), confidence: 100 })
            .collect(),
        phis: vec![],
        stmts,
        condition: None,
    }
}

fn one(stmts: Vec<SsaStmt>) -> Vec<SsaBlock> {
    vec![block(0, 0x1000, "ret", &[], stmts)]
}

fn run(blocks: &[SsaBlock]) -> Result<EmuResult, EmuError> {
    Emulator::new(blocks, None).run()
}

fn fails(blocks: &[SsaBlock]) -> EmuError {
    run(blocks).unwrap_err()
}

#[test]
fn a_loop_runs_to_its_end() {
    // Sums 5, 4, 3, 2 and 1.
    let mut body = block(
        1,
        0x1010,
        "cjmp",
        &[(0x1010, "cjmp-true"), (0x1020, "cjmp-false")],
        vec![
            assign("s.2", binary(BinOp::Add, var("s.1"), var("n.1"))),
            assign("n.2", binary(BinOp::Sub, var("n.1"), constant(1))),
        ],
    );
    let phi = |v: &str, first: &str, again: &str| Phi {
        var: v.to_string(),
        dst: format!("{v}.1"),
        inputs: vec![
            PhiInput { from_block: 0, value: first.to_string() },
            PhiInput { from_block: 1, value: again.to_string() },
        ],
    };
    body.phis = vec![phi("s", "s.0", "s.2"), phi("n", "n.0", "n.2")];
    body.condition = Some(binary(BinOp::Ne, var("n.2"), constant(0)));
    let blocks = vec![
        block(0, 0x1000, "fall", &[(0x1010, "fall")], vec![]),
        body,
        block(2, 0x1020, "ret", &[], vec![ret(var("s.2"))]),
    ];
    let mut e = Emulator::new(&blocks, None);
    e.set_var("s.0", 0);
    e.set_var("n.0", 5);
    let r = e.run().unwrap();
    assert_eq!(r.ret, Some(15));
    assert_eq!((r.steps, r.blocks_entered, r.calls, r.stubbed), (11, 7, 0, 0));
    assert!(r.invented.is_empty());
    assert_eq!(e.var("n.2"), Some(0));
}

#[test]
fn each_failure_says_what_it_is() {
    assert_eq!(fails(&[]), EmuError::NoEntry);
    assert_eq!(fails(&one(vec![ret(var("x.1"))])), EmuError::UndefinedVar("x.1".to_string()));
    assert_eq!(
        fails(&one(vec![stmt(MicroStmt::Unlifted { va: Va(0x1000), text: "hlt".to_string() })])),
        EmuError::Unlifted { va: Va(0x1000), text: "hlt".to_string() }
    );
    assert_eq!(fails(&one(vec![ret(MicroExpr::Unknown("st0".to_string()))])), EmuError::UnknownExpr("st0".to_string()));
    assert_eq!(
        fails(&one(vec![ret(MicroExpr::OpaqueFlags { mnemonic: "rcl".to_string() })])),
        EmuError::OpaqueFlags("rcl".to_string())
    );
    assert_eq!(fails(&one(vec![ret(load(constant(0x9000)))])), EmuError::UnreadableMemory { addr: 0x9000, bytes: 64 });
    assert_eq!(
        fails(&one(vec![ret(binary(BinOp::UDiv, constant(1), constant(0)))])),
        EmuError::DivideByZero(Va(0x1000))
    );
    let call = |t: CallTarget| MicroExpr::Call { target: t, args: vec![] };
    assert!(matches!(
        fails(&one(vec![ret(call(CallTarget::Direct { va: Va(0x2000) }))])),
        EmuError::CallNotModelled(_)
    ));
    assert_eq!(
        fails(&one(vec![ret(call(CallTarget::Intrinsic("__magic".to_string())))])),
        EmuError::IntrinsicNotModelled("__magic".to_string())
    );
    assert_eq!(
        fails(&[block(0, 0x1000, "jmp", &[], vec![])]),
        EmuError::NoSuccessor { block: 0, terminator: "jmp".to_string() }
    );
    assert_eq!(
        fails(&[block(0, 0x1000, "cjmp", &[(0x1010, "cjmp-true"), (0x1020, "cjmp-false")], vec![])]),
        EmuError::NoCondition { block: 0 }
    );
    let wide = MicroExpr::Load { addr: Box::new(constant(0x9000)), bits: 256, signed: false };
    assert_eq!(fails(&one(vec![ret(wide)])), EmuError::WidthNotModelled { bits: 256 });
    let spin = [block(0, 0x1000, "jmp", &[(0x1000, "jmp")], vec![assign("x.1", constant(1))])];
    let cfg = EmuConfig { max_steps: 10, ..EmuConfig::default() };
    assert_eq!(Emulator::with_config(&spin, None, cfg).run().unwrap_err(), EmuError::StepLimit(10));
}

#[test]
fn an_indirect_jump_follows_only_recorded_edges() {
    let jump = |to: u64, edges: &[(u64, &str)]| {
        vec![
            block(0, 0x1000, "ijmp", edges, vec![assign("jump_target.1", constant(to as i128))]),
            block(1, 0x1010, "ret", &[], vec![ret(constant(7))]),
        ]
    };
    assert_eq!(run(&jump(0x1010, &[(0x1010, "switch-case")])).unwrap().ret, Some(7));
    assert_eq!(
        fails(&jump(0x1020, &[(0x1010, "switch-case")])),
        EmuError::UnrecordedJump { block: 0, to: 0x1020 }
    );
    assert_eq!(fails(&jump(0x1020, &[])), EmuError::UnresolvedJump { block: 0, to: 0x1020 });
    assert_eq!(
        fails(&jump(0x1020, &[(0x1020, "switch-case")])),
        EmuError::JumpToNonLeader { block: 0, to: 0x1020 }
    );
}

#[test]
fn failures_are_put_in_words() {
    let says = |e: EmuError| e.text();
    assert_eq!(says(EmuError::UndefinedVar("x.1".to_string())), "read of undefined variable `x.1`");
    assert_eq!(says(EmuError::DivideByZero(Va(0x1000))), "divide by zero at 0x1000");
    assert_eq!(says(EmuError::StepLimit(10)), "step limit of 10 reached");
    assert_eq!(
        says(EmuError::UnreadableMemory { addr: 0x9000, bytes: 64 }),
        "read of 64 unreadable bits at 0x9000"
    );
    assert_eq!(
        says(EmuError::CallDepthExceeded { limit: 2, va: Va(0x10) }),
        "call to 0x10 would nest deeper than the limit of 2"
    );
}

#[test]
fn memory_gives_back_what_was_written_and_else_the_image() {
    let image = Snapshot {
        regions: vec![Region { start: Va(0x5000), bytes: vec![1, 2, 3, 4, 5, 6, 7, 8] }],
        code: vec![],
    };
    let mut m = Memory::new();
    assert_eq!(m.read(Some(&image), 0x5000, 32), Some(0x0403_0201));
    m.write(0x5002, 0xaabb, 16);
    assert_eq!(m.read(Some(&image), 0x5000, 64), Some(0x0807_0605_aabb_0201));
    assert_eq!(m.read(None, 0x5002, 16), Some(0xaabb));
    assert_eq!(m.read(None, 0x5000, 32), None);
    let blocks = one(vec![
        stmt(MicroStmt::Store { addr: constant(0x7000), value: constant(-2), bits: 64 }),
        ret(MicroExpr::Load { addr: Box::new(constant(0x7000)), bits: 8, signed: true }),
    ]);
    let mut e = Emulator::new(&blocks, None);
    assert_eq!(e.run().unwrap().ret, Some(u64::MAX - 1));
    assert!(e.touched().contains(&0x7000));
}

#[test]
fn entry_registers_are_invented_only_on_request() {
    let blocks = one(vec![ret(binary(BinOp::Sub, var("rdi.0"), var("rdi.0")))]);
    assert_eq!(fails(&blocks), EmuError::UndefinedVar("rdi.0".to_string()));
    let cfg = EmuConfig { entry_scratch: true, ..EmuConfig::default() };
    let r = Emulator::with_config(&blocks, None, cfg).run().unwrap();
    assert_eq!(r.ret, Some(0));
    assert_eq!(r.invented, vec!["rdi.0"]);
    let later = one(vec![ret(var("rdi.1"))]);
    assert_eq!(
        Emulator::with_config(&later, None, cfg).run().unwrap_err(),
        EmuError::UndefinedVar("rdi.1".to_string())
    );
    assert!(is_entry_version("rdi.0") && !is_entry_version("rdi.1"));
    assert_eq!(scratch_value("rdi.0"), scratch_value("rdi.0"));
}

#[test]
fn a_callee_runs_or_is_answered_by_a_stated_value() {
    let call = |va: u64| {
        one(vec![
            stmt(MicroStmt::Call {
                target: CallTarget::Direct { va: Va(va) },
                args: vec![constant(20)],
                ret: Some("rax.1".to_string()),
            }),
            ret(binary(BinOp::Add, var("rax.1"), constant(1))),
        ])
    };
    let mut code = BodyMap::new();
    assert!(code.is_empty());
    code.insert(Va(0x2000), one(vec![ret(binary(BinOp::Mul, var("rdi.0"), constant(2)))]));
    code.insert(
        Va(0x4000),
        one(vec![
            stmt(MicroStmt::Call {
                target: CallTarget::Direct { va: Va(0x4000) },
                args: vec![var("rdi.0")],
                ret: Some("rax.1".to_string()),
            }),
            ret(var("rax.1")),
        ]),
    );
    code.stub(Va(0x3000), 99);
    assert_eq!(code.len(), 2);
    let cfg = EmuConfig { calls: CallPolicy::Execute { max_depth: 2 }, ..EmuConfig::default() };
    let go = |va: u64| {
        let b = call(va);
        Emulator::with_config(&b, None, cfg).with_code(&code).with_arg_regs(vec!["rdi".to_string()]).run()
    };
    let r = go(0x2000).unwrap();
    assert_eq!((r.ret, r.calls, r.stubbed), (Some(41), 1, 0));
    let r = go(0x3000).unwrap();
    assert_eq!((r.ret, r.calls, r.stubbed), (Some(100), 0, 1));
    assert_eq!(go(0x4000).unwrap_err(), EmuError::CallDepthExceeded { limit: 2, va: Va(0x4000) });
    assert!(matches!(go(0x5000).unwrap_err(), EmuError::CallNotModelled(_)));
    assert!(matches!(fails(&call(0x2000)), EmuError::CallNotModelled(_)));
    assert!(describe_target(&CallTarget::Direct { va: Va(0x2000) }).contains("0x2000"));
}

#[test]
fn a_callee_can_be_a_function_of_its_arguments() {
    let b = one(vec![
        stmt(MicroStmt::Call {
            target: CallTarget::Direct { va: Va(0x3000) },
            args: vec![constant(20)],
            ret: Some("rax.1".to_string()),
        }),
        stmt(MicroStmt::Call {
            target: CallTarget::Direct { va: Va(0x4000) },
            args: vec![],
            ret: Some("rax.2".to_string()),
        }),
        ret(binary(BinOp::Add, var("rax.1"), var("rax.2"))),
    ]);
    let mut map = BodyMap::default();
    map.stub(Va(0x4000), 1000);
    let code = map.stub_with(|va, args| if va == 0x3000 { args[0].map(|a| a + 3) } else { None });
    let cfg = EmuConfig { calls: CallPolicy::Execute { max_depth: 2 }, ..EmuConfig::default() };
    let r = Emulator::with_config(&b, None, cfg).with_code(&code).with_arg_regs(vec!["rdi".to_string()]).run().unwrap();
    assert_eq!((r.ret, r.calls, r.stubbed), (Some(1023), 0, 2));
}

#[test]
fn a_float_result_is_asked_for_and_then_used() {
    let two = 2.0f64.to_bits();
    let blocks = one(vec![ret(MicroExpr::Call {
        target: CallTarget::Intrinsic("__addsd".to_string()),
        args: vec![constant(two as i128), constant(two as i128)],
    })]);
    let wanted = match fails(&blocks) {
        EmuError::FloatNotGiven(c) => c,
        e => panic!("{e:?}"),
    };
    assert_eq!(wanted, FloatCall { op: FloatOp::AddD, a: two, b: two });
    let fact = FloatFact { call: wanted, result: 4.0f64.to_bits() };
    let mut e = Emulator::new(&blocks, None).with_float_facts(vec![fact]);
    assert_eq!(e.run().unwrap().ret, Some(4.0f64.to_bits()));
}

#[test]
fn intrinsics_work_on_bits() {
    let none = Vec::new();
    let go = |name: &str, args: &[u128]| intrinsic(&none, name, &args.to_vec(), 0x100, 0x200);
    assert_eq!(go("__bswap", &[0x1122_3344]), Answer::Value(0x4433_2211_0000_0000));
    assert_eq!(go("__seg_fs", &[0x10]), Answer::Value(0x110));
    assert_eq!(go("__nothing", &[]), Answer::Gap);
    let max = go("__maxsd", &[1.5f64.to_bits() as u128, 2.5f64.to_bits() as u128]);
    assert_eq!(max, Answer::Value(2.5f64.to_bits() as u128));
    assert_eq!(go("__cvttsd2si", &[(-3.7f64).to_bits() as u128]), Answer::Value((-3i64) as u64 as u128));
}

#[test]
fn packed_operations_work_lane_by_lane() {
    let none = Vec::new();
    let go = |name: &str, args: &[u128]| match intrinsic(&none, name, &args.to_vec(), 0, 0) {
        Answer::Value(v) => Some(v),
        _ => None,
    };
    let a = 0x0f0e_0d0c_0b0a_0908_0706_0504_0302_01ffu128;
    let b = 0x0101_0101_0101_0101_0101_0101_0101_0101u128;
    assert_eq!(go("__paddb", &[a, b]), Some(0x100f_0e0d_0c0b_0a09_0807_0605_0403_0200));
    assert_eq!(go("__vpsubd", &[0, 1]), Some(0xffff_ffff));
    assert_eq!(go("__pcmpeqb", &[a, 0xff]), Some(0xff));
    assert_eq!(go("__pcmpgtb", &[0xff, 0]), Some(0), "bytes are compared with their signs");
    assert_eq!(go("__pcmpgtd", &[5, 0xffff_ffff]), Some(0xffff_ffff));
    assert_eq!(go("__punpcklbw", &[0x0201, 0x0403]), Some(0x0402_0301));
    assert_eq!(go("__punpckhqdq", &[a, b]), Some((0x0101_0101_0101_0101u128 << 64) | (a >> 64)));
    assert_eq!(go("__unpcklps", &[1, 2]), Some((2 << 32) | 1));
    assert_eq!(go("__pslldq", &[0xff, 15]), Some(0xff << 120));
    assert_eq!(go("__psrldq", &[a, 16]), Some(0));
    assert_eq!(go("__psllw", &[0x8001, 1]), Some(2));
    assert_eq!(go("__psrlq", &[0x10, 64]), Some(0));
    assert_eq!(go("__psrad", &[0x8000_0000, 99]), Some(0xffff_ffff));
    assert_eq!(go("__psllq", &[3, 1u128 << 32]), Some(0), "the whole operand is the count");
    assert_eq!(go("__pslld", &[1, 1u128 << 32]), Some(0));
    assert_eq!(go("__psrlw", &[8, 1u128 << 100]), Some(0));
    assert_eq!(go("__psrad", &[0x8000_0000, 1u128 << 64]), Some(0xffff_ffff));
    assert_eq!(go("__pslldq", &[1, 1u128 << 32]), Some(0));
    assert_eq!(go("__padd", &[a, b]), None);
    assert_eq!(go("__paddb", &[a]), None);
    let one = 1.0f64.to_bits() as u128;
    let nan = f64::NAN.to_bits() as u128;
    assert_eq!(go("__fcmp_olt_sd", &[one, 2.0f64.to_bits() as u128]), Some(1));
    assert_eq!(go("__fcmp_oeq_sd", &[nan, nan]), Some(0));
    assert_eq!(go("__fcmp_une_sd", &[nan, nan]), Some(1));
    assert_eq!(go("__fcmp_oeq_sd", &[0, (-0.0f64).to_bits() as u128]), Some(1));
    assert_eq!(go("__fcmpmask_oeq_pd", &[(one << 64) | one, one << 64]), Some((u64::MAX as u128) << 64));
    assert_eq!(go("__fcmpmask_olt_ss", &[0xaaaa_aaaa_0000_0000, 1.0f32.to_bits() as u128]), Some(0xaaaa_aaaa_ffff_ffff));
    assert_eq!(go("__minsd", &[nan, one]), Some(one), "the second operand where neither is less");
    assert_eq!(go("__cvttsd2si", &[1e300f64.to_bits() as u128]), Some(0x8000_0000_0000_0000));
    assert_eq!(go("__umulh", &[0xffff_ffff, 2, 32]), Some(1));
    assert_eq!(go("__udiv", &[1, 0, 2, 64]), Some(1 << 63));
    assert_eq!(intrinsic(&none, "__udiv", &vec![2, 0, 2, 64], 0, 0), Answer::Trap);
    assert_eq!(intrinsic(&none, "__idiv", &vec![0, 1, 0, 64], 0, 0), Answer::Trap);
    assert_eq!(go("__idiv", &[0xffff_ffff, 0xffff_fff9, 2, 32]), Some((-3i64) as u64 as u128));
    assert_eq!(go("__irem", &[0xffff_ffff, 0xffff_fff9, 2, 32]), Some((-1i64) as u64 as u128));
    assert_eq!(go("__cqo", &[1 << 63]), Some(u64::MAX as u128));
    assert_eq!(go("__cdq", &[0x8000_0000]), Some(0xffff_ffff));
}

#[test]
fn arithmetic_is_that_of_machine_words() {
    assert_eq!(binop(BinOp::Add, u64::MAX, 1), Some(0));
    assert_eq!(binop(BinOp::Slt, u64::MAX, 0), Some(1));
    assert_eq!(binop(BinOp::Ult, u64::MAX, 0), Some(0));
    assert_eq!(binop(BinOp::SDiv, (-7i64) as u64, 2), Some((-3i64) as u64));
    assert_eq!(binop(BinOp::UMod, 7, 0), None);
    assert_eq!(cut(0x1ff, 8), 0xff);
    assert_eq!(extend(0x80, 8, true) as u64, (-128i64) as u64);
    assert_eq!(sar(0x80, 3, 8), 0xf0);
    assert_eq!(shl(0x81, 1, 8), 0x02);
    let (q, r) = divide(read_signed((-7i64) as u64 as u128, 64), read_signed(2, 64));
    assert_eq!((to_word(q), to_word(r)), ((-3i64) as u64, (-1i64) as u64));
    let v = 0x0102_0304_0506_0708_090a_0b0c_0d0e_0f10u128;
    assert_eq!(from_lanes(&lanes(v, 32), 32), v);
    assert_eq!(lanes(v, 32)[0], 0x0d0e_0f10);
}

#[test]
fn blocks_without_statements_use_up_no_steps() {
    let spin = vec![
        block(0, 0x1000, "jmp", &[(0x1010, "jmp")], vec![]),
        block(1, 0x1010, "jmp", &[(0x1020, "jmp")], vec![]),
        block(2, 0x1020, "jmp", &[(0x1030, "jmp")], vec![]),
        block(3, 0x1030, "ret", &[], vec![ret(constant(7))]),
    ];
    let cfg = EmuConfig { max_steps: 1, ..EmuConfig::default() };
    assert_eq!(Emulator::with_config(&spin, None, cfg).run().unwrap().ret, Some(7));
}

#[test]
fn each_byte_is_read_from_where_it_is_known() {
    let image = Snapshot {
        regions: vec![Region { start: Va(0x5004), bytes: vec![5, 6, 7, 8] }],
        code: vec![],
    };
    let mut m = Memory::new();
    assert_eq!(m.read(Some(&image), 0x5000, 64), None);
    m.write(0x5000, 0x0403_0201, 32);
    assert_eq!(m.read(Some(&image), 0x5000, 64), Some(0x0807_0605_0403_0201));
    let blocks = one(vec![ret(load(constant(0x5000)))]);
    let mut e = Emulator::new(&blocks, Some(&image));
    e.write_mem(0x5000, 0x0403_0201, 32);
    assert_eq!(e.run().unwrap().ret, Some(0x0807_0605_0403_0201));
}

#[test]
fn opaque_flags_leave_their_destination_undefined() {
    let opaque = || MicroExpr::OpaqueFlags { mnemonic: "rcl".to_string() };
    let blocks = one(vec![assign("x.1", constant(5)), assign("x.1", opaque()), ret(var("x.1"))]);
    assert_eq!(fails(&blocks), EmuError::UndefinedVar("x.1".to_string()));
    let unread = one(vec![assign("x.1", opaque()), ret(constant(3))]);
    assert_eq!(run(&unread).unwrap().ret, Some(3));
}

#[test]
fn a_run_reports_its_own_accesses_and_inventions() {
    let blocks = one(vec![assign("x.1", var("rdi.0")), ret(load(constant(0x7000)))]);
    let cfg = EmuConfig { entry_scratch: true, ..EmuConfig::default() };
    let mut e = Emulator::with_config(&blocks, None, cfg);
    e.write_mem(0x9000, 1, 64);
    assert!(e.touched().is_empty());
    assert!(e.run().is_err());
    e.write_mem(0x7000, 4, 64);
    let r = e.run().unwrap();
    assert_eq!(r.ret, Some(4));
    assert!(r.invented.is_empty());
    assert!(e.touched().contains(&0x7000));
    assert!(!e.touched().contains(&0x9000));
}
