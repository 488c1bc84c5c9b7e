//! Whole functions through the back end.
use scry_backend::assemble::{assemble, CompiledCode};
use scry_backend::backend::{
    isa_builder, Architecture, FunctionCode, ScryBackend, StackSlot, Triple,
};
use scry_backend::cfg::VCodeCFG;
use scry_backend::emit::{CodeBuffer, EmitInfo, EmitState, Flags, RelocKind};
use scry_backend::inst::{BinaryAluOp, DoubleAluOp, IssueKind, MInst, ResizeVariant, UnaryAluOp};
use scry_backend::ir::{
    AbiParam, ArgumentExtension, ArgumentPurpose, ExternalName, IntCC, Signature, Type,
};
use scry_backend::isa;
use scry_backend::isa::Instruction::{
    Alu, Alu2, Call, Cast, Constant, Duplicate, Echo, EchoLong, Grow, Jump, LoadStack, NoOp,
    Pick, StackRes, StoreStack, Trap,
};
use scry_backend::isa::Type::{Int, Uint};
use scry_backend::isa::{Alu2OutputVariant, Alu2Variant, AluVariant, CallVariant};
use scry_backend::isatype::IsaType;
use scry_backend::passes::resolve::resolve_instruction_types;
use scry_backend::passes::stack_args::lower_stack_args;
use scry_backend::reg::{ArgPair, Block, CodegenError, MachLabel, Reg, VRegAllocator, VREG_LIMIT};
use scry_backend::vcode::{VCode, VCodeBlock};

fn v(i: u32) -> Reg {
    Reg::Virtual(i)
}

fn label(index: u32) -> MachLabel {
    MachLabel { index }
}

fn param(t: Type, e: ArgumentExtension) -> AbiParam {
    AbiParam { value_type: t, purpose: ArgumentPurpose::Normal, extension: e }
}

fn i32s(n: usize) -> Vec<AbiParam> {
    (0..n).map(|_| param(Type::I32, ArgumentExtension::NoExt)).collect()
}

fn arg(r: u32, i: u8) -> ArgPair {
    ArgPair { vreg: v(r), preg: Reg::Real(i) }
}

fn types(n: usize) -> Vec<Option<Type>> {
    (0..n).map(|_| Some(Type::I32)).collect()
}

fn block(insts: Vec<MInst>, params: Vec<Reg>, succs: Vec<(u32, Vec<Reg>)>) -> VCodeBlock {
    VCodeBlock {
        params,
        insts,
        succs: succs.into_iter().map(|(b, r)| (Block { index: b }, r)).collect(),
    }
}

fn function(
    blocks: Vec<VCodeBlock>,
    params: Vec<AbiParam>,
    rets: Vec<AbiParam>,
    reg_types: Vec<Option<Type>>,
) -> FunctionCode {
    FunctionCode {
        vcode: VCode { blocks, entry: Block { index: 0 } },
        sig: Signature { params, rets },
        reg_types,
        slots: vec![],
    }
}

fn backend() -> ScryBackend {
    isa_builder(Triple { architecture: Architecture::Scry }, Flags { bits: 5 }, Flags { bits: 6 })
}

fn compile(f: FunctionCode) -> Result<CompiledCode, CodegenError> {
    backend().compile_function(f)
}

const RET: isa::Instruction = Call(CallVariant::Ret, 0);

#[test]
fn an_addition_receives_its_operands_and_returns() {
    let insts = vec![
        MInst::Args { args: vec![arg(0, 0), arg(1, 1)] },
        MInst::BinaryAlu { op: BinaryAluOp::IntAddWrap, rd: v(2), rs1: v(0), rs2: v(1) },
        MInst::Rets { rets: vec![arg(2, 0)] },
    ];
    let code =
        compile(function(vec![block(insts, vec![], vec![])], i32s(2), i32s(1), types(3))).unwrap();
    assert_eq!(code.bb_starts, vec![0]);
    assert_eq!(
        code.insts,
        vec![EchoLong(0), Alu2(Alu2Variant::Add, Alu2OutputVariant::LowOnly, 1), RET]
    );
    assert!(code.relocs.is_empty());
}

fn single(insts: Vec<MInst>, params: usize, rets: usize) -> Vec<isa::Instruction> {
    compile(function(vec![block(insts, vec![], vec![])], i32s(params), i32s(rets), types(8)))
        .unwrap()
        .insts
}

#[test]
fn a_conditional_trap_is_a_jump_over_a_trap() {
    let insts = vec![
        MInst::Args { args: vec![arg(0, 0)] },
        MInst::TrapNz { cond: v(0) },
        MInst::Rets { rets: vec![] },
    ];
    assert_eq!(single(insts, 1, 0), vec![EchoLong(0), Jump(1, 0), Trap, RET]);
    assert_eq!(single(vec![MInst::Trap], 0, 0), vec![Trap]);
}

#[test]
fn a_choice_is_emitted() {
    let insts = vec![
        MInst::Args { args: vec![arg(0, 0), arg(1, 1), arg(2, 2)] },
        MInst::Pick { rd: v(3), cond: v(0), if_zero: v(1), if_nonzero: v(2), out: 0 },
        MInst::Rets { rets: vec![arg(3, 0)] },
    ];
    assert_eq!(
        single(insts, 3, 1),
        vec![
            // The condition and the first value, which arrive in the other order.
            Echo(true, 1, 1),
            EchoLong(1),
            Echo(false, 0, 1),
            // The values, put in order behind the condition.
            Echo(false, 0, 0),
            Pick(1),
            RET,
        ]
    );
}

#[test]
fn both_outputs_of_an_operation_are_kept() {
    let sum = |used: Vec<MInst>, rets: Vec<ArgPair>| {
        let mut insts = vec![
            MInst::Args { args: vec![arg(0, 0), arg(1, 1)] },
            MInst::DoubleAlu {
                op: DoubleAluOp::UaddOverflow,
                rdl: v(2),
                rdh: v(3),
                rs1: v(0),
                rs2: v(1),
            },
        ];
        insts.extend(used);
        insts.push(MInst::Rets { rets });
        insts
    };
    let negated = |rs: u32| vec![MInst::UnaryAlu {
        op: UnaryAluOp::BitNeg,
        rd: v(4),
        rs: v(rs),
        out: 0,
    }];
    // Both go to the return.
    assert_eq!(
        single(sum(vec![], vec![arg(2, 0), arg(3, 1)]), 2, 2),
        vec![EchoLong(0), Alu2(Alu2Variant::Add, Alu2OutputVariant::LowFirst, 1), RET]
    );
    // One goes to the next instruction.
    assert_eq!(
        single(sum(negated(2), vec![arg(3, 0), arg(4, 1)]), 2, 2),
        vec![
            EchoLong(0),
            Alu2(Alu2Variant::Add, Alu2OutputVariant::NextLow, 2),
            Alu(AluVariant::Equal, 1),
            RET,
        ]
    );
    assert_eq!(
        single(sum(negated(3), vec![arg(2, 0), arg(4, 1)]), 2, 2),
        vec![
            EchoLong(0),
            Alu2(Alu2Variant::Add, Alu2OutputVariant::NextHigh, 2),
            Alu(AluVariant::Equal, 1),
            RET,
        ]
    );
}

#[test]
fn a_value_that_is_only_passed_on_arrives() {
    let jump = |link: u32, dst: u32| {
        vec![
            MInst::JumpIssue { link: v(link), dst: label(dst), kind: IssueKind::Jump, trig: 0 },
            MInst::JumpTrigger { link: v(link), args: vec![] },
        ]
    };
    let mut first = vec![MInst::Args { args: vec![arg(0, 0)] }];
    first.extend(jump(1, 1));
    let code = compile(function(
        vec![
            block(first, vec![], vec![(1, vec![])]),
            block(jump(2, 2), vec![], vec![(2, vec![v(0)])]),
            block(vec![MInst::Rets { rets: vec![arg(3, 0)] }], vec![v(3)], vec![]),
        ],
        i32s(1),
        i32s(1),
        types(4),
    ))
    .unwrap();
    assert_eq!(code.insts, vec![EchoLong(1), NoOp, EchoLong(1), NoOp, EchoLong(1), RET]);
}

#[test]
fn fresh_registers_clash_with_no_register_of_a_block() {
    let insts = vec![MInst::Args { args: vec![] }, MInst::ImmJump { dst: label(1) }];
    let vcode = VCode {
        blocks: vec![
            block(insts, vec![], vec![(1, vec![v(9)])]),
            block(vec![MInst::Rets { rets: vec![] }], vec![v(6)], vec![]),
        ],
        entry: Block { index: 0 },
    };
    let (vcode, vregs) = backend().compile_vcode(vcode).unwrap();
    assert_eq!(vregs.next, 10);
    let VCode { mut blocks, entry } = vcode;
    blocks[0].succs[0].1[0] = v(2);
    let (_, vregs) = backend().compile_vcode(VCode { blocks, entry }).unwrap();
    assert_eq!(vregs.next, 7);
}

#[test]
fn registers_are_as_many_as_the_allocator_has() {
    assert_eq!(VREG_LIMIT as usize, regalloc2::VReg::MAX);
}

#[test]
fn spent_registers_are_told_from_malformed_code() {
    let insts = || vec![
        MInst::Args { args: vec![arg(0, 0)] },
        MInst::BinaryAlu { op: BinaryAluOp::IntAddWrap, rd: v(2), rs1: v(0), rs2: v(0) },
        MInst::Rets { rets: vec![arg(2, 0)] },
    ];
    let f = || function(vec![block(insts(), vec![], vec![])], i32s(1), i32s(1), types(3));
    let mut few = VRegAllocator { next: VREG_LIMIT - 1 };
    assert!(matches!(backend().compile_code(f(), &mut few), Err(CodegenError::CodeTooLarge)));
    assert_eq!(few.next, VREG_LIMIT);
    let mut enough = VRegAllocator { next: 3 };
    assert!(backend().compile_code(f(), &mut enough).is_ok());
    assert!(enough.next > 3);
}

#[test]
fn of_a_callees_area_16_bits_are_adjusted() {
    let reserved = |params: usize| {
        let mut insts = vec![MInst::LoadExtName {
            rd: v(0),
            name: ExternalName { namespace: 0, index: 0 },
            offset: 0,
        }];
        insts.push(MInst::Const { ty: IsaType::Invalid, rd: v(1), imm: 7 });
        for _ in 4..params {
            insts.push(MInst::StoreStackArg { rs: v(1), offset: 0, scale_pow2: 2 });
        }
        insts.push(MInst::Call { link: v(2), fun: v(0), trig: 0 });
        insts.push(MInst::CallArgs {
            link: v(2),
            rets: vec![],
            args: vec![],
            sig: Signature {
                params: (0..params).map(|_| param(Type::I128, ArgumentExtension::NoExt)).collect(),
                rets: vec![],
            },
        });
        insts.push(MInst::Rets { rets: vec![] });
        let sig = Signature { params: vec![], rets: vec![] };
        let cfg = lower_stack_args(graph_of(insts), &sig, 0, &mut VRegAllocator { next: 10 });
        let mut pows = vec![];
        for inst in &cfg.unwrap().blocks[0].inst {
            if let MInst::StackAdjust { reserve: true, private: false, amount_pow2 } = inst {
                pows.push(*amount_pow2);
            }
        }
        pows
    };
    assert_eq!(reserved(4), vec![]);
    assert_eq!(reserved(4 + 5), vec![4, 6]);
    assert_eq!(reserved(4 + 4095), (4..16).collect::<Vec<u16>>());
    assert_eq!(reserved(4 + 4096), vec![]);
    assert_eq!(reserved(4 + 4097), vec![4]);
}

fn lowered_call(
    store: MInst,
    results: u32,
    used: bool,
    rets: usize,
) -> Result<Vec<String>, CodegenError> {
    let mut insts = vec![
        store,
        MInst::Call { link: v(2), fun: v(0), trig: 0 },
        MInst::CallArgs {
            link: v(2),
            rets: (0..results).map(|r| arg(3 + r, 0)).collect(),
            args: vec![],
            sig: Signature { params: i32s(5), rets: i32s(rets) },
        },
    ];
    if used {
        insts.push(MInst::Discard { rss: (0..results).map(|r| v(3 + r)).collect() });
    }
    let sig = Signature { params: vec![], rets: vec![] };
    lower_stack_args(graph_of(insts), &sig, 64, &mut VRegAllocator { next: 10 })
        .map(|cfg| cfg.blocks[0].inst.iter().map(|i| i.print_with_state()).collect())
}

fn arg_store(scale_pow2: u16) -> MInst {
    MInst::StoreStackArg { rs: v(1), offset: 0, scale_pow2 }
}

#[test]
fn results_need_a_place_in_the_signature_only_on_the_stack() {
    // Two results arrive as operands, whatever the signature says.
    let two = lowered_call(arg_store(2), 2, true, 0).unwrap();
    assert!(two.contains(&"Discard(rss:, v(10), v(11), )".to_string()));
    // A fifth is loaded where it is used.
    let five = lowered_call(arg_store(2), 5, true, 5).unwrap();
    assert!(five.contains(&"LoadStack(ty: Invalid, rd:, v(7), idx: 16, )".to_string()));
    assert_eq!(lowered_call(arg_store(2), 5, true, 4), Err(CodegenError::Malformed));
    assert!(lowered_call(arg_store(2), 5, false, 4).is_ok());
}

#[test]
fn argument_stores_take_every_scale_of_32_bits() {
    let stored = |p: u16| lowered_call(arg_store(p), 0, false, 0).map(|t| t[1].clone());
    assert_eq!(stored(2).unwrap(), "StoreStack(rs:, v(1), idx: 16, )");
    assert_eq!(stored(5).unwrap(), "StoreStack(rs:, v(1), idx: 2, )");
    assert_eq!(stored(6).unwrap(), "StoreStack(rs:, v(1), idx: 1, )");
    // Not a multiple of the scale.
    assert_eq!(stored(31).unwrap(), "SAddr(rd:, v(10), scale_pow2: 3, idx: 8, )");
    assert_eq!(stored(32), Err(CodegenError::Malformed));
}

fn graph_of(insts: Vec<MInst>) -> VCodeCFG {
    let vcode =
        VCode { blocks: vec![block(insts, vec![], vec![])], entry: Block { index: 0 } };
    VCodeCFG::from_vcode(&vcode, &mut VRegAllocator { next: 10 }).unwrap()
}

#[test]
fn no_stack_passed_value_is_left_after_lowering() {
    let insts = vec![
        MInst::StoreStackArg { rs: v(1), offset: 0, scale_pow2: 2 },
        MInst::Call { link: v(2), fun: v(0), trig: 0 },
        MInst::CallArgs {
            link: v(2),
            rets: (3..8).map(|r| arg(r, 0)).collect(),
            args: vec![],
            sig: Signature { params: i32s(5), rets: i32s(5) },
        },
        MInst::Ret { trig: 0 },
        MInst::Rets { rets: (3..8).map(|r| arg(r, 0)).collect() },
    ];
    let sig = Signature { params: vec![], rets: i32s(5) };
    let cfg =
        lower_stack_args(graph_of(insts), &sig, 0, &mut VRegAllocator { next: 10 }).unwrap();
    for inst in &cfg.blocks[0].inst {
        match inst {
            MInst::StoreStackArg { .. } => panic!("an argument store is left"),
            MInst::CallArgs { rets, .. } => assert_eq!(rets.len(), 4),
            MInst::Rets { rets } => assert_eq!(rets.len(), 4),
            _ => {}
        }
    }
}

#[test]
fn no_typed_instruction_is_left_after_resolution() {
    let insts = vec![
        MInst::Args { args: vec![arg(0, 0), arg(1, 1)] },
        MInst::BinaryAlu { op: BinaryAluOp::BitAnd, rd: v(2), rs1: v(0), rs2: v(1) },
        MInst::DoubleAlu {
            op: DoubleAluOp::UdivRem,
            rdl: v(3),
            rdh: v(4),
            rs1: v(2),
            rs2: v(1),
        },
        MInst::IntCmp { cc: IntCC::Equal, rd: v(5), rs1: v(3), rs2: v(4) },
        MInst::Resize { var: ResizeVariant::Uextend, rd: v(6), rs: v(5) },
        MInst::Rets { rets: vec![arg(6, 0)] },
    ];
    let mut t = types(8);
    t[5] = Some(Type::I8);
    let sig = Signature { params: i32s(2), rets: i32s(1) };
    let cfg = resolve_instruction_types(
        graph_of(insts),
        t,
        &sig,
        &mut VRegAllocator { next: 10 },
    )
    .unwrap();
    let typed = |i: &MInst| matches!(
        i,
        MInst::BinaryAlu { .. } | MInst::DoubleAlu { .. } | MInst::IntCmp { .. }
            | MInst::Resize { .. }
    );
    assert!(!cfg.blocks[0].inst.iter().any(typed));
    assert!(matches!(
        cfg.blocks[0].inst[2],
        MInst::Alu2 { out_var: Alu2OutputVariant::LowFirst, .. }
    ));
}

fn either_of(cc: IntCC) -> FunctionCode {
    let mut t = types(8);
    t[2] = Some(Type::I8);
    let entry = vec![
        MInst::Args { args: vec![arg(0, 0), arg(1, 1)] },
        MInst::IntCmp { cc, rd: v(2), rs1: v(0), rs2: v(1) },
        MInst::JumpIssue {
            link: v(3),
            dst: label(1),
            kind: IssueKind::Branch { dir: false, cond: v(2) },
            trig: 0,
        },
        MInst::JumpTrigger { link: v(3), args: vec![] },
    ];
    function(
        vec![
            block(entry, vec![], vec![(1, vec![]), (2, vec![])]),
            block(vec![MInst::ImmJump { dst: label(3) }], vec![], vec![(3, vec![v(0)])]),
            block(vec![MInst::ImmJump { dst: label(3) }], vec![], vec![(3, vec![v(1)])]),
            block(vec![MInst::Rets { rets: vec![arg(4, 0)] }], vec![v(4)], vec![]),
        ],
        i32s(2),
        i32s(1),
        t,
    )
}

#[test]
fn a_branch_passes_its_values_to_both_arms() {
    let code = compile(either_of(IntCC::SignedLessThan)).unwrap();
    assert_eq!(code.bb_starts, vec![0, 8, 11, 13]);
    assert_eq!(
        code.insts,
        vec![
            // The parameters are each used by the comparison and passed on.
            Echo(false, 1, 0),
            Duplicate(false, 1, 3),
            Duplicate(false, 0, 2),
            Echo(false, 0, 0),
            Alu(AluVariant::LessThan, 1),
            Echo(false, 2, 2),
            // The branch jumps forward, so its condition is negated.
            Alu(AluVariant::Equal, 0),
            Jump(5, 0),
            // The arm that is fallen through to, and its jump to the next block.
            Echo(false, 0, 2),
            NoOp,
            NoOp,
            // The join.
            EchoLong(1),
            RET,
            // The other arm, and its jump back to the join.
            Echo(false, 2, 0),
            NoOp,
            Jump(-4, 0),
        ]
    );
}

#[test]
fn unsupported_conditions_are_refused() {
    assert!(matches!(compile(either_of(IntCC::NotEqual)), Err(CodegenError::Malformed)));
}

#[test]
fn stack_arguments_go_to_the_callees_area() {
    let insts = vec![
        MInst::Args { args: vec![arg(0, 0)] },
        MInst::LoadExtName {
            rd: v(1),
            name: ExternalName { namespace: 0, index: 7 },
            offset: 4,
        },
        MInst::StoreStackArg { rs: v(0), offset: 0, scale_pow2: 2 },
        MInst::StoreStackArg { rs: v(0), offset: 4, scale_pow2: 2 },
        MInst::Call { link: v(3), fun: v(1), trig: 0 },
        MInst::CallArgs {
            link: v(3),
            rets: vec![arg(4, 0)],
            args: vec![arg(0, 0), arg(0, 1), arg(0, 2), arg(0, 3)],
            sig: Signature { params: i32s(6), rets: i32s(1) },
        },
        MInst::Rets { rets: vec![arg(4, 0)] },
    ];
    let mut f = function(vec![block(insts, vec![], vec![])], i32s(1), i32s(1), types(5));
    f.slots = vec![StackSlot { offset: 0, size: 20 }];
    let code = compile(f).unwrap();
    assert_eq!(
        code.insts,
        vec![
            EchoLong(0),
            Duplicate(false, 0, 15),
            Duplicate(false, 0, 13),
            Duplicate(false, 0, 11),
            Duplicate(false, 0, 10),
            Duplicate(false, 7, 8),
            // The slots take 32 bytes of the private frame.
            StackRes(true, 5, true),
            // The callee's address.
            Constant(Uint(2), 0),
            Grow(0),
            Grow(0),
            Grow(0),
            EchoLong(6),
            // The callee's area starts behind the private frame.
            StackRes(true, 3, false),
            StoreStack(8),
            StoreStack(9),
            Echo(false, 0, 3),
            Echo(false, 0, 2),
            Echo(false, 1, 1),
            Call(CallVariant::Call, 0),
            EchoLong(3),
            StackRes(false, 3, false),
            StackRes(false, 5, false),
            RET,
        ]
    );
}

#[test]
fn stack_parameters_are_loaded_from_the_frame() {
    let insts = vec![
        MInst::Args { args: vec![arg(0, 0)] },
        MInst::LoadStack { ty: IsaType::Integer(2), rd: v(1), idx: 1 },
        MInst::BinaryAlu { op: BinaryAluOp::IntSubWrap, rd: v(2), rs1: v(1), rs2: v(0) },
        MInst::Rets { rets: vec![arg(2, 0)] },
    ];
    let code =
        compile(function(vec![block(insts, vec![], vec![])], i32s(6), i32s(1), types(3))).unwrap();
    assert_eq!(
        code.insts,
        vec![
            Echo(true, 4, 1),
            EchoLong(0),
            // Three unused parameters.
            NoOp,
            StackRes(true, 3, true),
            LoadStack(Uint(2), 1),
            // The loaded value comes first.
            Echo(false, 0, 0),
            Alu2(Alu2Variant::Sub, Alu2OutputVariant::LowOnly, 2),
            StackRes(false, 3, false),
            RET,
        ]
    );
}

#[test]
fn a_conflicting_signedness_is_cast() {
    let insts = vec![
        MInst::Args { args: vec![arg(0, 0), arg(1, 1)] },
        MInst::IntCmp { cc: IntCC::UnsignedLessThan, rd: v(2), rs1: v(0), rs2: v(1) },
        MInst::Rets { rets: vec![arg(2, 0)] },
    ];
    let mut t = types(3);
    t[2] = Some(Type::I8);
    let params =
        vec![param(Type::I32, ArgumentExtension::Sext), param(Type::I32, ArgumentExtension::NoExt)];
    let rets = vec![param(Type::I8, ArgumentExtension::NoExt)];
    let code = compile(function(vec![block(insts, vec![], vec![])], params, rets, t)).unwrap();
    assert_eq!(
        code.insts,
        vec![
            Echo(false, 0, 1),
            Cast(Uint(2), 0),
            Echo(false, 0, 0),
            Alu(AluVariant::LessThan, 1),
            RET,
        ]
    );
}

#[test]
fn far_jumps_take_their_offset_from_an_operand() {
    let mut long: Vec<MInst> = (0..80).map(|_| MInst::Nop).collect();
    long.push(MInst::JumpIssue { link: v(0), dst: label(1), kind: IssueKind::Jump, trig: 0 });
    long.push(MInst::JumpTrigger { link: v(0), args: vec![] });
    let start = vec![
        MInst::JumpIssue { link: v(1), dst: label(1), kind: IssueKind::Jump, trig: 0 },
        MInst::JumpTrigger { link: v(1), args: vec![] },
    ];
    let code = compile(function(
        vec![
            block(start, vec![], vec![(1, vec![])]),
            block(long, vec![], vec![(1, vec![])]),
        ],
        vec![],
        vec![],
        vec![],
    ))
    .unwrap();
    assert_eq!(code.bb_starts, vec![0, 1]);
    assert_eq!(code.insts.len(), 86);
    assert_eq!(
        code.insts[81..],
        // A backward jump is taken on a non-zero condition; -84 leads from
        // address 85 to address 1.
        [Constant(Uint(0), 1), EchoLong(2), Constant(Int(1), 0xff), Grow(0xac), Jump(0, 0)]
    );
}

#[test]
fn jump_tables_reach_every_target() {
    let mut ctx = scry_backend::lower::ScryIsleContext {
        sig: Signature { params: i32s(1), rets: i32s(1) },
        values: scry_backend::lower::DataFlowGraph {
            values: vec![scry_backend::lower::ValueData { reg: v(0), ty: Type::I32 }],
        },
        slot_offsets: vec![],
        emitted: vec![MInst::Args { args: vec![arg(0, 0)] }],
        vregs: VRegAllocator { next: 1 },
    };
    ctx.lower_br_table(0, &vec![label(1), label(2)], &vec![]).unwrap();
    let leave = |b: u32| {
        vec![MInst::Const { ty: IsaType::Invalid, rd: v(b), imm: b as i64 }, MInst::Rets {
            rets: vec![arg(b, 0)],
        }]
    };
    let mut t = types(22);
    t[2] = Some(Type::I8);
    let code = compile(function(
        vec![
            block(ctx.emitted, vec![], vec![(1, vec![]), (2, vec![])]),
            block(leave(20), vec![], vec![]),
            block(leave(21), vec![], vec![]),
        ],
        i32s(1),
        i32s(1),
        t,
    ))
    .unwrap();
    assert_eq!(code.bb_starts, vec![0, 6, 9]);
    assert_eq!(
        code.insts,
        vec![
            EchoLong(1),
            Constant(Uint(2), 0),
            Alu(AluVariant::Equal, 1),
            // The default is laid out next and is fallen through to.
            NoOp,
            // The case jumps forward, so on zero.
            Alu(AluVariant::Equal, 0),
            Jump(3, 0),
            Constant(Uint(2), 20),
            EchoLong(1),
            RET,
            Constant(Uint(2), 21),
            EchoLong(1),
            RET,
        ]
    );
}

#[test]
fn call_to_import_emits_reloc() {
    let insts = vec![
        MInst::LoadExtName {
            rd: v(0),
            name: ExternalName { namespace: 0, index: 0 },
            offset: 0,
        },
        MInst::Call { link: v(1), fun: v(0), trig: 0 },
        MInst::CallArgs {
            link: v(1),
            rets: vec![],
            args: vec![],
            sig: Signature { params: vec![], rets: vec![] },
        },
        MInst::Rets { rets: vec![] },
    ];
    let code = compile(function(vec![block(insts, vec![], vec![])], vec![], vec![], types(1)))
        .unwrap();
    let reloc = code
        .relocs
        .iter()
        .find(|r| r.name == ExternalName { namespace: 0, index: 0 })
        .expect("a relocation against the callee");
    assert_eq!(reloc.kind, RelocKind::ScryAbs32);
    assert_eq!(reloc.addend, 0);
}

fn takes_address(offset: i64) -> FunctionCode {
    let insts = vec![
        MInst::LoadExtName { rd: v(0), name: ExternalName { namespace: 1, index: 0 }, offset },
        MInst::Rets { rets: vec![arg(0, 0)] },
    ];
    function(vec![block(insts, vec![], vec![])], vec![], i32s(1), types(1))
}

#[test]
fn symbol_value_emits_reloc() {
    let code = compile(takes_address(0)).unwrap();
    let reloc = code
        .relocs
        .iter()
        .find(|r| r.name == ExternalName { namespace: 1, index: 0 })
        .expect("a relocation against the datum");
    assert_eq!(reloc.kind, RelocKind::ScryAbs32);
    assert_eq!(reloc.addend, 0);
}

#[test]
fn symbol_value_offset_becomes_addend() {
    let code = compile(takes_address(4)).unwrap();
    let reloc = code
        .relocs
        .iter()
        .find(|r| r.name == ExternalName { namespace: 1, index: 0 })
        .expect("a relocation against the datum");
    assert_eq!(reloc.kind, RelocKind::ScryAbs32);
    assert_eq!(reloc.addend, 4, "the offset must land in the addend");
    // The address itself is left open.
    assert_eq!(code.insts[..4], [Constant(Uint(2), 0), Grow(0), Grow(0), Grow(0)]);
}

#[test]
fn types_without_registers_are_refused() {
    let mut f = takes_address(0);
    f.reg_types = vec![Some(Type::F64)];
    assert!(matches!(compile(f), Err(CodegenError::UnsupportedType(Type::F64))));
}

#[test]
fn contradicting_types_are_refused() {
    // The negation is a boolean of one byte, but its register has four.
    let insts = vec![
        MInst::Args { args: vec![arg(0, 0)] },
        MInst::UnaryAlu { op: UnaryAluOp::LogNeg, rd: v(1), rs: v(0), out: 0 },
        MInst::Rets { rets: vec![arg(1, 0)] },
    ];
    let f = function(vec![block(insts, vec![], vec![])], i32s(1), i32s(1), types(2));
    assert!(matches!(compile(f), Err(CodegenError::TypeConflict)));
}

#[test]
fn functions_with_too_many_registers_are_refused() {
    let insts = vec![
        MInst::Const { ty: IsaType::Invalid, rd: v(VREG_LIMIT), imm: 0 },
        MInst::Rets { rets: vec![arg(VREG_LIMIT, 0)] },
    ];
    let f = function(vec![block(insts, vec![], vec![])], vec![], i32s(1), vec![]);
    assert!(matches!(compile(f), Err(CodegenError::CodeTooLarge)));
}

#[test]
fn frames_of_64_kib_are_refused() {
    let insts = vec![MInst::Rets { rets: vec![] }];
    let mut f = function(vec![block(insts, vec![], vec![])], vec![], vec![], vec![]);
    f.slots = vec![StackSlot { offset: 0, size: 65536 }];
    assert!(matches!(compile(f), Err(CodegenError::Malformed)));
}

#[test]
fn uses_without_a_definition_are_refused() {
    let insts = vec![MInst::Rets { rets: vec![arg(3, 0)] }];
    let f = function(vec![block(insts, vec![], vec![])], vec![], i32s(1), types(4));
    assert!(matches!(compile(f), Err(CodegenError::Malformed)));
}

#[test]
fn pseudo_instructions_are_not_emitted() {
    let mut sink = CodeBuffer { insts: vec![], labels: vec![], relocs: vec![] };
    let pseudo = MInst::BinaryAlu { op: BinaryAluOp::BitOr, rd: v(0), rs1: v(1), rs2: v(2) };
    assert_eq!(pseudo.emit(&mut sink), Err(CodegenError::Malformed));
    // A reference of more than five bits.
    let far = MInst::Alu1 { var: AluVariant::Equal, rd: v(0), rss: vec![], out: 32 };
    assert_eq!(far.emit(&mut sink), Err(CodegenError::Malformed));
    // Two different references, neither to the next instruction.
    let apart = MInst::Alu2 {
        var: Alu2Variant::Add,
        out_var: Alu2OutputVariant::LowFirst,
        rds: vec![v(0), v(1)],
        rss: vec![v(2), v(3)],
        outs: vec![1, 2],
    };
    assert_eq!(apart.emit(&mut sink), Err(CodegenError::Malformed));
    assert!(sink.insts.is_empty());
    let long = MInst::EchoLong { rds: vec![v(0)], rss: vec![v(1)], out: 32 };
    assert_eq!(long.emit(&mut sink), Ok(()));
    assert_eq!(sink.insts, vec![EchoLong(32)]);
}

#[test]
fn labels_are_resolved_or_refused() {
    let jump = |dst: u32| {
        vec![
            MInst::JumpIssue { link: v(0), dst: label(dst), kind: IssueKind::Jump, trig: 0 },
            MInst::JumpTrigger { link: v(0), args: vec![] },
        ]
    };
    let code = assemble(&vec![jump(1), vec![MInst::Nop], jump(0)]).unwrap();
    assert_eq!(code.insts, vec![NoOp, NoOp, Jump(-2, 0)]);
    assert_eq!(code.bb_starts, vec![0, 1, 2]);
    assert!(matches!(assemble(&vec![jump(7)]), Err(CodegenError::Malformed)));
    let far: Vec<MInst> = (0..100).map(|_| MInst::Nop).collect();
    assert!(matches!(assemble(&vec![jump(2), far, vec![]]), Err(CodegenError::Malformed)));
}

#[test]
fn the_back_end_tells_what_it_is() {
    let b = backend();
    assert_eq!(b.name(), "scry");
    assert_eq!(b.triple().architecture, Architecture::Scry);
    assert_eq!(b.flags().bits, 5);
    assert_eq!(b.isa_flags().bits, 6);
    assert_eq!(b.page_size_align_log2(), 12);
    assert_eq!(b.function_alignment().preferred, 2);
    assert_eq!(b.default_argument_extension(), ArgumentExtension::NoExt);
    assert!(!b.has_native_fma());
    assert!(!b.has_round());
    let info = EmitInfo::new(Flags { bits: 1 }, Flags { bits: 2 });
    assert_eq!(info.shared_flag.bits, 1);
    let mut state = EmitState::new(64);
    state.pre_safepoint(Some(3));
    assert_eq!(state.user_stack_map, Some(3));
    assert_eq!(state.frame_size, 64);
}
