//! Properties of single instructions.
use scry_backend::inst::{
    BinaryAluOp, DoubleAluOp, IssueKind, MInst, OperandKind, ResizeVariant, UnaryAluOp,
};
use scry_backend::ir::{
    AbiParam, ArgumentExtension, ArgumentPurpose, ExternalName, IntCC, Signature, Type,
};
use scry_backend::isa;
use scry_backend::isa::{Alu2OutputVariant, Alu2Variant, AluVariant};
use scry_backend::isatype::IsaType;
use scry_backend::machinst::{MachTerminator, RegClass};
use scry_backend::print::{reg_name, wreg_name};
use scry_backend::reg::{ArgPair, CodegenError, MachLabel, Reg, WritableReg};

fn v(i: u32) -> Reg {
    Reg::Virtual(i)
}

fn pair(i: u32) -> ArgPair {
    ArgPair { vreg: v(i), preg: v(i) }
}

#[test]
fn registers_are_named_by_their_index() {
    assert_eq!(reg_name(v(0)), "v(0)");
    assert_eq!(reg_name(v(1907)), "v(1907)");
    assert_eq!(wreg_name(WritableReg::from_reg(v(42))), "v(42)");
    assert_eq!(v(7).virtual_index(), Some(7));
    assert_eq!(Reg::Real(3).virtual_index(), None);
    assert_eq!(Reg::Real(3).hw_enc(), Some(3));
}

#[test]
fn branches_and_conditional_far_jumps_are_conditional() {
    assert!(!IssueKind::Jump.is_conditional());
    assert!(IssueKind::Branch { dir: false, cond: v(0) }.is_conditional());
    let far = |conditional| IssueKind::Far { conditional, dir: true, cond: v(0), offset: v(1) };
    assert!(far(true).is_conditional());
    assert!(!far(false).is_conditional());
}

#[test]
fn uses_come_in_operand_order() {
    assert_eq!(MInst::Store { rd: v(1), rs: v(2) }.get_uses(), vec![v(2), v(1)]);
    let far = MInst::JumpIssue {
        link: v(0),
        dst: MachLabel { index: 0 },
        kind: IssueKind::Far { conditional: true, dir: true, cond: v(5), offset: v(6) },
        trig: 0,
    };
    assert_eq!(far.get_uses(), vec![v(5), v(6)]);
    assert_eq!(far.get_defs(), vec![]);
}

#[test]
fn definitions_come_in_production_order() {
    let chain = MInst::EchoChain {
        rd1: v(1),
        rd2: v(2),
        rs1: v(3),
        rs2: v(4),
        out1: 0,
        out2: 0,
        rd_chain: vec![v(5), v(6)],
        rs_chain: vec![v(7), v(8)],
    };
    assert_eq!(chain.get_defs(), vec![v(2), v(1), v(5), v(6)]);
    assert_eq!(chain.get_uses(), vec![v(3), v(4), v(7), v(8)]);
    let reorder = MInst::Reorder { rd1: v(1), rd2: v(2), rs1: v(3), rs2: v(4), out: 0 };
    assert_eq!(reorder.get_defs(), vec![v(2), v(1)]);
}

#[test]
fn set_uses_are_read_back() {
    let mut inst = MInst::Pick { rd: v(0), cond: v(1), if_zero: v(2), if_nonzero: v(3), out: 0 };
    inst.set_uses(&vec![v(7), v(8), v(9)]);
    assert_eq!(inst.get_uses(), vec![v(7), v(8), v(9)]);
    assert_eq!(inst.get_defs(), vec![v(0)]);
    inst.set_defs(&vec![v(4)]);
    assert_eq!(inst.get_defs(), vec![v(4)]);
}

#[test]
fn operands_include_the_link() {
    let trigger = MInst::JumpTrigger { link: v(9), args: vec![v(1)] };
    let ops = trigger.get_operands();
    assert!(ops.contains(&(v(9), OperandKind::Use)));
    assert!(ops.contains(&(v(1), OperandKind::Use)));
    let issue = MInst::JumpIssue {
        link: v(9),
        dst: MachLabel { index: 0 },
        kind: IssueKind::Jump,
        trig: 0,
    };
    assert!(issue.get_operands().contains(&(v(9), OperandKind::Def)));
}

#[test]
fn commutative_operations_ignore_operand_order() {
    let add = MInst::BinaryAlu { op: BinaryAluOp::IntAddWrap, rd: v(0), rs1: v(1), rs2: v(2) };
    let sub = MInst::BinaryAlu { op: BinaryAluOp::IntSubWrap, rd: v(0), rs1: v(1), rs2: v(2) };
    assert!(!add.use_order_meaningful());
    assert!(sub.use_order_meaningful());
    let div = MInst::DoubleAlu {
        op: DoubleAluOp::UdivRem,
        rdl: v(0),
        rdh: v(1),
        rs1: v(2),
        rs2: v(3),
    };
    assert!(div.use_order_meaningful());
    let xor = MInst::Alu1 { var: AluVariant::BitXor, rd: v(0), rss: vec![v(1), v(2)], out: 0 };
    assert!(!xor.use_order_meaningful());
}

#[test]
fn constants_are_emitted_in_as_few_bytes_as_extend_to_them() {
    assert_eq!(MInst::const_emit_bytes(isa::Type::Int(2), -2), vec![0xfe]);
    assert_eq!(MInst::const_emit_bytes(isa::Type::Uint(2), 300), vec![0x2c, 0x01]);
    assert_eq!(MInst::const_emit_bytes(isa::Type::Uint(2), 200), vec![200]);
    assert_eq!(MInst::const_emit_bytes(isa::Type::Int(2), 200), vec![200, 0]);
    assert_eq!(MInst::const_emit_bytes(isa::Type::Uint(0), -1), vec![0xff]);
    assert_eq!(MInst::const_emit_bytes(isa::Type::Uint(3), 0), vec![0]);
    assert_eq!(MInst::const_emit_bytes(isa::Type::Int(3), i64::MIN).len(), 8);
}

#[test]
fn lengths_count_machine_instructions() {
    let c = |imm| MInst::Const { ty: IsaType::Known(isa::Type::Uint(2)), rd: v(0), imm };
    assert_eq!(c(5).emitted_length(), 1);
    assert_eq!(c(0x12345).emitted_length(), 3);
    assert_eq!(c(0x12345).reference_length(), 3);
    let name = ExternalName { namespace: 0, index: 1 };
    assert_eq!(MInst::LoadExtName { rd: v(0), name, offset: 0 }.emitted_length(), 4);
    assert_eq!(MInst::Args { args: vec![pair(0)] }.emitted_length(), 0);
    assert_eq!(MInst::Args { args: vec![pair(0)] }.reference_length(), 0);
    assert_eq!(MInst::Rets { rets: vec![] }.emitted_length(), 0);
    assert_eq!(MInst::Rets { rets: vec![] }.reference_length(), 1);
    assert_eq!(MInst::TrapNz { cond: v(0) }.emitted_length(), 2);
    let echo = |n: u32| MInst::Echo { rds: (0..n).map(v).collect(), rss: (10..10 + n).map(v).collect() };
    assert_eq!(echo(1).emitted_length(), 1);
    assert_eq!(echo(3).emitted_length(), 2);
    assert_eq!(echo(7).emitted_length(), 4);
    let dst = MachLabel { index: 0 };
    let chain = |size_pow2| MInst::JumpOffset { rd: v(0), dst, size_pow2, gap: 0, trig: 0 };
    assert_eq!(chain(1).emitted_length(), 2);
    assert_eq!(chain(2).emitted_length(), 4);
}

#[test]
fn single_echoes_are_moves() {
    let echo = MInst::Echo { rds: vec![v(1)], rss: vec![v(2)] };
    assert_eq!(echo.is_move(), Some((v(1), v(2))));
    let long = MInst::EchoLong { rds: vec![v(1)], rss: vec![v(2)], out: 4 };
    assert_eq!(long.is_move(), Some((v(1), v(2))));
    let two = MInst::Echo { rds: vec![v(1), v(3)], rss: vec![v(2), v(4)] };
    assert_eq!(two.is_move(), None);
    assert_eq!(MInst::Nop.is_move(), None);
}

#[test]
fn instructions_are_classified() {
    assert!(MInst::gen_jump(MachLabel { index: 2 }).is_jmp());
    assert!(!MInst::Nop.is_jmp());
    assert!(MInst::Trap.is_trap());
    assert!(MInst::TrapNz { cond: v(0) }.is_trap());
    assert!(MInst::Args { args: vec![] }.is_args());
    assert_eq!(MInst::Rets { rets: vec![] }.is_term(), MachTerminator::Ret);
    assert_eq!(MInst::Ret { trig: 0 }.is_term(), MachTerminator::NoTerm);
    assert!(!MInst::Nop.is_safepoint());
    assert_eq!(MInst::worst_case_size(), 2);
    assert_eq!(MInst::function_alignment().minimum, 2);
}

#[test]
fn only_integers_of_up_to_64_bits_have_registers() {
    assert_eq!(MInst::rc_for_type(Type::I64), Ok((RegClass::Int, Type::I64)));
    assert_eq!(MInst::rc_for_type(Type::I8), Ok((RegClass::Int, Type::I8)));
    assert_eq!(
        MInst::rc_for_type(Type::I128),
        Err(CodegenError::UnsupportedType(Type::I128))
    );
    assert_eq!(MInst::rc_for_type(Type::F32), Err(CodegenError::UnsupportedType(Type::F32)));
}

#[test]
fn instructions_are_printed_with_their_operands() {
    let show = |i: MInst| i.print_with_state();
    assert_eq!(show(MInst::Nop), "Nop");
    assert_eq!(show(MInst::Trap), "Trap");
    assert_eq!(show(MInst::Args { args: vec![pair(3), pair(4)] }), "Args(v(3), v(4), )");
    assert_eq!(show(MInst::Discard { rss: vec![v(1)] }), "Discard(rss:, v(1), )");
    assert_eq!(show(MInst::Ret { trig: 7 }), "Ret(trig: 7, )");
    assert_eq!(
        show(MInst::Const { ty: IsaType::Known(isa::Type::Uint(2)), rd: v(1), imm: -30 }),
        "Const(ty: Known(Uint(2)), rd:, v(1), imm: -30, )"
    );
    assert_eq!(
        show(MInst::Const { ty: IsaType::Invalid, rd: v(1), imm: i64::MIN }),
        "Const(ty: Invalid, rd:, v(1), imm: -9223372036854775808, )"
    );
    assert_eq!(
        show(MInst::Alu2 {
            var: Alu2Variant::Add,
            out_var: Alu2OutputVariant::LowOnly,
            rds: vec![v(0)],
            rss: vec![v(1), v(2)],
            outs: vec![3, 14],
        }),
        "Alu2(var: Add, var_out LowOnly, rds:, v(0), rss:, v(1), v(2), outs: [3, 14], )"
    );
    assert_eq!(
        show(MInst::IntCmp { cc: IntCC::UnsignedLessThan, rd: v(0), rs1: v(1), rs2: v(2) }),
        "IntCmp(cc: ult, rd:, v(0), rs1:, v(1), rs2:, v(2), )"
    );
    assert_eq!(
        show(MInst::JumpIssue {
            link: v(1),
            dst: MachLabel { index: 5 },
            kind: IssueKind::Branch { dir: true, cond: v(2) },
            trig: 9,
        }),
        "JumpIssue(link:, v(1), kind: Branch(dir: true, cond: v(2)), dst: MachLabel(5), trig: 9, )"
    );
    assert_eq!(
        show(MInst::Resize { var: ResizeVariant::Sextend, rd: v(0), rs: v(1) }),
        "Resize(var: Sextend, rd:, v(0), rs:, v(1), )"
    );
    assert_eq!(
        show(MInst::UnaryAlu { op: UnaryAluOp::LogNeg, rd: v(0), rs: v(1), out: 3 }),
        "UnaryAlu(op: LogNeg, rd:, v(0), rs:, v(1), )"
    );
    assert_eq!(
        show(MInst::StackAdjust { reserve: true, private: false, amount_pow2: 4 }),
        "StackAdjust(reserve: true, private: false, amount_pow2: 4, )"
    );
    let p = AbiParam {
        value_type: Type::I32,
        purpose: ArgumentPurpose::Normal,
        extension: ArgumentExtension::Sext,
    };
    assert_eq!(
        show(MInst::CallArgs {
            link: v(0),
            rets: vec![pair(1)],
            args: vec![pair(2)],
            sig: Signature { params: vec![p, p], rets: vec![] },
        }),
        "CallArgs(link:, v(0), rets:, v(1), args:, v(2), sig: Signature { params: \
         [AbiParam { value_type: I32, purpose: Normal, extension: Sext }, \
         AbiParam { value_type: I32, purpose: Normal, extension: Sext }], rets: [] }, )"
    );
}

#[test]
fn symbols_and_signatures_are_printed_in_their_debug_form() {
    let show = |i: MInst| i.print_with_state();
    let name = ExternalName { namespace: 3, index: 14 };
    assert_eq!(
        show(MInst::LoadExtName { rd: v(1), name, offset: -7 }),
        format!("LoadExtName(rd:, v(1), name: {name:?}, offset: -7, )")
    );
    let param = |value_type, purpose, extension| AbiParam { value_type, purpose, extension };
    let sig = Signature {
        params: vec![
            param(Type::I8, ArgumentPurpose::StructReturn, ArgumentExtension::Uext),
            param(Type::F128, ArgumentPurpose::VMContext, ArgumentExtension::NoExt),
        ],
        rets: vec![param(Type::I64, ArgumentPurpose::StructArgument, ArgumentExtension::Sext)],
    };
    let text = format!("CallArgs(link:, v(0), rets:, args:, sig: {sig:?}, )");
    assert_eq!(show(MInst::CallArgs { link: v(0), rets: vec![], args: vec![], sig }), text);
}

#[test]
fn types_refine_to_what_both_sides_know() {
    let int = IsaType::Integer(2);
    let signed = IsaType::new_known_int(2, true);
    let unsigned = IsaType::new_known_int(2, false);
    assert_eq!(int.refine(signed), Some(signed));
    assert_eq!(signed.refine(int), Some(signed));
    assert_eq!(signed.refine(unsigned), None);
    assert_eq!(IsaType::Invalid.refine(unsigned), Some(unsigned));
    assert_eq!(int.refine(IsaType::Integer(1)), None);
    assert!(!signed.is_same_signedness(&unsigned));
    assert!(signed.is_same_signedness(&IsaType::new_known_int(0, true)));
    assert_eq!(unsigned.get_known(), Some(isa::Type::Uint(2)));
}
