//! The calling convention and stack accesses.
use scry_backend::abi::{
    abi_param_to_isatype, arg_area_base, check_areas_fit, next_multiple, stack_area_size,
    stack_locals_base, stack_values_layout, ABIArgSlot, ArgsOrRets, ScryMachineDeps, StackAMode,
};
use scry_backend::ir::{AbiParam, ArgumentExtension, ArgumentPurpose, Signature, Type};
use scry_backend::isa;
use scry_backend::isatype::IsaType;
use scry_backend::lower::{
    access_index, gen_machlabel, nonzero_imm64, scaled_index, stack_access_insts, DataFlowGraph,
    ScryIsleContext, StackAccess, ValueData,
};
use scry_backend::reg::{CodegenError, MachLabel, Reg, VRegAllocator, VREG_LIMIT};

fn p(t: Type) -> AbiParam {
    AbiParam {
        value_type: t,
        purpose: ArgumentPurpose::Normal,
        extension: ArgumentExtension::NoExt,
    }
}

fn ps(ts: &[Type]) -> Vec<AbiParam> {
    ts.iter().map(|t| p(*t)).collect()
}

fn v(i: u32) -> Reg {
    Reg::Virtual(i)
}

#[test]
fn values_beyond_the_queue_are_placed_aligned() {
    let (offsets, size) = stack_values_layout(&ps(&[Type::I32, Type::I32, Type::I32, Type::I32, Type::I8, Type::I32, Type::I16, Type::I64]));
    assert_eq!(offsets, vec![0, 4, 8, 16]);
    assert_eq!(size, 24);
    let (offsets, size) = stack_values_layout(&ps(&[Type::I64, Type::I64, Type::I64, Type::I64]));
    assert_eq!(offsets, Vec::<u32>::new());
    assert_eq!(size, 0);
    assert_eq!(next_multiple(17, 16), 32);
    assert_eq!(next_multiple(16, 16), 16);
}

#[test]
fn the_argument_area_follows_the_return_area() {
    let sig = Signature { params: ps(&[Type::I32; 6]), rets: ps(&[Type::I32; 5]) };
    assert_eq!(arg_area_base(&sig), 16);
    assert_eq!(stack_area_size(&sig), 24);
    assert_eq!(stack_locals_base(&sig), 32);
    let small = Signature { params: ps(&[Type::I32; 4]), rets: ps(&[Type::I32]) };
    assert_eq!(arg_area_base(&small), 0);
    assert_eq!(stack_area_size(&small), 0);
    assert_eq!(stack_locals_base(&small), 0);
    assert!(check_areas_fit(&sig));
}

#[test]
fn the_first_arguments_are_operands_the_rest_go_on_the_stack() {
    let params = ps(&[Type::I32; 6]);
    let (slots, size) = ScryMachineDeps::compute_arg_locs(&params, ArgsOrRets::Args);
    assert_eq!(size, 8);
    assert_eq!(
        slots[3],
        ABIArgSlot::Reg { reg: Reg::Real(3), ty: Type::I32, extension: ArgumentExtension::NoExt }
    );
    assert_eq!(
        slots[5],
        ABIArgSlot::Stack { offset: 4, ty: Type::I32, extension: ArgumentExtension::NoExt }
    );
    let (slots, size) = ScryMachineDeps::compute_arg_locs(&params, ArgsOrRets::Rets);
    assert_eq!(size, 0);
    assert_eq!(
        slots[5],
        ABIArgSlot::Reg { reg: Reg::Real(5), ty: Type::I32, extension: ArgumentExtension::NoExt }
    );
}

#[test]
fn stack_arguments_are_loaded_and_stored() {
    let load = ScryMachineDeps::gen_load_stack(StackAMode::IncomingArg(12, 16), v(1), Type::I32);
    assert_eq!(load.print_with_state(), "LoadStack(ty: Integer(2), rd:, v(1), idx: 3, )");
    let store = ScryMachineDeps::gen_store_stack(StackAMode::OutgoingArg(24), v(1), Type::I64);
    assert_eq!(
        store.print_with_state(),
        "StoreStackArg(rs:, v(1), offset: 24, scale_pow2: 3, )"
    );
    assert_eq!(ScryMachineDeps::word_bits(), 32);
    assert_eq!(ScryMachineDeps::stack_align(), 16);
    assert_eq!(
        ScryMachineDeps::get_ext_mode(ArgumentExtension::Sext),
        ArgumentExtension::NoExt
    );
    assert!(ScryMachineDeps::gen_prologue_frame_setup().is_empty());
    assert!(ScryMachineDeps::gen_epilogue_frame_restore().is_empty());
}

#[test]
fn extensions_fix_the_signedness() {
    let mut q = p(Type::I16);
    assert_eq!(abi_param_to_isatype(&q), IsaType::Integer(1));
    q.extension = ArgumentExtension::Sext;
    assert_eq!(abi_param_to_isatype(&q), IsaType::Known(isa::Type::Int(1)));
    q.extension = ArgumentExtension::Uext;
    assert_eq!(abi_param_to_isatype(&q), IsaType::Known(isa::Type::Uint(1)));
}

#[test]
fn offsets_are_indexed_by_the_largest_scale() {
    assert_eq!(scaled_index(0), Some((3, 0)));
    assert_eq!(scaled_index(16), Some((3, 2)));
    assert_eq!(scaled_index(12), Some((2, 3)));
    assert_eq!(scaled_index(31), Some((0, 31)));
    assert_eq!(scaled_index(33), None);
    assert_eq!(scaled_index(62), Some((1, 31)));
    assert_eq!(scaled_index(248), Some((3, 31)));
    assert_eq!(scaled_index(256), None);
    assert_eq!(scaled_index(-8), None);
    assert_eq!(access_index(12, 4), Some(3));
    assert_eq!(access_index(14, 4), None);
    assert_eq!(access_index(128, 4), None);
    assert_eq!(access_index(-4, 4), None);
}

fn texts(insts: &[scry_backend::inst::MInst]) -> Vec<String> {
    insts.iter().map(|i| i.print_with_state()).collect()
}

#[test]
fn stack_accesses_are_resolved_by_reach() {
    let mut vregs = VRegAllocator { next: 10 };
    let near = stack_access_insts(20, 4, StackAccess::Store(v(1)), &mut vregs).unwrap();
    assert_eq!(texts(&near), vec!["StoreStack(rs:, v(1), idx: 5, )"]);
    assert_eq!(vregs.next, 10);
    let other = stack_access_insts(136, 4, StackAccess::Load(v(2)), &mut vregs).unwrap();
    assert_eq!(
        texts(&other),
        vec![
            "SAddr(rd:, v(10), scale_pow2: 3, idx: 17, )",
            "Load(ty: Invalid, rd:, v(2), rs:, v(10), out: 0, )",
        ]
    );
    let far = stack_access_insts(1000, 4, StackAccess::Store(v(3)), &mut vregs).unwrap();
    assert_eq!(
        texts(&far),
        vec![
            "SAddr(rd:, v(11), scale_pow2: 0, idx: 0, )",
            "Const(ty: Invalid, rd:, v(12), imm: 1000, )",
            "BinaryAlu(op: IntAddWrap, rd:, v(13), rs1:, v(11), rs2:, v(12), )",
            "Store(rs:, v(3), rd:, v(13), )",
        ]
    );
    let mut spent = VRegAllocator { next: VREG_LIMIT };
    assert!(matches!(
        stack_access_insts(1000, 4, StackAccess::Store(v(3)), &mut spent),
        Err(CodegenError::CodeTooLarge)
    ));
}

fn context() -> ScryIsleContext {
    ScryIsleContext {
        sig: Signature { params: vec![], rets: vec![] },
        values: DataFlowGraph {
            values: vec![
                ValueData { reg: v(1), ty: Type::I32 },
                ValueData { reg: v(2), ty: Type::I64 },
            ],
        },
        slot_offsets: vec![16, 64],
        emitted: vec![],
        vregs: VRegAllocator { next: 5 },
    }
}

#[test]
fn stack_slots_are_lowered() {
    let mut ctx = context();
    assert_eq!(ctx.stack_frame_offset(1, 4, -8), 60);
    assert_eq!(ctx.lower_stack_load(Type::I32, 0, 4, 0), Ok(v(5)));
    assert_eq!(ctx.lower_stack_store(1, 1, 0, 8), Ok(()));
    assert_eq!(ctx.lower_stack_addr(1, 1), Ok(v(8)));
    ctx.emit_nop_unit();
    assert_eq!(
        texts(&ctx.emitted),
        vec![
            "LoadStack(ty: Invalid, rd:, v(5), idx: 5, )",
            "StoreStack(rs:, v(2), idx: 9, )",
            "SAddr(rd:, v(6), scale_pow2: 0, idx: 0, )",
            "Const(ty: Invalid, rd:, v(7), imm: 65, )",
            "BinaryAlu(op: IntAddWrap, rd:, v(8), rs1:, v(6), rs2:, v(7), )",
            "Nop",
        ]
    );
    assert_eq!(ctx.dfg().values.len(), 2);
}

#[test]
fn jump_tables_share_one_trigger() {
    let mut ctx = context();
    let targets = vec![MachLabel { index: 9 }, MachLabel { index: 3 }, MachLabel { index: 4 }];
    assert_eq!(ctx.lower_br_table(0, &targets, &vec![1]), Ok(()));
    assert_eq!(
        texts(&ctx.emitted),
        vec![
            "Const(ty: Invalid, rd:, v(5), imm: 0, )",
            "IntCmp(cc: eq, rd:, v(6), rs1:, v(1), rs2:, v(5), )",
            "Const(ty: Invalid, rd:, v(7), imm: 1, )",
            "IntCmp(cc: eq, rd:, v(8), rs1:, v(1), rs2:, v(7), )",
            "JumpIssue(link:, v(9), kind: Jump, dst: MachLabel(9), trig: 0, )",
            "JumpIssue(link:, v(9), kind: Branch(dir: false, cond: v(6)), dst: MachLabel(3), trig: 0, )",
            "JumpIssue(link:, v(9), kind: Branch(dir: false, cond: v(8)), dst: MachLabel(4), trig: 0, )",
            "JumpTrigger(link:, v(9), args:, v(2), )",
        ]
    );
    assert_eq!(gen_machlabel(&targets), MachLabel { index: 9 });
    assert_eq!(nonzero_imm64(0), None);
    assert_eq!(nonzero_imm64(-3), Some(-3));
}

#[test]
fn stack_slots_start_at_the_locals_base() {
    let mut ctx = context();
    let word = AbiParam {
        value_type: Type::I64,
        purpose: ArgumentPurpose::Normal,
        extension: ArgumentExtension::NoExt,
    };
    // One value is returned and two are passed on the stack.
    ctx.sig = Signature { params: vec![word; 6], rets: vec![word; 5] };
    assert_eq!(stack_locals_base(&ctx.sig), 32);
    assert_eq!(ctx.stack_frame_offset(1, 4, -8), 92);
    assert_eq!(ctx.stack_frame_offset(0, -50, 0), -2);
    assert_eq!(ctx.lower_stack_load(Type::I32, 0, 4, 0), Ok(v(5)));
    assert_eq!(ctx.lower_stack_store(1, 1, 0, 8), Ok(()));
    assert_eq!(
        texts(&ctx.emitted),
        vec!["LoadStack(ty: Invalid, rd:, v(5), idx: 13, )", "StoreStack(rs:, v(2), idx: 13, )"]
    );
}
