//! What each instruction emits.
use crate::emit::{code_with, emitted, Code, LabelRef, Reloc, RelocKind};
use crate::inst::{MInstOf, MInstView};
use crate::isa::{Alu2OutputVariant, AluVariant, CallVariant, Instruction, Type};
use crate::isatype::IsaType;
use crate::label::LabelUse;
use crate::length::{const_bytes_extend_to_constant, low_bytes};
use crate::passes::far_jumps::MAX_CODE;
use vstd::arithmetic::power2::pow2;
use vstd::prelude::*;

verus! {

/// Whether an instruction emits exactly one machine instruction.
pub open spec fn emits(inst: MInstView, new: Instruction) -> bool {
    emitted(inst) == Some(seq![new])
}

/// A store to an address stores, a load loads with its type and to its reference,
/// accesses of the frame name their index, an address its scale and index, and an
/// adjustment its direction, frame and amount. Each is refused only where a field
/// has no room, or where the type is not known.
pub proof fn memory_instructions_emit_themselves(inst: MInstView)
    ensures
        inst is Store ==> emits(inst, Instruction::Store),
        inst matches MInstOf::Load { ty, out, .. } ==> if ty is Known && out < 32 {
            emits(inst, Instruction::Load(ty->Known_0, out))
        } else {
            emitted(inst) is None
        },
        inst matches MInstOf::StoreStack { idx, .. } ==> if idx < 32 {
            emits(inst, Instruction::StoreStack(idx))
        } else {
            emitted(inst) is None
        },
        inst matches MInstOf::LoadStack { ty, idx, .. } ==> if ty is Known && idx < 32 {
            emits(inst, Instruction::LoadStack(ty->Known_0, idx))
        } else {
            emitted(inst) is None
        },
        inst matches MInstOf::SAddr { scale_pow2, idx, .. } ==> if scale_pow2 < 4 && idx < 32 {
            emits(inst, Instruction::StackAddr(scale_pow2, idx))
        } else {
            emitted(inst) is None
        },
        inst matches MInstOf::StackAdjust { reserve, private, amount_pow2 } ==> if amount_pow2
            < 16 {
            emits(inst, Instruction::StackRes(reserve, amount_pow2, private))
        } else {
            emitted(inst) is None
        },
{
}

/// The references that a two-output operation delivers its low and its high output
/// to, given the one that it names.
pub open spec fn delivered(out_var: Alu2OutputVariant, out: u16) -> (Option<u16>, Option<u16>) {
    match out_var {
        Alu2OutputVariant::LowOnly => (Some(out), None),
        Alu2OutputVariant::HighOnly => (None, Some(out)),
        Alu2OutputVariant::LowFirst => (Some(out), Some(out)),
        Alu2OutputVariant::NextLow => (Some(0), Some(out)),
        Alu2OutputVariant::NextHigh => (Some(out), Some(0)),
    }
}

/// An operation emits its own machine operation, with its references: one with
/// two outputs delivers each to its own, which only works where they are the same
/// or one of them is the next instruction. A negation is a comparison with the
/// implicit zero.
pub proof fn operations_emit_themselves(inst: MInstView)
    ensures
        inst matches MInstOf::Alu1 { var, out, .. } ==> if out < 32 {
            emits(inst, Instruction::Alu(var, out))
        } else {
            emitted(inst) is None
        },
        inst matches MInstOf::Alu2 { var, out_var, outs, .. } ==> {
            &&& outs.len() == 1 && outs[0] < 32 ==> emits(
                inst,
                Instruction::Alu2(var, out_var, outs[0]),
            )
            &&& outs.len() == 1 && outs[0] >= 32 ==> emitted(inst) is None
            &&& outs.len() == 2 && outs[0] < 32 && outs[1] < 32 && (outs[0] == outs[1] || outs[0]
                == 0 || outs[1] == 0) ==> {
                &&& emitted(inst) matches Some(new) && new.len() == 1
                &&& emitted(inst)->Some_0[0] matches Instruction::Alu2(v, o, r) && {
                    &&& v == var
                    &&& delivered(o, r) == (Some(outs[0]), Some(outs[1]))
                }
            }
            &&& outs.len() == 2 && !(outs[0] < 32 && outs[1] < 32 && (outs[0] == outs[1] || outs[0]
                == 0 || outs[1] == 0)) ==> emitted(inst) is None
            &&& outs.len() != 1 && outs.len() != 2 ==> emitted(inst) is None
        },
        inst matches MInstOf::UnaryAlu { out, .. } ==> if out < 32 {
            emits(inst, Instruction::Alu(AluVariant::Equal, out))
        } else {
            emitted(inst) is None
        },
        inst matches MInstOf::Pick { out, .. } ==> if out < 32 {
            emits(inst, Instruction::Pick(out))
        } else {
            emitted(inst) is None
        },
        inst matches MInstOf::Cast { ty, out, .. } ==> {
            &&& ty is Invalid || out >= 32 ==> emitted(inst) is None
            &&& ty is Known && out < 32 ==> emits(inst, Instruction::Cast(ty->Known_0, out))
            &&& ty is Integer && out < 32 ==> emits(
                inst,
                Instruction::Cast(Type::Uint(ty->Integer_0), out),
            )
        },
{
}

/// Returns, calls and jumps emit their issue with its trigger offset; what
/// triggers them emits nothing. A conditional trap jumps over a trap.
pub proof fn control_instructions_emit_themselves(inst: MInstView)
    ensures
        inst matches MInstOf::Ret { trig } ==> if trig < 64 {
            emits(inst, Instruction::Call(CallVariant::Ret, trig))
        } else {
            emitted(inst) is None
        },
        inst matches MInstOf::Call { trig, .. } ==> if trig < 64 {
            emits(inst, Instruction::Call(CallVariant::Call, trig))
        } else {
            emitted(inst) is None
        },
        inst matches MInstOf::JumpIssue { trig, .. } ==> if trig < 64 {
            emits(inst, Instruction::Jump(0, trig))
        } else {
            emitted(inst) is None
        },
        inst is Args || inst is CallArgs || inst is JumpTrigger ==> emitted(inst) == Some(
            Seq::<Instruction>::empty(),
        ),
        inst is Trap ==> emits(inst, Instruction::Trap),
        inst is TrapNz ==> emitted(inst) == Some(seq![Instruction::Jump(1, 0), Instruction::Trap]),
        inst is Nop || inst is Discard ==> emits(inst, Instruction::NoOp),
{
}

/// Echoes and duplicates emit their own kind with their references. Operands with
/// one target keep their order in a long echo and swap it in a splitting one.
pub proof fn routing_instructions_emit_themselves(inst: MInstView)
    ensures
        inst matches MInstOf::EchoLong { out, .. } ==> if out < 1024 {
            emits(inst, Instruction::EchoLong(out))
        } else {
            emitted(inst) is None
        },
        inst matches MInstOf::EchoSplit { out1, out2, .. } ==> {
            &&& out1 == out2 && out1 < 1024 ==> emits(inst, Instruction::EchoLong(out1))
            &&& out1 != out2 && out1 < 32 && out2 < 32 ==> emits(
                inst,
                Instruction::Echo(false, out1, out2),
            )
            &&& (out1 == out2 && out1 >= 1024) || (out1 != out2 && (out1 >= 32 || out2 >= 32))
                ==> emitted(inst) is None
        },
        inst matches MInstOf::EchoChain { out1, out2, .. } ==> if out1 < 32 && out2 < 32 {
            emits(inst, Instruction::Echo(true, out1, out2))
        } else {
            emitted(inst) is None
        },
        inst matches MInstOf::Reorder { out, .. } ==> if out < 32 {
            emits(inst, Instruction::Echo(false, out, out))
        } else {
            emitted(inst) is None
        },
        inst matches MInstOf::Duplicate { out1, out2, .. } ==> if out1 < 32 && out2 < 32 {
            emits(inst, Instruction::Duplicate(false, out1, out2))
        } else {
            emitted(inst) is None
        },
{
}

/// The typed operations, the list of return values and the echo of a whole list
/// have no machine instructions.
pub proof fn pseudo_instructions_are_refused(inst: MInstView)
    requires
        inst is Rets || inst is Echo || inst is BinaryAlu || inst is DoubleAlu || inst is IntCmp
            || inst is Resize || inst is StoreStackArg || inst is ImmJump,
    ensures
        emitted(inst) is None,
{
}

/// The `k`th byte of what a chain of a constant and grows builds: the bytes that
/// it names, the most significant first, extended as its type says.
pub open spec fn chained_byte(new: Seq<Instruction>, k: int) -> u8 {
    let n = new.len() as int;
    if k < n - 1 {
        new[n - 1 - k]->Grow_0
    } else if k == n - 1 {
        new[0]->Constant_1
    } else if new[0]->Constant_0 is Int && new[0]->Constant_1 >= 0x80 {
        0xff
    } else {
        0
    }
}

/// Whether the instructions are a constant of a type followed by grows.
pub open spec fn is_chain(new: Seq<Instruction>, ty: Type) -> bool {
    &&& new.len() > 0
    &&& new[0] is Constant
    &&& new[0]->Constant_0 == ty
    &&& forall|i: int| 0 < i < new.len() ==> #[trigger] new[i] is Grow
}

/// A constant of a known type of at most eight bytes emits a chain of that type
/// that builds exactly its bytes, and no longer a chain than there are bytes.
pub proof fn constants_build_their_value(inst: MInstView, k: int)
    requires
        inst is Const,
    ensures
        ({
            let ty = inst->Const_ty;
            let imm = inst->Const_imm;
            &&& emitted(inst) is Some <==> ty is Known && ty.spec_size_pow2() <= 3
            &&& emitted(inst) matches Some(new) ==> {
                &&& is_chain(new, ty->Known_0)
                &&& new.len() <= pow2(ty.spec_size_pow2() as nat)
                &&& 0 <= k < pow2(ty.spec_size_pow2() as nat) ==> chained_byte(new, k) == (((
                imm as u64) >> ((8 * k) as u64)) as u8)
            }
        }),
{
    vstd::arithmetic::power2::lemma2_to64();
    if let MInstOf::Const { ty: IsaType::Known(t), imm, .. } = inst {
        if t.spec_size_pow2() <= 3 {
            const_bytes_extend_to_constant(t, imm);
            let size = crate::length::size_of_pow2(t.spec_size_pow2() as int);
            assert(size == pow2(t.spec_size_pow2() as nat));
            let b = crate::length::const_bytes(t, imm);
            if 0 <= k < size {
                assert(low_bytes(imm, size)[k] == crate::length::byte_at(imm, k));
                assert(chained_byte(emitted(inst)->Some_0, k) == low_bytes(imm, size)[k]);
            }
        }
    }
}

/// The address of a symbol and the offset of a far jump emit a chain with a byte
/// for each byte of the value, all to be filled in.
pub proof fn filled_in_values_have_room(inst: MInstView, k: int)
    requires
        inst is LoadExtName || inst is JumpOffset,
    ensures
        inst is LoadExtName ==> (emitted(inst) matches Some(new) && is_chain(new, Type::Uint(2))
            && new.len() == 4 && (0 <= k < 4 ==> chained_byte(new, k) == 0)),
        inst matches MInstOf::JumpOffset { size_pow2, .. } ==> {
            &&& emitted(inst) is Some <==> size_pow2 <= 2
            &&& emitted(inst) matches Some(new) ==> is_chain(new, Type::Int(size_pow2 as u8))
                && new.len() == pow2(size_pow2 as nat) && (0 <= k < new.len() ==> chained_byte(
                new,
                k,
            ) == 0)
        },
{
    vstd::arithmetic::power2::lemma2_to64();
}

/// Only a store emits a store, only a load a load, and so on: what a machine
/// instruction does to memory or to control is what an instruction of its kind
/// asked for.
pub proof fn machine_instructions_have_an_origin(inst: MInstView, i: int)
    requires
        emitted(inst) is Some,
        0 <= i < emitted(inst)->Some_0.len(),
    ensures
        ({
            let m = emitted(inst)->Some_0[i];
            &&& m is Store ==> inst is Store
            &&& m is Load ==> inst is Load
            &&& m is StoreStack ==> inst is StoreStack
            &&& m is LoadStack ==> inst is LoadStack
            &&& m is StackAddr ==> inst is SAddr
            &&& m is StackRes ==> inst is StackAdjust
            &&& m is Call ==> inst is Call || inst is Ret
            &&& m is Jump ==> inst is JumpIssue || inst is TrapNz
            &&& m is Trap ==> inst is Trap || inst is TrapNz
            &&& m is Cast ==> inst is Cast
            &&& m is Pick ==> inst is Pick
            &&& m is Duplicate ==> inst is Duplicate
            &&& m is Alu2 ==> inst is Alu2
            &&& m is Alu ==> inst is Alu1 || inst is UnaryAlu
            &&& m is Constant || m is Grow ==> inst is Const || inst is LoadExtName || inst is JumpOffset
            &&& m is NoOp ==> inst is Nop || inst is Discard
            &&& m is EchoLong ==> inst is EchoLong || inst is EchoSplit
            &&& m is Echo ==> inst is EchoSplit || inst is EchoChain || inst is Reorder
        }),
{
    if inst is Const || inst is LoadExtName || inst is JumpOffset {
        constants_or_room(inst, i);
    }
}

proof fn constants_or_room(inst: MInstView, i: int)
    requires
        emitted(inst) is Some,
        0 <= i < emitted(inst)->Some_0.len(),
        inst is Const || inst is LoadExtName || inst is JumpOffset,
    ensures
        emitted(inst)->Some_0[i] is Constant || emitted(inst)->Some_0[i] is Grow,
{
    if inst is Const {
        constants_build_their_value(inst, 0);
    } else {
        filled_in_values_have_room(inst, 0);
    }
}

/// Emission appends the machine instructions of an instruction, and notes at
/// which of them it depends on a label or a symbol: a jump at its issue, unless it
/// takes its offset from an operand; the offset of a far jump at the start of its
/// chain, with its size, the gap to the issue and the trigger offset; and an
/// address at the start of its chain, with its offset. Nothing else is noted, and
/// what was noted before stays.
pub proof fn emission_notes_labels_and_symbols(code: Code, inst: MInstView)
    ensures
        code_with(code, inst) is Some <==> emitted(inst) is Some && code.insts.len() + emitted(
            inst,
        )->Some_0.len() <= MAX_CODE,
        code_with(code, inst) matches Some(after) ==> {
            let addr = code.insts.len() as u32;
            &&& after.insts == code.insts + emitted(inst)->Some_0
            &&& if inst is JumpIssue && !(inst->JumpIssue_kind is Far) {
                after.labels == code.labels.push(
                    LabelRef { addr, label: inst->JumpIssue_dst, kind: LabelUse::JmpLoc7 },
                )
            } else if inst is JumpOffset {
                after.labels == code.labels.push(
                    LabelRef {
                        addr,
                        label: inst->JumpOffset_dst,
                        kind: LabelUse::JmpFar {
                            size_pow2: inst->JumpOffset_size_pow2,
                            gap: inst->JumpOffset_gap,
                            trig: inst->JumpOffset_trig,
                        },
                    },
                )
            } else {
                after.labels == code.labels
            }
            &&& if inst is LoadExtName {
                after.relocs == code.relocs.push(
                    Reloc {
                        kind: RelocKind::ScryAbs32,
                        addr,
                        name: inst->LoadExtName_name,
                        addend: inst->LoadExtName_offset,
                    },
                )
            } else {
                after.relocs == code.relocs
            }
        },
{
}

} // verus!
