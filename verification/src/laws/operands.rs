//! Operands and their order.
use crate::inst::{IssueKind, MInstOf, MInstView, OperandKind};
use crate::laws::operations::{machine_results, typed_results};
use crate::operands::with_uses_sets_uses;
use crate::reg::Reg;
use crate::typemap::TypesView;
use vstd::prelude::*;

verus! {

/// The bitwise operations do not depend on the order of their operands.
proof fn bits_commute(a: u64, b: u64)
    ensures
        a & b == b & a,
        a | b == b | a,
        a ^ b == b ^ a,
{
    assert(a & b == b & a && a | b == b | a && a ^ b == b ^ a) by (bit_vector);
}

/// Where the order of the uses is said to make no difference, none is made: an
/// operation with two operands computes the same with them swapped.
pub proof fn unordered_operands_can_be_swapped(
    inst: MInstView,
    types: TypesView,
    w: nat,
    values: Map<Reg, int>,
)
    requires
        !inst.spec_use_order_meaningful(),
        inst.uses().len() == 2,
    ensures
        ({
            let swapped = inst.with_uses(seq![inst.uses()[1], inst.uses()[0]]);
            &&& typed_results(inst, w, w, values) == typed_results(swapped, w, w, values)
            &&& machine_results(inst, types, w, values) == machine_results(
                swapped,
                types,
                w,
                values,
            )
        }),
{
    let a = values[inst.uses()[0]];
    let b = values[inst.uses()[1]];
    let us = seq![inst.uses()[1], inst.uses()[0]];
    let swapped = inst.with_uses(us);
    with_uses_sets_uses(inst, us);
    bits_commute(a as u64, b as u64);
    assert(a * b == b * a) by (nonlinear_arith);
    let sa = crate::laws::operations::number(true, w, a);
    let sb = crate::laws::operations::number(true, w, b);
    assert(sa * sb == sb * sa) by (nonlinear_arith);
    assert(typed_results(inst, w, w, values) =~= typed_results(swapped, w, w, values));
    assert(machine_results(inst, types, w, values) =~= machine_results(swapped, types, w, values));
}

/// Subtraction, division, shifts and ordering comparisons depend on the order of
/// their operands, and so does what is stored where and what is chosen.
pub proof fn ordered_operands_are_said_to_be(inst: MInstView)
    requires
        match inst {
            MInstOf::BinaryAlu { op, .. } => op is IntSubWrap,
            MInstOf::DoubleAlu { op, .. } => op is UsubOverflow || op is SsubOverflow || op is UdivRem
                || op is SdivRem || op is Shl || op is Ushr || op is Sshr,
            MInstOf::Alu2 { var, .. } => var is Sub || var is Division || var is Shift,
            MInstOf::Alu1 { var, .. } => var is LessThan || var is GreaterThan,
            MInstOf::IntCmp { .. }
            | MInstOf::Store { .. }
            | MInstOf::Pick { .. }
            | MInstOf::CallArgs { .. }
            | MInstOf::Rets { .. }
            | MInstOf::JumpTrigger { .. }
            | MInstOf::JumpIssue { .. }
            | MInstOf::Echo { .. }
            | MInstOf::EchoLong { .. }
            | MInstOf::EchoSplit { .. }
            | MInstOf::EchoChain { .. }
            | MInstOf::Reorder { .. } => true,
            _ => false,
        },
    ensures
        inst.spec_use_order_meaningful(),
{
}

/// What the machine reads, in its order: the operands of an operation from the
/// first to the last, a value before the address that it is stored at, a condition
/// before what it decides on, and passed values in the order of their positions.
pub proof fn uses_are_in_machine_order(inst: MInstView)
    ensures
        inst matches MInstOf::BinaryAlu { rs1, rs2, .. } ==> inst.uses() == seq![rs1, rs2],
        inst matches MInstOf::DoubleAlu { rs1, rs2, .. } ==> inst.uses() == seq![rs1, rs2],
        inst matches MInstOf::IntCmp { rs1, rs2, .. } ==> inst.uses() == seq![rs1, rs2],
        inst matches MInstOf::Alu1 { rss, .. } ==> inst.uses() == rss,
        inst matches MInstOf::Alu2 { rss, .. } ==> inst.uses() == rss,
        inst matches MInstOf::Store { rd, rs } ==> inst.uses() == seq![rs, rd],
        inst matches MInstOf::Load { rs, .. } ==> inst.uses() == seq![rs],
        inst matches MInstOf::StoreStack { rs, .. } ==> inst.uses() == seq![rs],
        inst matches MInstOf::StoreStackArg { rs, .. } ==> inst.uses() == seq![rs],
        inst matches MInstOf::UnaryAlu { rs, .. } ==> inst.uses() == seq![rs],
        inst matches MInstOf::Cast { rs, .. } ==> inst.uses() == seq![rs],
        inst matches MInstOf::Resize { rs, .. } ==> inst.uses() == seq![rs],
        inst matches MInstOf::Duplicate { rs, .. } ==> inst.uses() == seq![rs],
        inst matches MInstOf::Pick { cond, if_zero, if_nonzero, .. } ==> inst.uses() == seq![
            cond,
            if_zero,
            if_nonzero,
        ],
        inst matches MInstOf::Reorder { rs1, rs2, .. } ==> inst.uses() == seq![rs1, rs2],
        inst matches MInstOf::EchoSplit { rs1, rs2, .. } ==> inst.uses() == seq![rs1, rs2],
        inst matches MInstOf::EchoChain { rs1, rs2, rs_chain, .. } ==> inst.uses() == seq![rs1, rs2]
            + rs_chain,
        inst matches MInstOf::Echo { rss, .. } ==> inst.uses() == rss,
        inst matches MInstOf::EchoLong { rss, .. } ==> inst.uses() == rss,
        inst matches MInstOf::Discard { rss } ==> inst.uses() == rss,
        inst matches MInstOf::TrapNz { cond } ==> inst.uses() == seq![cond],
        inst matches MInstOf::Call { fun, .. } ==> inst.uses() == seq![fun],
        inst matches MInstOf::JumpTrigger { args, .. } ==> inst.uses() == args,
        inst matches MInstOf::JumpIssue { kind, .. } ==> match kind {
            IssueKind::Jump => inst.uses().len() == 0,
            IssueKind::Branch { cond, .. } => inst.uses() == seq![cond],
            IssueKind::Far { cond, offset, .. } => inst.uses() == seq![cond, offset],
        },
        inst matches MInstOf::CallArgs { args, .. } ==> inst.uses() == Seq::new(
            args.len(),
            |i: int| args[i].vreg,
        ),
        inst matches MInstOf::Rets { rets } ==> inst.uses() == Seq::new(
            rets.len(),
            |i: int| rets[i].vreg,
        ),
        inst is Nop || inst is Trap || inst is Ret || inst is Args || inst is Const || inst is LoadExtName
            || inst is JumpOffset || inst is ImmJump || inst is LoadStack || inst is SAddr
            || inst is StackAdjust ==> inst.uses().len() == 0,
{
}

/// What the machine produces, in the order in which it arrives at a shared
/// consumer: a low output before the high one, and the second of two operands that
/// are reordered, or chained on, before the first.
pub proof fn definitions_are_in_production_order(inst: MInstView)
    ensures
        inst matches MInstOf::BinaryAlu { rd, .. } ==> inst.defs() == seq![rd],
        inst matches MInstOf::DoubleAlu { rdl, rdh, .. } ==> inst.defs() == seq![rdl, rdh],
        inst matches MInstOf::IntCmp { rd, .. } ==> inst.defs() == seq![rd],
        inst matches MInstOf::Alu1 { rd, .. } ==> inst.defs() == seq![rd],
        inst matches MInstOf::Alu2 { rds, .. } ==> inst.defs() == rds,
        inst matches MInstOf::Load { rd, .. } ==> inst.defs() == seq![rd],
        inst matches MInstOf::LoadStack { rd, .. } ==> inst.defs() == seq![rd],
        inst matches MInstOf::SAddr { rd, .. } ==> inst.defs() == seq![rd],
        inst matches MInstOf::Const { rd, .. } ==> inst.defs() == seq![rd],
        inst matches MInstOf::LoadExtName { rd, .. } ==> inst.defs() == seq![rd],
        inst matches MInstOf::JumpOffset { rd, .. } ==> inst.defs() == seq![rd],
        inst matches MInstOf::UnaryAlu { rd, .. } ==> inst.defs() == seq![rd],
        inst matches MInstOf::Cast { rd, .. } ==> inst.defs() == seq![rd],
        inst matches MInstOf::Resize { rd, .. } ==> inst.defs() == seq![rd],
        inst matches MInstOf::Pick { rd, .. } ==> inst.defs() == seq![rd],
        inst matches MInstOf::Duplicate { rd1, rd2, .. } ==> inst.defs() == seq![rd1, rd2],
        inst matches MInstOf::EchoSplit { rd1, rd2, .. } ==> inst.defs() == seq![rd1, rd2],
        inst matches MInstOf::Reorder { rd1, rd2, .. } ==> inst.defs() == seq![rd2, rd1],
        inst matches MInstOf::EchoChain { rd1, rd2, rd_chain, .. } ==> inst.defs() == seq![rd2, rd1]
            + rd_chain,
        inst matches MInstOf::Echo { rds, .. } ==> inst.defs() == rds,
        inst matches MInstOf::EchoLong { rds, .. } ==> inst.defs() == rds,
        inst matches MInstOf::Args { args } ==> inst.defs() == Seq::new(
            args.len(),
            |i: int| args[i].vreg,
        ),
        inst matches MInstOf::CallArgs { rets, .. } ==> inst.defs() == Seq::new(
            rets.len(),
            |i: int| rets[i].vreg,
        ),
        inst is Nop || inst is Trap || inst is TrapNz || inst is Ret || inst is Rets || inst is Store
            || inst is StoreStack || inst is StoreStackArg || inst is StackAdjust || inst is JumpTrigger
            || inst is ImmJump || inst is Call || inst is JumpIssue || inst is Discard
            ==> inst.defs().len() == 0,
{
}

/// The register that links an issue to its trigger.
pub open spec fn link_of(inst: MInstView) -> Seq<(Reg, OperandKind)> {
    match inst {
        MInstOf::Call { link, .. } => seq![(link, OperandKind::Def)],
        MInstOf::JumpIssue { link, .. } => seq![(link, OperandKind::Def)],
        MInstOf::CallArgs { link, .. } => seq![(link, OperandKind::Use)],
        MInstOf::JumpTrigger { link, .. } => seq![(link, OperandKind::Use)],
        _ => Seq::empty(),
    }
}

/// The operands that are visited are the uses, the definitions and the link, and
/// as many.
pub proof fn operands_are_uses_and_definitions(inst: MInstView, x: (Reg, OperandKind))
    ensures
        inst.operands().len() == inst.uses().len() + inst.defs().len() + link_of(inst).len(),
        inst.operands().contains(x) <==> (x.1 is Use && inst.uses().contains(x.0)) || (x.1 is Def
            && inst.defs().contains(x.0)) || link_of(inst).contains(x),
{
    let ops = inst.operands();
    let us = inst.uses();
    let ds = inst.defs();
    if ops.contains(x) {
        let i = choose|i: int| 0 <= i < ops.len() && ops[i] == x;
        operand_has_place(inst, i);
    }
    if x.1 is Use && us.contains(x.0) {
        let i = choose|i: int| 0 <= i < us.len() && us[i] == x.0;
        use_is_visited(inst, i);
    }
    if x.1 is Def && ds.contains(x.0) {
        let i = choose|i: int| 0 <= i < ds.len() && ds[i] == x.0;
        definition_is_visited(inst, i);
    }
    if link_of(inst).contains(x) {
        assert(link_of(inst)[0] == x);
        assert(ops[0] == x);
    }
}

proof fn operand_has_place(inst: MInstView, i: int)
    requires
        0 <= i < inst.operands().len(),
    ensures
        ({
            let x = inst.operands()[i];
            (x.1 is Use && exists|k: int| 0 <= k < inst.uses().len() && inst.uses()[k] == x.0) || (
            x.1 is Def && exists|k: int| 0 <= k < inst.defs().len() && inst.defs()[k] == x.0) || (
            link_of(inst).len() > 0 && link_of(inst)[0] == x)
        }),
{
    let us = inst.uses();
    let ds = inst.defs();
    let x = inst.operands()[i];
    let d = ds.len() as int;
    let l = link_of(inst).len() as int;
    assert(us.len() > 0 ==> us[0] == us[0]);
    match inst {
        MInstOf::Pick { .. } => {
            assert(i < 3 ==> us[i] == x.0);
            assert(i == 3 ==> ds[0] == x.0);
        },
        MInstOf::Store { .. } => {
            assert(us[1 - i] == x.0);
        },
        MInstOf::Reorder { .. } => {
            assert(i < 2 ==> ds[1 - i] == x.0);
            assert(i >= 2 ==> us[i - 2] == x.0);
        },
        MInstOf::EchoChain { rd_chain, .. } => {
            assert(i < 2 ==> ds[1 - i] == x.0);
            assert(2 <= i < d ==> ds[i] == x.0);
            assert(d <= i ==> us[i - d] == x.0);
        },
        _ => {
            assert(l <= i < l + d ==> ds[i - l] == x.0);
            assert(l + d <= i ==> us[i - l - d] == x.0);
        },
    }
}

proof fn use_is_visited(inst: MInstView, k: int)
    requires
        0 <= k < inst.uses().len(),
    ensures
        inst.operands().contains((inst.uses()[k], OperandKind::Use)),
{
    let x = (inst.uses()[k], OperandKind::Use);
    let d = inst.defs().len() as int;
    let l = link_of(inst).len() as int;
    match inst {
        MInstOf::Pick { .. } => {
            assert(inst.operands()[k] == x);
        },
        MInstOf::Store { .. } => {
            assert(inst.operands()[1 - k] == x);
        },
        _ => {
            assert(inst.operands()[l + d + k] == x);
        },
    }
}

proof fn definition_is_visited(inst: MInstView, k: int)
    requires
        0 <= k < inst.defs().len(),
    ensures
        inst.operands().contains((inst.defs()[k], OperandKind::Def)),
{
    let x = (inst.defs()[k], OperandKind::Def);
    let l = link_of(inst).len() as int;
    match inst {
        MInstOf::Pick { .. } => {
            assert(inst.operands()[3] == x);
        },
        MInstOf::Reorder { .. } => {
            assert(inst.operands()[1 - k] == x);
        },
        MInstOf::EchoChain { .. } => {
            if k < 2 {
                assert(inst.operands()[1 - k] == x);
            } else {
                assert(inst.operands()[k] == x);
            }
        },
        _ => {
            assert(inst.operands()[l + k] == x);
        },
    }
}

} // verus!
