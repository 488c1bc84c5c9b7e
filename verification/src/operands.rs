//! Which registers an instruction reads and defines, and how they are renamed.
use crate::inst::{IssueKind, MInst, MInstOf, MInstView, OperandKind};
use crate::reg::{copy_regs, pair_vregs, vregs_of, with_vregs, ArgPair, Reg};
use vstd::prelude::*;

verus! {

/// A list of registers as operands of one kind.
pub open spec fn as_operands(regs: Seq<Reg>, kind: OperandKind) -> Seq<(Reg, OperandKind)> {
    Seq::new(regs.len(), |i: int| (regs[i], kind))
}

impl MInstView {
    /// The registers used by the instruction, in the order of the machine's
    /// operands. The link between an issue and its trigger is not one of them.
    pub open spec fn uses(self) -> Seq<Reg> {
        match self {
            MInstOf::Nop
            | MInstOf::Trap
            | MInstOf::Ret { .. }
            | MInstOf::Args { .. }
            | MInstOf::Const { .. }
            | MInstOf::LoadExtName { .. }
            | MInstOf::JumpOffset { .. }
            | MInstOf::ImmJump { .. }
            | MInstOf::LoadStack { .. }
            | MInstOf::SAddr { .. }
            | MInstOf::StackAdjust { .. } => seq![],
            MInstOf::StoreStack { rs, .. } => seq![rs],
            MInstOf::StoreStackArg { rs, .. } => seq![rs],
            MInstOf::Reorder { rs1, rs2, .. } => seq![rs1, rs2],
            MInstOf::Rets { rets } => vregs_of(rets),
            MInstOf::Echo { rss, .. } => rss,
            MInstOf::EchoLong { rss, .. } => rss,
            MInstOf::Alu1 { rss, .. } => rss,
            MInstOf::Alu2 { rss, .. } => rss,
            MInstOf::Discard { rss } => rss,
            MInstOf::EchoChain { rs1, rs2, rs_chain, .. } => seq![rs1, rs2] + rs_chain,
            MInstOf::EchoSplit { rs1, rs2, .. } => seq![rs1, rs2],
            MInstOf::BinaryAlu { rs1, rs2, .. } => seq![rs1, rs2],
            MInstOf::DoubleAlu { rs1, rs2, .. } => seq![rs1, rs2],
            MInstOf::IntCmp { rs1, rs2, .. } => seq![rs1, rs2],
            MInstOf::UnaryAlu { rs, .. } => seq![rs],
            MInstOf::Duplicate { rs, .. } => seq![rs],
            MInstOf::Load { rs, .. } => seq![rs],
            MInstOf::Resize { rs, .. } => seq![rs],
            MInstOf::Cast { rs, .. } => seq![rs],
            MInstOf::Pick { cond, if_zero, if_nonzero, .. } => seq![cond, if_zero, if_nonzero],
            MInstOf::Store { rd, rs } => seq![rs, rd],
            MInstOf::Call { fun, .. } => seq![fun],
            MInstOf::CallArgs { args, .. } => vregs_of(args),
            MInstOf::JumpIssue { kind, .. } => match kind {
                IssueKind::Jump => seq![],
                IssueKind::Branch { cond, .. } => seq![cond],
                // The machine's operand order: condition first, then the target.
                IssueKind::Far { cond, offset, .. } => seq![cond, offset],
            },
            MInstOf::TrapNz { cond } => seq![cond],
            MInstOf::JumpTrigger { args, .. } => args,
        }
    }

    /// The instruction with its uses replaced one for one.
    pub open spec fn with_uses(self, us: Seq<Reg>) -> MInstView {
        match self {
            MInstOf::Nop
            | MInstOf::Trap
            | MInstOf::Ret { .. }
            | MInstOf::Args { .. }
            | MInstOf::Const { .. }
            | MInstOf::LoadExtName { .. }
            | MInstOf::JumpOffset { .. }
            | MInstOf::ImmJump { .. }
            | MInstOf::LoadStack { .. }
            | MInstOf::SAddr { .. }
            | MInstOf::StackAdjust { .. } => self,
            MInstOf::StoreStack { idx, .. } => MInstOf::StoreStack { rs: us[0], idx },
            MInstOf::StoreStackArg { offset, scale_pow2, .. } => MInstOf::StoreStackArg {
                rs: us[0],
                offset,
                scale_pow2,
            },
            MInstOf::Reorder { rd1, rd2, out, .. } => MInstOf::Reorder {
                rd1,
                rd2,
                rs1: us[0],
                rs2: us[1],
                out,
            },
            MInstOf::Rets { rets } => MInstOf::Rets { rets: with_vregs(rets, us) },
            MInstOf::Echo { rds, .. } => MInstOf::Echo { rds, rss: us },
            MInstOf::EchoLong { rds, out, .. } => MInstOf::EchoLong { rds, rss: us, out },
            MInstOf::Alu1 { var, rd, out, .. } => MInstOf::Alu1 { var, rd, rss: us, out },
            MInstOf::Alu2 { var, out_var, rds, outs, .. } => MInstOf::Alu2 {
                var,
                out_var,
                rds,
                rss: us,
                outs,
            },
            MInstOf::Discard { .. } => MInstOf::Discard { rss: us },
            MInstOf::EchoChain { rd1, rd2, out1, out2, rd_chain, .. } => MInstOf::EchoChain {
                rd1,
                rd2,
                rs1: us[0],
                rs2: us[1],
                out1,
                out2,
                rd_chain,
                rs_chain: us.skip(2),
            },
            MInstOf::EchoSplit { rd1, rd2, out1, out2, .. } => MInstOf::EchoSplit {
                rd1,
                rd2,
                rs1: us[0],
                rs2: us[1],
                out1,
                out2,
            },
            MInstOf::BinaryAlu { op, rd, .. } => MInstOf::BinaryAlu {
                op,
                rd,
                rs1: us[0],
                rs2: us[1],
            },
            MInstOf::DoubleAlu { op, rdl, rdh, .. } => MInstOf::DoubleAlu {
                op,
                rdl,
                rdh,
                rs1: us[0],
                rs2: us[1],
            },
            MInstOf::IntCmp { cc, rd, .. } => MInstOf::IntCmp { cc, rd, rs1: us[0], rs2: us[1] },
            MInstOf::UnaryAlu { op, rd, out, .. } => MInstOf::UnaryAlu { op, rd, rs: us[0], out },
            MInstOf::Duplicate { rd1, rd2, out1, out2, .. } => MInstOf::Duplicate {
                rd1,
                rd2,
                rs: us[0],
                out1,
                out2,
            },
            MInstOf::Load { ty, rd, out, .. } => MInstOf::Load { ty, rd, rs: us[0], out },
            MInstOf::Resize { var, rd, .. } => MInstOf::Resize { var, rd, rs: us[0] },
            MInstOf::Cast { rd, ty, out, .. } => MInstOf::Cast { rd, ty, rs: us[0], out },
            MInstOf::Pick { rd, out, .. } => MInstOf::Pick {
                rd,
                cond: us[0],
                if_zero: us[1],
                if_nonzero: us[2],
                out,
            },
            MInstOf::Store { .. } => MInstOf::Store { rd: us[1], rs: us[0] },
            MInstOf::Call { link, trig, .. } => MInstOf::Call { link, fun: us[0], trig },
            MInstOf::CallArgs { link, rets, args, sig } => MInstOf::CallArgs {
                link,
                rets,
                args: with_vregs(args, us),
                sig,
            },
            MInstOf::JumpIssue { link, dst, kind, trig } => MInstOf::JumpIssue {
                link,
                dst,
                kind: match kind {
                    IssueKind::Jump => IssueKind::Jump,
                    IssueKind::Branch { dir, .. } => IssueKind::Branch { dir, cond: us[0] },
                    IssueKind::Far { conditional, dir, .. } => IssueKind::Far {
                        conditional,
                        dir,
                        cond: us[0],
                        offset: us[1],
                    },
                },
                trig,
            },
            MInstOf::TrapNz { .. } => MInstOf::TrapNz { cond: us[0] },
            MInstOf::JumpTrigger { link, .. } => MInstOf::JumpTrigger { link, args: us },
        }
    }

    /// The registers defined by the instruction, in physical production order:
    /// the order in which the values are emitted by the machine and therefore
    /// arrive at a shared consumer.
    pub open spec fn defs(self) -> Seq<Reg> {
        match self {
            MInstOf::Nop
            | MInstOf::Trap
            | MInstOf::Rets { .. }
            | MInstOf::Ret { .. }
            | MInstOf::Store { .. }
            | MInstOf::StoreStack { .. }
            | MInstOf::StoreStackArg { .. }
            | MInstOf::StackAdjust { .. }
            | MInstOf::JumpTrigger { .. }
            | MInstOf::ImmJump { .. }
            | MInstOf::Call { .. }
            | MInstOf::JumpIssue { .. }
            | MInstOf::TrapNz { .. }
            | MInstOf::Discard { .. } => seq![],
            MInstOf::Echo { rds, .. } => rds,
            MInstOf::EchoLong { rds, .. } => rds,
            MInstOf::Alu2 { rds, .. } => rds,
            MInstOf::Duplicate { rd1, rd2, .. } => seq![rd1, rd2],
            MInstOf::EchoSplit { rd1, rd2, .. } => seq![rd1, rd2],
            // Both outputs going to one consumer, the low one is delivered first.
            MInstOf::DoubleAlu { rdl, rdh, .. } => seq![rdl, rdh],
            // An echo with both outputs on one target emits its second input first.
            MInstOf::Reorder { rd1, rd2, .. } => seq![rd2, rd1],
            // The second input comes first; the chained values are produced by the
            // following echo.
            MInstOf::EchoChain { rd1, rd2, rd_chain, .. } => seq![rd2, rd1] + rd_chain,
            MInstOf::Args { args } => vregs_of(args),
            MInstOf::Alu1 { rd, .. } => seq![rd],
            MInstOf::UnaryAlu { rd, .. } => seq![rd],
            MInstOf::Pick { rd, .. } => seq![rd],
            MInstOf::Load { rd, .. } => seq![rd],
            MInstOf::LoadStack { rd, .. } => seq![rd],
            MInstOf::SAddr { rd, .. } => seq![rd],
            MInstOf::LoadExtName { rd, .. } => seq![rd],
            MInstOf::JumpOffset { rd, .. } => seq![rd],
            MInstOf::BinaryAlu { rd, .. } => seq![rd],
            MInstOf::IntCmp { rd, .. } => seq![rd],
            MInstOf::Resize { rd, .. } => seq![rd],
            MInstOf::Cast { rd, .. } => seq![rd],
            MInstOf::Const { rd, .. } => seq![rd],
            MInstOf::CallArgs { rets, .. } => vregs_of(rets),
        }
    }

    /// The instruction with its definitions replaced one for one.
    pub open spec fn with_defs(self, ds: Seq<Reg>) -> MInstView {
        match self {
            MInstOf::Nop
            | MInstOf::Trap
            | MInstOf::Rets { .. }
            | MInstOf::Ret { .. }
            | MInstOf::Store { .. }
            | MInstOf::StoreStack { .. }
            | MInstOf::StoreStackArg { .. }
            | MInstOf::StackAdjust { .. }
            | MInstOf::JumpTrigger { .. }
            | MInstOf::ImmJump { .. }
            | MInstOf::Call { .. }
            | MInstOf::JumpIssue { .. }
            | MInstOf::TrapNz { .. }
            | MInstOf::Discard { .. } => self,
            MInstOf::Echo { rss, .. } => MInstOf::Echo { rds: ds, rss },
            MInstOf::EchoLong { rss, out, .. } => MInstOf::EchoLong { rds: ds, rss, out },
            MInstOf::Alu2 { var, out_var, rss, outs, .. } => MInstOf::Alu2 {
                var,
                out_var,
                rds: ds,
                rss,
                outs,
            },
            MInstOf::Duplicate { rs, out1, out2, .. } => MInstOf::Duplicate {
                rd1: ds[0],
                rd2: ds[1],
                rs,
                out1,
                out2,
            },
            MInstOf::EchoSplit { rs1, rs2, out1, out2, .. } => MInstOf::EchoSplit {
                rd1: ds[0],
                rd2: ds[1],
                rs1,
                rs2,
                out1,
                out2,
            },
            MInstOf::DoubleAlu { op, rs1, rs2, .. } => MInstOf::DoubleAlu {
                op,
                rdl: ds[0],
                rdh: ds[1],
                rs1,
                rs2,
            },
            MInstOf::Reorder { rs1, rs2, out, .. } => MInstOf::Reorder {
                rd1: ds[1],
                rd2: ds[0],
                rs1,
                rs2,
                out,
            },
            MInstOf::EchoChain { rs1, rs2, out1, out2, rs_chain, .. } => MInstOf::EchoChain {
                rd1: ds[1],
                rd2: ds[0],
                rs1,
                rs2,
                out1,
                out2,
                rd_chain: ds.skip(2),
                rs_chain,
            },
            MInstOf::Args { args } => MInstOf::Args { args: with_vregs(args, ds) },
            MInstOf::Alu1 { var, rss, out, .. } => MInstOf::Alu1 { var, rd: ds[0], rss, out },
            MInstOf::UnaryAlu { op, rs, out, .. } => MInstOf::UnaryAlu { op, rd: ds[0], rs, out },
            MInstOf::Pick { cond, if_zero, if_nonzero, out, .. } => MInstOf::Pick {
                rd: ds[0],
                cond,
                if_zero,
                if_nonzero,
                out,
            },
            MInstOf::Load { ty, rs, out, .. } => MInstOf::Load { ty, rd: ds[0], rs, out },
            MInstOf::LoadStack { ty, idx, .. } => MInstOf::LoadStack { ty, rd: ds[0], idx },
            MInstOf::SAddr { scale_pow2, idx, .. } => MInstOf::SAddr {
                rd: ds[0],
                scale_pow2,
                idx,
            },
            MInstOf::LoadExtName { name, offset, .. } => MInstOf::LoadExtName {
                rd: ds[0],
                name,
                offset,
            },
            MInstOf::JumpOffset { dst, size_pow2, gap, trig, .. } => MInstOf::JumpOffset {
                rd: ds[0],
                dst,
                size_pow2,
                gap,
                trig,
            },
            MInstOf::BinaryAlu { op, rs1, rs2, .. } => MInstOf::BinaryAlu {
                op,
                rd: ds[0],
                rs1,
                rs2,
            },
            MInstOf::IntCmp { cc, rs1, rs2, .. } => MInstOf::IntCmp { cc, rd: ds[0], rs1, rs2 },
            MInstOf::Resize { var, rs, .. } => MInstOf::Resize { var, rd: ds[0], rs },
            MInstOf::Cast { ty, rs, out, .. } => MInstOf::Cast { rd: ds[0], ty, rs, out },
            MInstOf::Const { ty, imm, .. } => MInstOf::Const { ty, rd: ds[0], imm },
            MInstOf::CallArgs { link, rets, args, sig } => MInstOf::CallArgs {
                link,
                rets: with_vregs(rets, ds),
                args,
                sig,
            },
        }
    }

    /// All register operands of the instruction with their kinds, the links
    /// between issues and triggers included, in the order they are visited.
    pub open spec fn operands(self) -> Seq<(Reg, OperandKind)> {
        match self {
            MInstOf::Nop
            | MInstOf::Trap
            | MInstOf::Ret { .. }
            | MInstOf::ImmJump { .. }
            | MInstOf::StackAdjust { .. } => seq![],
            MInstOf::StoreStack { rs, .. } => seq![(rs, OperandKind::Use)],
            MInstOf::StoreStackArg { rs, .. } => seq![(rs, OperandKind::Use)],
            MInstOf::SAddr { rd, .. } => seq![(rd, OperandKind::Def)],
            MInstOf::LoadStack { rd, .. } => seq![(rd, OperandKind::Def)],
            MInstOf::LoadExtName { rd, .. } => seq![(rd, OperandKind::Def)],
            MInstOf::Discard { rss } => as_operands(rss, OperandKind::Use),
            MInstOf::Args { args } => as_operands(vregs_of(args), OperandKind::Def),
            MInstOf::Alu1 { rd, rss, .. } => seq![(rd, OperandKind::Def)] + as_operands(
                rss,
                OperandKind::Use,
            ),
            MInstOf::BinaryAlu { rd, rs1, rs2, .. } => seq![
                (rd, OperandKind::Def),
                (rs1, OperandKind::Use),
                (rs2, OperandKind::Use),
            ],
            MInstOf::IntCmp { rd, rs1, rs2, .. } => seq![
                (rd, OperandKind::Def),
                (rs1, OperandKind::Use),
                (rs2, OperandKind::Use),
            ],
            MInstOf::DoubleAlu { rdl, rdh, rs1, rs2, .. } => seq![
                (rdl, OperandKind::Def),
                (rdh, OperandKind::Def),
                (rs1, OperandKind::Use),
                (rs2, OperandKind::Use),
            ],
            MInstOf::Rets { rets } => as_operands(vregs_of(rets), OperandKind::Use),
            MInstOf::Const { rd, .. } => seq![(rd, OperandKind::Def)],
            MInstOf::Echo { rds, rss } => as_operands(rds, OperandKind::Def) + as_operands(
                rss,
                OperandKind::Use,
            ),
            MInstOf::EchoLong { rds, rss, .. } => as_operands(rds, OperandKind::Def) + as_operands(
                rss,
                OperandKind::Use,
            ),
            MInstOf::Alu2 { rds, rss, .. } => as_operands(rds, OperandKind::Def) + as_operands(
                rss,
                OperandKind::Use,
            ),
            MInstOf::EchoChain { rd1, rd2, rs1, rs2, rd_chain, rs_chain, .. } => seq![
                (rd1, OperandKind::Def),
                (rd2, OperandKind::Def),
            ] + as_operands(rd_chain, OperandKind::Def) + seq![
                (rs1, OperandKind::Use),
                (rs2, OperandKind::Use),
            ] + as_operands(rs_chain, OperandKind::Use),
            MInstOf::EchoSplit { rd1, rd2, rs1, rs2, .. } => seq![
                (rd1, OperandKind::Def),
                (rd2, OperandKind::Def),
                (rs1, OperandKind::Use),
                (rs2, OperandKind::Use),
            ],
            MInstOf::Duplicate { rd1, rd2, rs, .. } => seq![
                (rd1, OperandKind::Def),
                (rd2, OperandKind::Def),
                (rs, OperandKind::Use),
            ],
            MInstOf::Reorder { rd1, rd2, rs1, rs2, .. } => seq![
                (rd1, OperandKind::Def),
                (rd2, OperandKind::Def),
                (rs1, OperandKind::Use),
                (rs2, OperandKind::Use),
            ],
            MInstOf::Store { rd, rs } => seq![(rd, OperandKind::Use), (rs, OperandKind::Use)],
            MInstOf::UnaryAlu { rd, rs, .. } => seq![
                (rd, OperandKind::Def),
                (rs, OperandKind::Use),
            ],
            MInstOf::Load { rd, rs, .. } => seq![(rd, OperandKind::Def), (rs, OperandKind::Use)],
            MInstOf::Resize { rd, rs, .. } => seq![(rd, OperandKind::Def), (rs, OperandKind::Use)],
            MInstOf::Cast { rd, rs, .. } => seq![(rd, OperandKind::Def), (rs, OperandKind::Use)],
            MInstOf::Pick { rd, cond, if_zero, if_nonzero, .. } => seq![
                (cond, OperandKind::Use),
                (if_zero, OperandKind::Use),
                (if_nonzero, OperandKind::Use),
                (rd, OperandKind::Def),
            ],
            MInstOf::Call { link, fun, .. } => seq![
                (link, OperandKind::Def),
                (fun, OperandKind::Use),
            ],
            MInstOf::CallArgs { link, rets, args, .. } => seq![(link, OperandKind::Use)]
                + as_operands(vregs_of(rets), OperandKind::Def) + as_operands(
                vregs_of(args),
                OperandKind::Use,
            ),
            MInstOf::JumpIssue { link, kind, .. } => match kind {
                IssueKind::Jump => seq![(link, OperandKind::Def)],
                IssueKind::Branch { cond, .. } => seq![
                    (link, OperandKind::Def),
                    (cond, OperandKind::Use),
                ],
                IssueKind::Far { cond, offset, .. } => seq![
                    (link, OperandKind::Def),
                    (cond, OperandKind::Use),
                    (offset, OperandKind::Use),
                ],
            },
            MInstOf::JumpOffset { rd, .. } => seq![(rd, OperandKind::Def)],
            MInstOf::TrapNz { cond } => seq![(cond, OperandKind::Use)],
            MInstOf::JumpTrigger { link, args } => seq![(link, OperandKind::Use)] + as_operands(
                args,
                OperandKind::Use,
            ),
        }
    }
}


/// Appends registers as operands of one kind.
fn push_operands(ops: &mut Vec<(Reg, OperandKind)>, regs: &Vec<Reg>, kind: OperandKind)
    ensures
        final(ops)@ == old(ops)@ + as_operands(regs@, kind),
{
    for i in 0..regs.len()
        invariant
            ops@ == old(ops)@ + as_operands(regs@, kind).take(i as int),
    {
        ops.push((regs[i], kind));
        assert(ops@ =~= old(ops)@ + as_operands(regs@, kind).take(i as int + 1));
    }
    assert(ops@ =~= old(ops)@ + as_operands(regs@, kind));
}

/// Replaces the virtual registers of a list of pairs one for one.
fn set_vregs(pairs: &mut Vec<ArgPair>, regs: &Vec<Reg>)
    requires
        regs@.len() == old(pairs)@.len(),
    ensures
        final(pairs)@ == with_vregs(old(pairs)@, regs@),
{
    for i in 0..regs.len()
        invariant
            regs@.len() == old(pairs)@.len(),
            pairs@.len() == old(pairs)@.len(),
            forall|j: int| 0 <= j < i ==> pairs@[j] == with_vregs(old(pairs)@, regs@)[j],
            forall|j: int| i <= j < pairs@.len() ==> pairs@[j] == old(pairs)@[j],
    {
        let preg = pairs[i].preg;
        pairs[i] = ArgPair { vreg: regs[i], preg };
    }
    assert(pairs@ =~= with_vregs(old(pairs)@, regs@));
}

/// The registers from the third one on.
fn skip_two(regs: &Vec<Reg>) -> (r: Vec<Reg>)
    requires
        regs@.len() >= 2,
    ensures
        r@ == regs@.skip(2),
{
    let mut r: Vec<Reg> = Vec::new();
    for i in 2..regs.len()
        invariant
            r@ == regs@.subrange(2, i as int),
            regs@.len() >= 2,
    {
        r.push(regs[i]);
        assert(r@ =~= regs@.subrange(2, i as int + 1));
    }
    assert(r@ =~= regs@.skip(2));
    r
}

/// Two registers followed by a list.
fn two_and(a: Reg, b: Reg, rest: &Vec<Reg>) -> (r: Vec<Reg>)
    ensures
        r@ == seq![a, b] + rest@,
{
    let mut r: Vec<Reg> = vec![a, b];
    let mut tail = copy_regs(rest);
    r.append(&mut tail);
    assert(r@ =~= seq![a, b] + rest@);
    r
}

impl MInst {
    /// Returns the registers used by this instruction.
    pub fn get_uses(&self) -> (r: Vec<Reg>)
        ensures
            r@ == self@.uses(),
    {
        let r: Vec<Reg> = match self {
            MInst::Nop
            | MInst::Trap
            | MInst::Ret { .. }
            | MInst::Args { .. }
            | MInst::Const { .. }
            | MInst::LoadExtName { .. }
            | MInst::JumpOffset { .. }
            | MInst::ImmJump { .. }
            | MInst::LoadStack { .. }
            | MInst::SAddr { .. }
            | MInst::StackAdjust { .. } => Vec::new(),
            MInst::StoreStack { rs, .. } => vec![*rs],
            MInst::StoreStackArg { rs, .. } => vec![*rs],
            MInst::Reorder { rs1, rs2, .. } => vec![*rs1, *rs2],
            MInst::Rets { rets } => pair_vregs(rets),
            MInst::Echo { rss, .. } => copy_regs(rss),
            MInst::EchoLong { rss, .. } => copy_regs(rss),
            MInst::Alu1 { rss, .. } => copy_regs(rss),
            MInst::Alu2 { rss, .. } => copy_regs(rss),
            MInst::Discard { rss } => copy_regs(rss),
            MInst::EchoChain { rs1, rs2, rs_chain, .. } => two_and(*rs1, *rs2, rs_chain),
            MInst::EchoSplit { rs1, rs2, .. } => vec![*rs1, *rs2],
            MInst::BinaryAlu { rs1, rs2, .. } => vec![*rs1, *rs2],
            MInst::DoubleAlu { rs1, rs2, .. } => vec![*rs1, *rs2],
            MInst::IntCmp { rs1, rs2, .. } => vec![*rs1, *rs2],
            MInst::UnaryAlu { rs, .. } => vec![*rs],
            MInst::Duplicate { rs, .. } => vec![*rs],
            MInst::Load { rs, .. } => vec![*rs],
            MInst::Resize { rs, .. } => vec![*rs],
            MInst::Cast { rs, .. } => vec![*rs],
            MInst::Pick { cond, if_zero, if_nonzero, .. } => vec![*cond, *if_zero, *if_nonzero],
            MInst::Store { rd, rs } => vec![*rs, *rd],
            MInst::Call { fun, .. } => vec![*fun],
            MInst::CallArgs { args, .. } => pair_vregs(args),
            MInst::JumpIssue { kind, .. } => match kind {
                IssueKind::Jump => Vec::new(),
                IssueKind::Branch { cond, .. } => vec![*cond],
                IssueKind::Far { cond, offset, .. } => vec![*cond, *offset],
            },
            MInst::TrapNz { cond } => vec![*cond],
            MInst::JumpTrigger { args, .. } => copy_regs(args),
        };
        assert(r@ =~= self@.uses());
        r
    }

    /// Replaces the registers used by this instruction one for one.
    pub fn set_uses(&mut self, us: &Vec<Reg>)
        requires
            us@.len() == old(self)@.uses().len(),
        ensures
            final(self)@ == old(self)@.with_uses(us@),
    {
        match self {
            MInst::Nop
            | MInst::Trap
            | MInst::Ret { .. }
            | MInst::Args { .. }
            | MInst::Const { .. }
            | MInst::LoadExtName { .. }
            | MInst::JumpOffset { .. }
            | MInst::ImmJump { .. }
            | MInst::LoadStack { .. }
            | MInst::SAddr { .. }
            | MInst::StackAdjust { .. } => {},
            MInst::StoreStack { rs, .. } => *rs = us[0],
            MInst::StoreStackArg { rs, .. } => *rs = us[0],
            MInst::Reorder { rs1, rs2, .. } => {
                *rs1 = us[0];
                *rs2 = us[1];
            },
            MInst::Rets { rets } => set_vregs(rets, us),
            MInst::Echo { rss, .. } => *rss = copy_regs(us),
            MInst::EchoLong { rss, .. } => *rss = copy_regs(us),
            MInst::Alu1 { rss, .. } => *rss = copy_regs(us),
            MInst::Alu2 { rss, .. } => *rss = copy_regs(us),
            MInst::Discard { rss } => *rss = copy_regs(us),
            MInst::EchoChain { rs1, rs2, rs_chain, .. } => {
                *rs1 = us[0];
                *rs2 = us[1];
                *rs_chain = skip_two(us);
            },
            MInst::EchoSplit { rs1, rs2, .. } => {
                *rs1 = us[0];
                *rs2 = us[1];
            },
            MInst::BinaryAlu { rs1, rs2, .. } => {
                *rs1 = us[0];
                *rs2 = us[1];
            },
            MInst::DoubleAlu { rs1, rs2, .. } => {
                *rs1 = us[0];
                *rs2 = us[1];
            },
            MInst::IntCmp { rs1, rs2, .. } => {
                *rs1 = us[0];
                *rs2 = us[1];
            },
            MInst::UnaryAlu { rs, .. } => *rs = us[0],
            MInst::Duplicate { rs, .. } => *rs = us[0],
            MInst::Load { rs, .. } => *rs = us[0],
            MInst::Resize { rs, .. } => *rs = us[0],
            MInst::Cast { rs, .. } => *rs = us[0],
            MInst::Pick { cond, if_zero, if_nonzero, .. } => {
                *cond = us[0];
                *if_zero = us[1];
                *if_nonzero = us[2];
            },
            MInst::Store { rd, rs } => {
                *rs = us[0];
                *rd = us[1];
            },
            MInst::Call { fun, .. } => *fun = us[0],
            MInst::CallArgs { args, .. } => set_vregs(args, us),
            MInst::JumpIssue { kind, .. } => match kind {
                IssueKind::Jump => {},
                IssueKind::Branch { cond, .. } => *cond = us[0],
                IssueKind::Far { cond, offset, .. } => {
                    *cond = us[0];
                    *offset = us[1];
                },
            },
            MInst::TrapNz { cond } => *cond = us[0],
            MInst::JumpTrigger { args, .. } => *args = copy_regs(us),
        }
    }

    /// Returns the registers defined by this instruction, in physical production
    /// order: the order in which the values are emitted by the machine and
    /// therefore arrive at a shared consumer.
    pub fn get_defs(&self) -> (r: Vec<Reg>)
        ensures
            r@ == self@.defs(),
    {
        let r: Vec<Reg> = match self {
            MInst::Nop
            | MInst::Trap
            | MInst::Rets { .. }
            | MInst::Ret { .. }
            | MInst::Store { .. }
            | MInst::StoreStack { .. }
            | MInst::StoreStackArg { .. }
            | MInst::StackAdjust { .. }
            | MInst::JumpTrigger { .. }
            | MInst::ImmJump { .. }
            | MInst::Call { .. }
            | MInst::JumpIssue { .. }
            | MInst::TrapNz { .. }
            | MInst::Discard { .. } => Vec::new(),
            MInst::Echo { rds, .. } => copy_regs(rds),
            MInst::EchoLong { rds, .. } => copy_regs(rds),
            MInst::Alu2 { rds, .. } => copy_regs(rds),
            MInst::Duplicate { rd1, rd2, .. } => vec![*rd1, *rd2],
            MInst::EchoSplit { rd1, rd2, .. } => vec![*rd1, *rd2],
            MInst::DoubleAlu { rdl, rdh, .. } => vec![*rdl, *rdh],
            MInst::Reorder { rd1, rd2, .. } => vec![*rd2, *rd1],
            MInst::EchoChain { rd1, rd2, rd_chain, .. } => two_and(*rd2, *rd1, rd_chain),
            MInst::Args { args } => pair_vregs(args),
            MInst::Alu1 { rd, .. } => vec![*rd],
            MInst::UnaryAlu { rd, .. } => vec![*rd],
            MInst::Pick { rd, .. } => vec![*rd],
            MInst::Load { rd, .. } => vec![*rd],
            MInst::LoadStack { rd, .. } => vec![*rd],
            MInst::SAddr { rd, .. } => vec![*rd],
            MInst::LoadExtName { rd, .. } => vec![*rd],
            MInst::JumpOffset { rd, .. } => vec![*rd],
            MInst::BinaryAlu { rd, .. } => vec![*rd],
            MInst::IntCmp { rd, .. } => vec![*rd],
            MInst::Resize { rd, .. } => vec![*rd],
            MInst::Cast { rd, .. } => vec![*rd],
            MInst::Const { rd, .. } => vec![*rd],
            MInst::CallArgs { rets, .. } => pair_vregs(rets),
        };
        assert(r@ =~= self@.defs());
        r
    }

    /// Replaces the registers defined by this instruction one for one.
    pub fn set_defs(&mut self, ds: &Vec<Reg>)
        requires
            ds@.len() == old(self)@.defs().len(),
        ensures
            final(self)@ == old(self)@.with_defs(ds@),
    {
        match self {
            MInst::Nop
            | MInst::Trap
            | MInst::Rets { .. }
            | MInst::Ret { .. }
            | MInst::Store { .. }
            | MInst::StoreStack { .. }
            | MInst::StoreStackArg { .. }
            | MInst::StackAdjust { .. }
            | MInst::JumpTrigger { .. }
            | MInst::ImmJump { .. }
            | MInst::Call { .. }
            | MInst::JumpIssue { .. }
            | MInst::TrapNz { .. }
            | MInst::Discard { .. } => {},
            MInst::Echo { rds, .. } => *rds = copy_regs(ds),
            MInst::EchoLong { rds, .. } => *rds = copy_regs(ds),
            MInst::Alu2 { rds, .. } => *rds = copy_regs(ds),
            MInst::Duplicate { rd1, rd2, .. } => {
                *rd1 = ds[0];
                *rd2 = ds[1];
            },
            MInst::EchoSplit { rd1, rd2, .. } => {
                *rd1 = ds[0];
                *rd2 = ds[1];
            },
            MInst::DoubleAlu { rdl, rdh, .. } => {
                *rdl = ds[0];
                *rdh = ds[1];
            },
            MInst::Reorder { rd1, rd2, .. } => {
                *rd2 = ds[0];
                *rd1 = ds[1];
            },
            MInst::EchoChain { rd1, rd2, rd_chain, .. } => {
                *rd2 = ds[0];
                *rd1 = ds[1];
                *rd_chain = skip_two(ds);
            },
            MInst::Args { args } => set_vregs(args, ds),
            MInst::Alu1 { rd, .. } => *rd = ds[0],
            MInst::UnaryAlu { rd, .. } => *rd = ds[0],
            MInst::Pick { rd, .. } => *rd = ds[0],
            MInst::Load { rd, .. } => *rd = ds[0],
            MInst::LoadStack { rd, .. } => *rd = ds[0],
            MInst::SAddr { rd, .. } => *rd = ds[0],
            MInst::LoadExtName { rd, .. } => *rd = ds[0],
            MInst::JumpOffset { rd, .. } => *rd = ds[0],
            MInst::BinaryAlu { rd, .. } => *rd = ds[0],
            MInst::IntCmp { rd, .. } => *rd = ds[0],
            MInst::Resize { rd, .. } => *rd = ds[0],
            MInst::Cast { rd, .. } => *rd = ds[0],
            MInst::Const { rd, .. } => *rd = ds[0],
            MInst::CallArgs { rets, .. } => set_vregs(rets, ds),
        }
    }

    /// All register operands of the instruction with their kinds, in the order
    /// they are visited.
    pub fn get_operands(&self) -> (r: Vec<(Reg, OperandKind)>)
        ensures
            r@ == self@.operands(),
    {
        let mut ops: Vec<(Reg, OperandKind)> = Vec::new();
        match self {
            MInst::Nop
            | MInst::Trap
            | MInst::Ret { .. }
            | MInst::ImmJump { .. }
            | MInst::StackAdjust { .. } => {},
            MInst::StoreStack { rs, .. } => ops.push((*rs, OperandKind::Use)),
            MInst::StoreStackArg { rs, .. } => ops.push((*rs, OperandKind::Use)),
            MInst::SAddr { rd, .. } => ops.push((*rd, OperandKind::Def)),
            MInst::LoadStack { rd, .. } => ops.push((*rd, OperandKind::Def)),
            MInst::LoadExtName { rd, .. } => ops.push((*rd, OperandKind::Def)),
            MInst::Discard { rss } => push_operands(&mut ops, rss, OperandKind::Use),
            MInst::Args { args } => {
                // Function arguments are treated as definition points.
                let ds = pair_vregs(args);
                push_operands(&mut ops, &ds, OperandKind::Def)
            },
            MInst::Alu1 { rd, rss, .. } => {
                ops.push((*rd, OperandKind::Def));
                push_operands(&mut ops, rss, OperandKind::Use);
            },
            MInst::BinaryAlu { rd, rs1, rs2, .. } => {
                ops.push((*rd, OperandKind::Def));
                ops.push((*rs1, OperandKind::Use));
                ops.push((*rs2, OperandKind::Use));
            },
            MInst::IntCmp { rd, rs1, rs2, .. } => {
                ops.push((*rd, OperandKind::Def));
                ops.push((*rs1, OperandKind::Use));
                ops.push((*rs2, OperandKind::Use));
            },
            MInst::DoubleAlu { rdl, rdh, rs1, rs2, .. } => {
                ops.push((*rdl, OperandKind::Def));
                ops.push((*rdh, OperandKind::Def));
                ops.push((*rs1, OperandKind::Use));
                ops.push((*rs2, OperandKind::Use));
            },
            MInst::Rets { rets } => {
                let us = pair_vregs(rets);
                push_operands(&mut ops, &us, OperandKind::Use);
            },
            MInst::Const { rd, .. } => ops.push((*rd, OperandKind::Def)),
            MInst::Echo { rds, rss } => {
                push_operands(&mut ops, rds, OperandKind::Def);
                push_operands(&mut ops, rss, OperandKind::Use);
            },
            MInst::EchoLong { rds, rss, .. } => {
                push_operands(&mut ops, rds, OperandKind::Def);
                push_operands(&mut ops, rss, OperandKind::Use);
            },
            MInst::Alu2 { rds, rss, .. } => {
                push_operands(&mut ops, rds, OperandKind::Def);
                push_operands(&mut ops, rss, OperandKind::Use);
            },
            MInst::EchoChain { rd1, rd2, rs1, rs2, rd_chain, rs_chain, .. } => {
                ops.push((*rd1, OperandKind::Def));
                ops.push((*rd2, OperandKind::Def));
                push_operands(&mut ops, rd_chain, OperandKind::Def);
                ops.push((*rs1, OperandKind::Use));
                ops.push((*rs2, OperandKind::Use));
                push_operands(&mut ops, rs_chain, OperandKind::Use);
            },
            MInst::EchoSplit { rd1, rd2, rs1, rs2, .. } => {
                ops.push((*rd1, OperandKind::Def));
                ops.push((*rd2, OperandKind::Def));
                ops.push((*rs1, OperandKind::Use));
                ops.push((*rs2, OperandKind::Use));
            },
            MInst::Duplicate { rd1, rd2, rs, .. } => {
                ops.push((*rd1, OperandKind::Def));
                ops.push((*rd2, OperandKind::Def));
                ops.push((*rs, OperandKind::Use));
            },
            MInst::Reorder { rd1, rd2, rs1, rs2, .. } => {
                ops.push((*rd1, OperandKind::Def));
                ops.push((*rd2, OperandKind::Def));
                ops.push((*rs1, OperandKind::Use));
                ops.push((*rs2, OperandKind::Use));
            },
            MInst::Store { rd, rs } => {
                ops.push((*rd, OperandKind::Use));
                ops.push((*rs, OperandKind::Use));
            },
            MInst::UnaryAlu { rd, rs, .. } => {
                ops.push((*rd, OperandKind::Def));
                ops.push((*rs, OperandKind::Use));
            },
            MInst::Load { rd, rs, .. } => {
                ops.push((*rd, OperandKind::Def));
                ops.push((*rs, OperandKind::Use));
            },
            MInst::Resize { rd, rs, .. } => {
                ops.push((*rd, OperandKind::Def));
                ops.push((*rs, OperandKind::Use));
            },
            MInst::Cast { rd, rs, .. } => {
                ops.push((*rd, OperandKind::Def));
                ops.push((*rs, OperandKind::Use));
            },
            MInst::Pick { rd, cond, if_zero, if_nonzero, .. } => {
                ops.push((*cond, OperandKind::Use));
                ops.push((*if_zero, OperandKind::Use));
                ops.push((*if_nonzero, OperandKind::Use));
                ops.push((*rd, OperandKind::Def));
            },
            MInst::Call { link, fun, .. } => {
                ops.push((*link, OperandKind::Def));
                ops.push((*fun, OperandKind::Use));
            },
            MInst::CallArgs { link, rets, args, .. } => {
                ops.push((*link, OperandKind::Use));
                let ds = pair_vregs(rets);
                push_operands(&mut ops, &ds, OperandKind::Def);
                let us = pair_vregs(args);
                push_operands(&mut ops, &us, OperandKind::Use);
            },
            MInst::JumpIssue { link, kind, .. } => {
                ops.push((*link, OperandKind::Def));
                match kind {
                    IssueKind::Jump => {},
                    IssueKind::Branch { cond, .. } => ops.push((*cond, OperandKind::Use)),
                    IssueKind::Far { cond, offset, .. } => {
                        ops.push((*cond, OperandKind::Use));
                        ops.push((*offset, OperandKind::Use));
                    },
                }
            },
            MInst::JumpOffset { rd, .. } => ops.push((*rd, OperandKind::Def)),
            MInst::TrapNz { cond } => ops.push((*cond, OperandKind::Use)),
            MInst::JumpTrigger { link, args } => {
                ops.push((*link, OperandKind::Use));
                push_operands(&mut ops, args, OperandKind::Use);
            },
        }
        assert(ops@ =~= self@.operands());
        ops
    }
}

/// Replacing the uses of an instruction one for one yields exactly the given
/// uses, and leaves its definitions as they are.
pub proof fn with_uses_sets_uses(inst: MInstView, us: Seq<Reg>)
    requires
        us.len() == inst.uses().len(),
    ensures
        inst.with_uses(us).uses() == us,
        inst.with_uses(us).defs() == inst.defs(),
{
    assert(inst.with_uses(us).uses() =~= us);
    assert(inst.with_uses(us).defs() =~= inst.defs());
}

/// Replacing the definitions of an instruction one for one yields exactly the
/// given definitions, and leaves its uses as they are.
pub proof fn with_defs_sets_defs(inst: MInstView, ds: Seq<Reg>)
    requires
        ds.len() == inst.defs().len(),
    ensures
        inst.with_defs(ds).defs() == ds,
        inst.with_defs(ds).uses() == inst.uses(),
{
    assert(inst.with_defs(ds).defs() =~= ds);
    assert(inst.with_defs(ds).uses() =~= inst.uses());
}

} // verus!
