//! The machine instructions of the back end and what each of them reads,
//! defines and emits.
use crate::ir::{ExternalName, IntCC, Signature, SignatureView};
use crate::isa::{Alu2OutputVariant, Alu2Variant, AluVariant};
use crate::isatype::IsaType;
use crate::reg::{copy_pairs, copy_regs, ArgPair, MachLabel, Reg};
use vstd::prelude::*;

verus! {

/// The maximum number of operands an instruction's ready queue can hold;
/// operands delivered beyond this are dropped by the machine.
pub const QUEUE_CAPACITY: usize = 4;

/// A binary operation before its operands' types are resolved.
#[derive(Clone, Copy, PartialEq, Eq, Structural, Debug, Hash)]
pub enum BinaryAluOp {
    IntAddWrap,
    IntSubWrap,
    IntMulWrap,
    BitAnd,
    BitOr,
    BitXor,
}

/// A binary operation with two results before its operands' types are resolved.
#[derive(Clone, Copy, PartialEq, Eq, Structural, Debug, Hash)]
pub enum DoubleAluOp {
    SaddOverflow,
    UaddOverflow,
    SsubOverflow,
    UsubOverflow,
    SmulHi,
    UmulHi,
    SdivRem,
    UdivRem,
    Shl,
    Ushr,
    Sshr,
}

/// A unary operation.
#[derive(Clone, Copy, PartialEq, Eq, Structural, Debug, Hash)]
pub enum UnaryAluOp {
    LogNeg,
    BitNeg,
}

/// How a value is resized.
#[derive(Clone, Copy, PartialEq, Eq, Structural, Debug, Hash)]
pub enum ResizeVariant {
    Uextend,
    Sextend,
    Reduce,
}

/// What kind of jump an issue starts.
#[derive(Clone, Copy, PartialEq, Eq, Structural, Debug, Hash)]
pub enum IssueKind {
    /// An unconditional jump.
    Jump,
    /// A conditional jump. `dir` is the sense of the condition: taken on zero
    /// if set (forward), on non-zero otherwise (backward).
    Branch { dir: bool, cond: Reg },
    /// A jump that takes its target offset from an operand.
    Far { conditional: bool, dir: bool, cond: Reg, offset: Reg },
}

impl IssueKind {
    /// Whether the jump is conditional (a branch).
    pub open spec fn spec_is_conditional(self) -> bool {
        match self {
            IssueKind::Jump => false,
            IssueKind::Branch { .. } => true,
            IssueKind::Far { conditional, .. } => conditional,
        }
    }

    /// Whether the jump is conditional (a branch).
    pub fn is_conditional(&self) -> (r: bool)
        ensures
            r == self.spec_is_conditional(),
    {
        match self {
            IssueKind::Jump => false,
            IssueKind::Branch { .. } => true,
            IssueKind::Far { conditional, .. } => *conditional,
        }
    }
}

/// Whether an operand is read or defined.
#[derive(Clone, Copy, PartialEq, Eq, Structural, Debug, Hash)]
pub enum OperandKind {
    Use,
    Def,
}

/// A machine instruction, over the types of its register lists `R`, its lists
/// of register pairs `P`, its lists of output references `O` and its signature
/// `S`.
#[allow(inconsistent_fields)]
#[verifier::ext_equal]
pub enum MInstOf<R, P, O, S> {
    /// Defines the block's parameters as they arrive.
    Args { args: P },
    /// Drops operands.
    Discard { rss: R },
    /// Does nothing.
    Nop,
    /// Halts.
    Trap,
    /// Halts if the condition is non-zero.
    TrapNz { cond: Reg },
    /// Issues the return, to be triggered `trig` instructions later.
    Ret { trig: u16 },
    /// Triggers the return with the given values.
    Rets { rets: P },
    /// A single-output operation.
    Alu1 { var: AluVariant, rd: Reg, rss: R, out: u16 },
    /// A two-output operation, of which one or both outputs are kept.
    Alu2 { var: Alu2Variant, out_var: Alu2OutputVariant, rds: R, rss: R, outs: O },
    /// Materializes a constant.
    Const { ty: IsaType, rd: Reg, imm: i64 },
    /// Materializes the address of a symbol plus an offset.
    LoadExtName { rd: Reg, name: ExternalName, offset: i64 },
    /// Reroutes each operand to its destination; expanded into the concrete echoes.
    Echo { rds: R, rss: R },
    /// Outputs two operands and chains the rest to the next instruction.
    EchoChain { rd1: Reg, rd2: Reg, rs1: Reg, rs2: Reg, out1: u16, out2: u16, rd_chain: R, rs_chain: R },
    /// Outputs two operands with a reference each.
    EchoSplit { rd1: Reg, rd2: Reg, rs1: Reg, rs2: Reg, out1: u16, out2: u16 },
    /// Outputs its operands with one long reference.
    EchoLong { rds: R, rss: R, out: u16 },
    /// Outputs its operand twice.
    Duplicate { rd1: Reg, rd2: Reg, rs: Reg, out1: u16, out2: u16 },
    /// Swaps the order in which two operands arrive at one consumer.
    Reorder { rd1: Reg, rd2: Reg, rs1: Reg, rs2: Reg, out: u16 },
    /// Stores `rs` at the address `rd`.
    Store { rd: Reg, rs: Reg },
    /// Stores into the frame at a scaled index.
    StoreStack { rs: Reg, idx: u16 },
    /// Stores a stack-passed call argument; resolved once the frame's size is known.
    StoreStackArg { rs: Reg, offset: u16, scale_pow2: u16 },
    /// Loads from the frame at a scaled index.
    LoadStack { ty: IsaType, rd: Reg, idx: u16 },
    /// The address of a scaled index of the frame.
    SAddr { rd: Reg, scale_pow2: u16, idx: u16 },
    /// Reserves or frees a power of two of bytes of the private or shared frame.
    StackAdjust { reserve: bool, private: bool, amount_pow2: u16 },
    /// Loads from the address `rs`.
    Load { ty: IsaType, rd: Reg, rs: Reg, out: u16 },
    /// Changes the type of a value.
    Cast { rd: Reg, ty: IsaType, rs: Reg, out: u16 },
    /// Extends or reduces a value; resolved into a cast.
    Resize { var: ResizeVariant, rd: Reg, rs: Reg },
    /// A binary operation; resolved into a machine operation.
    BinaryAlu { op: BinaryAluOp, rd: Reg, rs1: Reg, rs2: Reg },
    /// A binary operation with two results; resolved into a machine operation.
    DoubleAlu { op: DoubleAluOp, rdl: Reg, rdh: Reg, rs1: Reg, rs2: Reg },
    /// Chooses one of two values by a condition.
    Pick { rd: Reg, cond: Reg, if_zero: Reg, if_nonzero: Reg, out: u16 },
    /// A unary operation.
    UnaryAlu { op: UnaryAluOp, rd: Reg, rs: Reg, out: u16 },
    /// An integer comparison; resolved into a machine operation.
    IntCmp { cc: IntCC, rd: Reg, rs1: Reg, rs2: Reg },
    /// Issues a call, to be triggered `trig` instructions later.
    Call { link: Reg, fun: Reg, trig: u16 },
    /// Triggers a call with the given arguments and defines its return values.
    CallArgs { link: Reg, rets: P, args: P, sig: S },
    /// Issues a jump, to be triggered `trig` instructions later.
    JumpIssue { link: Reg, dst: MachLabel, kind: IssueKind, trig: u16 },
    /// Materializes the offset of a far jump that follows `gap` instructions later.
    JumpOffset { rd: Reg, dst: MachLabel, size_pow2: u16, gap: u16, trig: u16 },
    /// Triggers the issued jumps and passes the arguments to the target.
    JumpTrigger { link: Reg, args: R },
    /// A jump that is its own issue and trigger.
    ImmJump { dst: MachLabel },
}

/// A machine instruction.
pub type MInst = MInstOf<Vec<Reg>, Vec<ArgPair>, Vec<u16>, Signature>;

/// A machine instruction as a mathematical value.
pub type MInstView = MInstOf<Seq<Reg>, Seq<ArgPair>, Seq<u16>, SignatureView>;

impl View for MInst {
    type V = MInstView;

    open spec fn view(&self) -> MInstView {
        match *self {
            MInstOf::Args { args } => MInstOf::Args { args: args@ },
            MInstOf::Discard { rss } => MInstOf::Discard { rss: rss@ },
            MInstOf::Nop => MInstOf::Nop,
            MInstOf::Trap => MInstOf::Trap,
            MInstOf::TrapNz { cond } => MInstOf::TrapNz { cond },
            MInstOf::Ret { trig } => MInstOf::Ret { trig },
            MInstOf::Rets { rets } => MInstOf::Rets { rets: rets@ },
            MInstOf::Alu1 { var, rd, rss, out } => MInstOf::Alu1 { var, rd, rss: rss@, out },
            MInstOf::Alu2 { var, out_var, rds, rss, outs } => MInstOf::Alu2 { var, out_var, rds: rds@, rss: rss@, outs: outs@ },
            MInstOf::Const { ty, rd, imm } => MInstOf::Const { ty, rd, imm },
            MInstOf::LoadExtName { rd, name, offset } => MInstOf::LoadExtName { rd, name, offset },
            MInstOf::Echo { rds, rss } => MInstOf::Echo { rds: rds@, rss: rss@ },
            MInstOf::EchoChain { rd1, rd2, rs1, rs2, out1, out2, rd_chain, rs_chain } => MInstOf::EchoChain { rd1, rd2, rs1, rs2, out1, out2, rd_chain: rd_chain@, rs_chain: rs_chain@ },
            MInstOf::EchoSplit { rd1, rd2, rs1, rs2, out1, out2 } => MInstOf::EchoSplit { rd1, rd2, rs1, rs2, out1, out2 },
            MInstOf::EchoLong { rds, rss, out } => MInstOf::EchoLong { rds: rds@, rss: rss@, out },
            MInstOf::Duplicate { rd1, rd2, rs, out1, out2 } => MInstOf::Duplicate { rd1, rd2, rs, out1, out2 },
            MInstOf::Reorder { rd1, rd2, rs1, rs2, out } => MInstOf::Reorder { rd1, rd2, rs1, rs2, out },
            MInstOf::Store { rd, rs } => MInstOf::Store { rd, rs },
            MInstOf::StoreStack { rs, idx } => MInstOf::StoreStack { rs, idx },
            MInstOf::StoreStackArg { rs, offset, scale_pow2 } => MInstOf::StoreStackArg { rs, offset, scale_pow2 },
            MInstOf::LoadStack { ty, rd, idx } => MInstOf::LoadStack { ty, rd, idx },
            MInstOf::SAddr { rd, scale_pow2, idx } => MInstOf::SAddr { rd, scale_pow2, idx },
            MInstOf::StackAdjust { reserve, private, amount_pow2 } => MInstOf::StackAdjust { reserve, private, amount_pow2 },
            MInstOf::Load { ty, rd, rs, out } => MInstOf::Load { ty, rd, rs, out },
            MInstOf::Cast { rd, ty, rs, out } => MInstOf::Cast { rd, ty, rs, out },
            MInstOf::Resize { var, rd, rs } => MInstOf::Resize { var, rd, rs },
            MInstOf::BinaryAlu { op, rd, rs1, rs2 } => MInstOf::BinaryAlu { op, rd, rs1, rs2 },
            MInstOf::DoubleAlu { op, rdl, rdh, rs1, rs2 } => MInstOf::DoubleAlu { op, rdl, rdh, rs1, rs2 },
            MInstOf::Pick { rd, cond, if_zero, if_nonzero, out } => MInstOf::Pick { rd, cond, if_zero, if_nonzero, out },
            MInstOf::UnaryAlu { op, rd, rs, out } => MInstOf::UnaryAlu { op, rd, rs, out },
            MInstOf::IntCmp { cc, rd, rs1, rs2 } => MInstOf::IntCmp { cc, rd, rs1, rs2 },
            MInstOf::Call { link, fun, trig } => MInstOf::Call { link, fun, trig },
            MInstOf::CallArgs { link, rets, args, sig } => MInstOf::CallArgs { link, rets: rets@, args: args@, sig: sig@ },
            MInstOf::JumpIssue { link, dst, kind, trig } => MInstOf::JumpIssue { link, dst, kind, trig },
            MInstOf::JumpOffset { rd, dst, size_pow2, gap, trig } => MInstOf::JumpOffset { rd, dst, size_pow2, gap, trig },
            MInstOf::JumpTrigger { link, args } => MInstOf::JumpTrigger { link, args: args@ },
            MInstOf::ImmJump { dst } => MInstOf::ImmJump { dst },
        }
    }
}

/// A list of instructions as mathematical values.
pub open spec fn views(insts: Seq<MInst>) -> Seq<MInstView> {
    Seq::new(insts.len(), |i: int| insts[i]@)
}

/// The views of a list with one more instruction.
pub broadcast proof fn views_push(s: Seq<MInst>, x: MInst)
    ensures
        #[trigger] views(s.push(x)) == views(s).push(x@),
{
    assert(views(s.push(x)) =~= views(s).push(x@));
}

/// The views of a list with an instruction inserted.
pub broadcast proof fn views_insert(s: Seq<MInst>, i: int, x: MInst)
    requires
        0 <= i <= s.len(),
    ensures
        #[trigger] views(s.insert(i, x)) == views(s).insert(i, x@),
{
    assert(views(s.insert(i, x)) =~= views(s).insert(i, x@));
}

/// The views of a list with an instruction replaced.
pub broadcast proof fn views_update(s: Seq<MInst>, i: int, x: MInst)
    requires
        0 <= i < s.len(),
    ensures
        #[trigger] views(s.update(i, x)) == views(s).update(i, x@),
{
    assert(views(s.update(i, x)) =~= views(s).update(i, x@));
}

/// The views of two lists joined.
pub broadcast proof fn views_add(s: Seq<MInst>, t: Seq<MInst>)
    ensures
        #[trigger] views(s + t) == views(s) + views(t),
{
    assert(views(s + t) =~= views(s) + views(t));
}

/// A copy of a list of output references.
fn copy_outs(v: &Vec<u16>) -> (r: Vec<u16>)
    ensures
        r@ == v@,
{
    let r = v.clone();
    assert(r@ =~= v@);
    r
}

impl MInst {
    /// A copy of the instruction.
    pub fn copy(&self) -> (r: MInst)
        ensures
            r@ == self@,
    {
        match self {
            MInst::Args { args } => MInst::Args { args: copy_pairs(args) },
            MInst::Discard { rss } => MInst::Discard { rss: copy_regs(rss) },
            MInst::Nop => MInst::Nop,
            MInst::Trap => MInst::Trap,
            MInst::TrapNz { cond } => MInst::TrapNz { cond: *cond },
            MInst::Ret { trig } => MInst::Ret { trig: *trig },
            MInst::Rets { rets } => MInst::Rets { rets: copy_pairs(rets) },
            MInst::Alu1 { var, rd, rss, out } => MInst::Alu1 { var: *var, rd: *rd, rss: copy_regs(rss), out: *out },
            MInst::Alu2 { var, out_var, rds, rss, outs } => MInst::Alu2 { var: *var, out_var: *out_var, rds: copy_regs(rds), rss: copy_regs(rss), outs: copy_outs(outs) },
            MInst::Const { ty, rd, imm } => MInst::Const { ty: *ty, rd: *rd, imm: *imm },
            MInst::LoadExtName { rd, name, offset } => MInst::LoadExtName { rd: *rd, name: *name, offset: *offset },
            MInst::Echo { rds, rss } => MInst::Echo { rds: copy_regs(rds), rss: copy_regs(rss) },
            MInst::EchoChain { rd1, rd2, rs1, rs2, out1, out2, rd_chain, rs_chain } => MInst::EchoChain { rd1: *rd1, rd2: *rd2, rs1: *rs1, rs2: *rs2, out1: *out1, out2: *out2, rd_chain: copy_regs(rd_chain), rs_chain: copy_regs(rs_chain) },
            MInst::EchoSplit { rd1, rd2, rs1, rs2, out1, out2 } => MInst::EchoSplit { rd1: *rd1, rd2: *rd2, rs1: *rs1, rs2: *rs2, out1: *out1, out2: *out2 },
            MInst::EchoLong { rds, rss, out } => MInst::EchoLong { rds: copy_regs(rds), rss: copy_regs(rss), out: *out },
            MInst::Duplicate { rd1, rd2, rs, out1, out2 } => MInst::Duplicate { rd1: *rd1, rd2: *rd2, rs: *rs, out1: *out1, out2: *out2 },
            MInst::Reorder { rd1, rd2, rs1, rs2, out } => MInst::Reorder { rd1: *rd1, rd2: *rd2, rs1: *rs1, rs2: *rs2, out: *out },
            MInst::Store { rd, rs } => MInst::Store { rd: *rd, rs: *rs },
            MInst::StoreStack { rs, idx } => MInst::StoreStack { rs: *rs, idx: *idx },
            MInst::StoreStackArg { rs, offset, scale_pow2 } => MInst::StoreStackArg { rs: *rs, offset: *offset, scale_pow2: *scale_pow2 },
            MInst::LoadStack { ty, rd, idx } => MInst::LoadStack { ty: *ty, rd: *rd, idx: *idx },
            MInst::SAddr { rd, scale_pow2, idx } => MInst::SAddr { rd: *rd, scale_pow2: *scale_pow2, idx: *idx },
            MInst::StackAdjust { reserve, private, amount_pow2 } => MInst::StackAdjust { reserve: *reserve, private: *private, amount_pow2: *amount_pow2 },
            MInst::Load { ty, rd, rs, out } => MInst::Load { ty: *ty, rd: *rd, rs: *rs, out: *out },
            MInst::Cast { rd, ty, rs, out } => MInst::Cast { rd: *rd, ty: *ty, rs: *rs, out: *out },
            MInst::Resize { var, rd, rs } => MInst::Resize { var: *var, rd: *rd, rs: *rs },
            MInst::BinaryAlu { op, rd, rs1, rs2 } => MInst::BinaryAlu { op: *op, rd: *rd, rs1: *rs1, rs2: *rs2 },
            MInst::DoubleAlu { op, rdl, rdh, rs1, rs2 } => MInst::DoubleAlu { op: *op, rdl: *rdl, rdh: *rdh, rs1: *rs1, rs2: *rs2 },
            MInst::Pick { rd, cond, if_zero, if_nonzero, out } => MInst::Pick { rd: *rd, cond: *cond, if_zero: *if_zero, if_nonzero: *if_nonzero, out: *out },
            MInst::UnaryAlu { op, rd, rs, out } => MInst::UnaryAlu { op: *op, rd: *rd, rs: *rs, out: *out },
            MInst::IntCmp { cc, rd, rs1, rs2 } => MInst::IntCmp { cc: *cc, rd: *rd, rs1: *rs1, rs2: *rs2 },
            MInst::Call { link, fun, trig } => MInst::Call { link: *link, fun: *fun, trig: *trig },
            MInst::CallArgs { link, rets, args, sig } => MInst::CallArgs { link: *link, rets: copy_pairs(rets), args: copy_pairs(args), sig: sig.copy() },
            MInst::JumpIssue { link, dst, kind, trig } => MInst::JumpIssue { link: *link, dst: *dst, kind: *kind, trig: *trig },
            MInst::JumpOffset { rd, dst, size_pow2, gap, trig } => MInst::JumpOffset { rd: *rd, dst: *dst, size_pow2: *size_pow2, gap: *gap, trig: *trig },
            MInst::JumpTrigger { link, args } => MInst::JumpTrigger { link: *link, args: copy_regs(args) },
            MInst::ImmJump { dst } => MInst::ImmJump { dst: *dst },
        }
    }
}

} // verus!
