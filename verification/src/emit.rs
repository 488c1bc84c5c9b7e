//! Binary code emission.
use crate::inst::{IssueKind, MInst, MInstOf, MInstView};
use crate::ir::ExternalName;
use crate::isa::{Alu2OutputVariant, Alu2Variant, AluVariant, CallVariant, Instruction, Type};
use crate::isatype::IsaType;
use crate::label::LabelUse;
use crate::length::{const_bytes, const_bytes_extend_to_constant, size_of_pow2};
use crate::passes::far_jumps::MAX_CODE;
use crate::reg::{CodegenError, MachLabel};
use vstd::prelude::*;

verus! {

/// The settings of the code generator, one bit per setting.
#[derive(Clone, Copy, PartialEq, Eq, Structural, Debug)]
pub struct Flags {
    pub bits: u64,
}

/// What emission depends on besides the instructions.
#[derive(Clone, Copy, PartialEq, Eq, Structural, Debug)]
pub struct EmitInfo {
    pub shared_flag: Flags,
    pub isa_flags: Flags,
}

impl EmitInfo {
    /// The information with the given settings.
    pub fn new(shared_flag: Flags, isa_flags: Flags) -> (r: EmitInfo)
        ensures
            r.shared_flag == shared_flag,
            r.isa_flags == isa_flags,
    {
        EmitInfo { shared_flag, isa_flags }
    }
}

/// State carried between emissions of a sequence of instructions.
#[derive(Clone, Copy, PartialEq, Eq, Structural, Debug)]
pub struct EmitState {
    /// The number of the stack map for the upcoming instruction.
    pub user_stack_map: Option<u32>,
    /// The size of the function's frame.
    pub frame_size: u32,
}

impl EmitState {
    /// The state at the start of a function.
    pub fn new(frame_size: u32) -> (r: EmitState)
        ensures
            r.user_stack_map is None,
            r.frame_size == frame_size,
    {
        EmitState { user_stack_map: None, frame_size }
    }

    /// Sets the stack map for the upcoming instruction.
    pub fn pre_safepoint(&mut self, user_stack_map: Option<u32>)
        ensures
            final(self).user_stack_map == user_stack_map,
            final(self).frame_size == old(self).frame_size,
    {
        self.user_stack_map = user_stack_map;
    }
}

/// A reference to a label: the address of the first instruction that depends on
/// it, and how it does.
#[derive(Clone, Copy, PartialEq, Eq, Structural, Debug)]
pub struct LabelRef {
    pub addr: u32,
    pub label: MachLabel,
    pub kind: LabelUse,
}

/// How a reference to a symbol is filled in.
#[derive(Clone, Copy, PartialEq, Eq, Structural, Debug)]
pub enum RelocKind {
    /// A 32-bit address over the immediates of a `const` and three `grow`s.
    ScryAbs32,
}

/// A reference to a symbol, filled in when the code is linked.
#[derive(Clone, Copy, PartialEq, Eq, Structural, Debug)]
pub struct Reloc {
    pub kind: RelocKind,
    /// The number of instructions before the first that depends on the symbol.
    pub addr: u32,
    pub name: ExternalName,
    pub addend: i64,
}

/// The code emitted so far.
pub struct CodeBuffer {
    pub insts: Vec<Instruction>,
    pub labels: Vec<LabelRef>,
    pub relocs: Vec<Reloc>,
}

/// An output reference that fits its five bits.
pub open spec fn short_ref(out: u16) -> bool {
    out <= 31
}

/// An output reference that fits its ten bits.
pub open spec fn long_ref(out: u16) -> bool {
    out <= 1023
}

/// A trigger offset that fits its six bits.
pub open spec fn trigger_ref(trig: u16) -> bool {
    trig <= 63
}

/// A chain of a `const` and `grow`s that emits the given bytes, the last first.
pub open spec fn const_chain(ty: Type, bytes: Seq<u8>) -> Seq<Instruction> {
    Seq::new(
        bytes.len(),
        |i: int|
            if i == 0 {
                Instruction::Constant(ty, bytes[bytes.len() - 1])
            } else {
                Instruction::Grow(bytes[bytes.len() - 1 - i])
            },
    )
}

/// A chain of a `const` and `grow`s that holds nothing yet.
pub open spec fn empty_chain(ty: Type, len: int) -> Seq<Instruction> {
    const_chain(ty, Seq::new(len as nat, |i: int| 0u8))
}

/// One instruction, if its fields fit.
pub open spec fn one_if(fits: bool, inst: Instruction) -> Option<Seq<Instruction>> {
    if fits {
        Some(seq![inst])
    } else {
        None
    }
}

/// The type that a cast to an instruction type gives: unsigned, unless it is
/// known.
pub open spec fn cast_type(ty: IsaType) -> Type {
    match ty {
        IsaType::Known(t) => t,
        IsaType::Integer(s) => Type::Uint(s),
        IsaType::Invalid => Type::Uint(0),
    }
}

/// A two-output operation with both outputs: they share a reference, or one goes
/// to the next instruction and the other to the reference.
pub open spec fn two_outputs(var: Alu2Variant, low: u16, high: u16) -> Instruction {
    if low == high {
        Instruction::Alu2(var, Alu2OutputVariant::LowFirst, low)
    } else if low == 0 {
        Instruction::Alu2(var, Alu2OutputVariant::NextLow, high)
    } else {
        Instruction::Alu2(var, Alu2OutputVariant::NextHigh, low)
    }
}

/// Whether two outputs can be referred to by one operation.
pub open spec fn outputs_fit(low: u16, high: u16) -> bool {
    short_ref(low) && short_ref(high) && (low == high || low == 0 || high == 0)
}

/// Whether the fields of an instruction fit their encoding: types are known, and
/// references, offsets and indices are in range.
pub open spec fn fields_fit(inst: MInstView) -> bool {
    match inst {
        MInstOf::Ret { trig } => trigger_ref(trig),
        MInstOf::Call { trig, .. } => trigger_ref(trig),
        MInstOf::JumpIssue { trig, .. } => trigger_ref(trig),
        MInstOf::Alu1 { out, .. } => short_ref(out),
        MInstOf::Alu2 { outs, .. } => {
            ||| outs.len() == 1 && short_ref(outs[0])
            ||| outs.len() == 2 && outputs_fit(outs[0], outs[1])
        },
        MInstOf::UnaryAlu { out, .. } => short_ref(out),
        MInstOf::Pick { out, .. } => short_ref(out),
        MInstOf::Const { ty, .. } => ty is Known,
        MInstOf::JumpOffset { size_pow2, .. } => size_pow2 <= 2,
        MInstOf::EchoLong { out, .. } => long_ref(out),
        MInstOf::EchoSplit { out1, out2, .. } => if out1 == out2 {
            long_ref(out1)
        } else {
            short_ref(out1) && short_ref(out2)
        },
        MInstOf::EchoChain { out1, out2, .. } => short_ref(out1) && short_ref(out2),
        MInstOf::Reorder { out, .. } => short_ref(out),
        MInstOf::Duplicate { out1, out2, .. } => short_ref(out1) && short_ref(out2),
        MInstOf::Load { ty, out, .. } => ty is Known && short_ref(out),
        MInstOf::StoreStack { idx, .. } => idx <= 31,
        MInstOf::LoadStack { ty, idx, .. } => ty is Known && idx <= 31,
        MInstOf::SAddr { scale_pow2, idx, .. } => scale_pow2 <= 3 && idx <= 31,
        MInstOf::StackAdjust { amount_pow2, .. } => amount_pow2 <= 15,
        MInstOf::Cast { ty, out, .. } => !(ty is Invalid) && short_ref(out),
        _ => true,
    }
}

/// The machine instructions of an instruction; `None` where it is a
/// pseudo-instruction that must have been eliminated or a field does not fit.
pub open spec fn emitted(inst: MInstView) -> Option<Seq<Instruction>> {
    match inst {
        MInstOf::Args { .. } | MInstOf::CallArgs { .. } | MInstOf::JumpTrigger { .. } => Some(
            Seq::empty(),
        ),
        MInstOf::Nop | MInstOf::Discard { .. } => Some(seq![Instruction::NoOp]),
        MInstOf::Ret { trig } => one_if(
            trigger_ref(trig),
            Instruction::Call(CallVariant::Ret, trig),
        ),
        MInstOf::Call { trig, .. } => one_if(
            trigger_ref(trig),
            Instruction::Call(CallVariant::Call, trig),
        ),
        MInstOf::Alu1 { var, out, .. } => one_if(short_ref(out), Instruction::Alu(var, out)),
        MInstOf::Alu2 { var, out_var, outs, .. } => if outs.len() == 2 {
            one_if(outputs_fit(outs[0], outs[1]), two_outputs(var, outs[0], outs[1]))
        } else {
            one_if(
                outs.len() == 1 && short_ref(outs[0]),
                Instruction::Alu2(var, out_var, outs[0]),
            )
        },
        MInstOf::Pick { out, .. } => one_if(short_ref(out), Instruction::Pick(out)),
        MInstOf::Trap => Some(seq![Instruction::Trap]),
        // A forward jump is taken on zero: past the trap.
        MInstOf::TrapNz { .. } => Some(seq![Instruction::Jump(1, 0), Instruction::Trap]),
        // A negation is "x == 0", the zero being implicit.
        MInstOf::UnaryAlu { out, .. } => one_if(
            short_ref(out),
            Instruction::Alu(AluVariant::Equal, out),
        ),
        MInstOf::Const { ty, imm, .. } => match ty {
            IsaType::Known(t) => if t.spec_size_pow2() <= 3 {
                Some(const_chain(t, const_bytes(t, imm)))
            } else {
                None
            },
            _ => None,
        },
        // An address is a chain of four bytes filled in by a relocation.
        MInstOf::LoadExtName { .. } => Some(empty_chain(Type::Uint(2), 4)),
        MInstOf::JumpOffset { size_pow2, .. } => if size_pow2 <= 2 {
            Some(
                empty_chain(Type::Int(size_pow2 as u8), size_of_pow2(size_pow2 as int)),
            )
        } else {
            None
        },
        MInstOf::EchoLong { out, .. } => one_if(long_ref(out), Instruction::EchoLong(out)),
        // A long echo keeps the order of operands with the same target.
        MInstOf::EchoSplit { out1, out2, .. } => if out1 == out2 {
            one_if(long_ref(out1), Instruction::EchoLong(out1))
        } else {
            one_if(short_ref(out1) && short_ref(out2), Instruction::Echo(false, out1, out2))
        },
        MInstOf::EchoChain { out1, out2, .. } => one_if(
            short_ref(out1) && short_ref(out2),
            Instruction::Echo(true, out1, out2),
        ),
        // A splitting echo with the same target twice reorders.
        MInstOf::Reorder { out, .. } => one_if(short_ref(out), Instruction::Echo(false, out, out)),
        MInstOf::Duplicate { out1, out2, .. } => one_if(
            short_ref(out1) && short_ref(out2),
            Instruction::Duplicate(false, out1, out2),
        ),
        MInstOf::Store { .. } => Some(seq![Instruction::Store]),
        MInstOf::Load { ty, out, .. } => match ty {
            IsaType::Known(t) => one_if(short_ref(out), Instruction::Load(t, out)),
            _ => None,
        },
        MInstOf::StoreStack { idx, .. } => one_if(idx <= 31, Instruction::StoreStack(idx)),
        MInstOf::LoadStack { ty, idx, .. } => match ty {
            IsaType::Known(t) => one_if(idx <= 31, Instruction::LoadStack(t, idx)),
            _ => None,
        },
        MInstOf::SAddr { scale_pow2, idx, .. } => one_if(
            scale_pow2 <= 3 && idx <= 31,
            Instruction::StackAddr(scale_pow2, idx),
        ),
        MInstOf::StackAdjust { reserve, private, amount_pow2 } => one_if(
            amount_pow2 <= 15,
            Instruction::StackRes(reserve, amount_pow2, private),
        ),
        MInstOf::Cast { ty, out, .. } => one_if(
            !(ty is Invalid) && short_ref(out),
            Instruction::Cast(cast_type(ty), out),
        ),
        MInstOf::JumpIssue { trig, .. } => one_if(trigger_ref(trig), Instruction::Jump(0, trig)),
        _ => None,
    }
}

/// The label that an instruction depends on, and how.
pub open spec fn label_use(inst: MInstView) -> Option<(MachLabel, LabelUse)> {
    match inst {
        // A far jump takes its offset from an operand.
        MInstOf::JumpIssue { dst, kind, .. } => if kind is Far {
            None
        } else {
            Some((dst, LabelUse::JmpLoc7))
        },
        MInstOf::JumpOffset { dst, size_pow2, gap, trig, .. } => Some(
            (dst, LabelUse::JmpFar { size_pow2, gap, trig }),
        ),
        _ => None,
    }
}

/// The symbol that an instruction depends on.
pub open spec fn symbol_use(inst: MInstView) -> Option<(ExternalName, i64)> {
    match inst {
        MInstOf::LoadExtName { name, offset, .. } => Some((name, offset)),
        _ => None,
    }
}

/// Code as a mathematical value.
#[verifier::ext_equal]
pub struct Code {
    pub insts: Seq<Instruction>,
    pub labels: Seq<LabelRef>,
    pub relocs: Seq<Reloc>,
}

impl View for CodeBuffer {
    type V = Code;

    open spec fn view(&self) -> Code {
        Code { insts: self.insts@, labels: self.labels@, relocs: self.relocs@ }
    }
}

/// The code with an instruction emitted behind it.
pub open spec fn code_with(code: Code, inst: MInstView) -> Option<Code> {
    match emitted(inst) {
        None => None,
        Some(new) => if code.insts.len() + new.len() > MAX_CODE {
            None
        } else {
            let addr = code.insts.len() as u32;
            Some(
                Code {
                    insts: code.insts + new,
                    labels: match label_use(inst) {
                        Some((label, kind)) => code.labels.push(LabelRef { addr, label, kind }),
                        None => code.labels,
                    },
                    relocs: match symbol_use(inst) {
                        Some((name, addend)) => code.relocs.push(
                            Reloc { kind: RelocKind::ScryAbs32, addr, name, addend },
                        ),
                        None => code.relocs,
                    },
                },
            )
        },
    }
}

fn one(inst: Instruction) -> (r: Vec<Instruction>)
    ensures
        r@ == seq![inst],
{
    let r: Vec<Instruction> = vec![inst];
    assert(r@ =~= seq![inst]);
    r
}

fn one_when(fits: bool, inst: Instruction) -> (r: Option<Vec<Instruction>>)
    ensures
        match r {
            Some(v) => one_if(fits, inst) == Some(v@),
            None => one_if(fits, inst) is None,
        },
{
    if fits {
        Some(one(inst))
    } else {
        None
    }
}

fn make_chain(ty: Type, bytes: &Vec<u8>) -> (r: Vec<Instruction>)
    ensures
        r@ == const_chain(ty, bytes@),
{
    let mut r: Vec<Instruction> = Vec::new();
    let n: usize = bytes.len();
    for i in 0..n
        invariant
            n == bytes@.len(),
            r@ == const_chain(ty, bytes@).take(i as int),
    {
        let byte: u8 = bytes[n - 1 - i];
        if i == 0 {
            r.push(Instruction::Constant(ty, byte));
        } else {
            r.push(Instruction::Grow(byte));
        }
        assert(r@ =~= const_chain(ty, bytes@).take(i as int + 1));
    }
    assert(r@ =~= const_chain(ty, bytes@));
    r
}

fn make_empty_chain(ty: Type, len: usize) -> (r: Vec<Instruction>)
    ensures
        r@ == empty_chain(ty, len as int),
{
    let mut bytes: Vec<u8> = Vec::new();
    let ghost zeros = Seq::new(len as nat, |i: int| 0u8);
    for i in 0..len
        invariant
            zeros == Seq::new(len as nat, |i: int| 0u8),
            bytes@ == zeros.take(i as int),
    {
        bytes.push(0);
        assert(bytes@ =~= zeros.take(i as int + 1));
    }
    assert(bytes@ =~= zeros);
    make_chain(ty, &bytes)
}

fn make_two_outputs(var: Alu2Variant, low: u16, high: u16) -> (r: Option<Vec<Instruction>>)
    ensures
        match r {
            Some(v) => one_if(outputs_fit(low, high), two_outputs(var, low, high)) == Some(v@),
            None => !outputs_fit(low, high),
        },
{
    let fits: bool = low <= 31 && high <= 31 && (low == high || low == 0 || high == 0);
    let inst = if low == high {
        Instruction::Alu2(var, Alu2OutputVariant::LowFirst, low)
    } else if low == 0 {
        Instruction::Alu2(var, Alu2OutputVariant::NextLow, high)
    } else {
        Instruction::Alu2(var, Alu2OutputVariant::NextHigh, low)
    };
    one_when(fits, inst)
}

/// The machine instructions of an instruction.
#[verifier::rlimit(60)]
fn machine_insts(inst: &MInst) -> (r: Option<Vec<Instruction>>)
    ensures
        match r {
            Some(v) => emitted(inst@) == Some(v@),
            None => emitted(inst@) is None,
        },
{
    match inst {
        MInst::Args { .. } | MInst::CallArgs { .. } | MInst::JumpTrigger { .. } => {
            let none: Vec<Instruction> = Vec::new();
            assert(none@ =~= Seq::<Instruction>::empty());
            Some(none)
        },
        MInst::Nop | MInst::Discard { .. } => Some(one(Instruction::NoOp)),
        MInst::Ret { trig } => one_when(*trig <= 63, Instruction::Call(CallVariant::Ret, *trig)),
        MInst::Call { trig, .. } => one_when(
            *trig <= 63,
            Instruction::Call(CallVariant::Call, *trig),
        ),
        MInst::Alu1 { var, out, .. } => one_when(*out <= 31, Instruction::Alu(*var, *out)),
        MInst::Alu2 { var, out_var, outs, .. } => {
            if outs.len() == 1 {
                one_when(outs[0] <= 31, Instruction::Alu2(*var, *out_var, outs[0]))
            } else if outs.len() == 2 {
                make_two_outputs(*var, outs[0], outs[1])
            } else {
                None
            }
        },
        MInst::Pick { out, .. } => one_when(*out <= 31, Instruction::Pick(*out)),
        MInst::Trap => Some(one(Instruction::Trap)),
        MInst::TrapNz { .. } => {
            let both: Vec<Instruction> = vec![Instruction::Jump(1, 0), Instruction::Trap];
            assert(both@ =~= seq![Instruction::Jump(1, 0), Instruction::Trap]);
            Some(both)
        },
        MInst::UnaryAlu { out, .. } => one_when(
            *out <= 31,
            Instruction::Alu(AluVariant::Equal, *out),
        ),
        MInst::Const { ty, imm, .. } => match ty {
            IsaType::Known(t) => {
                if t.size_pow2() <= 3 {
                    let bytes = MInst::const_emit_bytes(*t, *imm);
                    Some(make_chain(*t, &bytes))
                } else {
                    None
                }
            },
            _ => None,
        },
        MInst::LoadExtName { .. } => Some(make_empty_chain(Type::Uint(2), 4)),
        MInst::JumpOffset { size_pow2, .. } => {
            if *size_pow2 <= 2 {
                let len: i64 = LabelUse::far_chain_len(*size_pow2);
                Some(make_empty_chain(Type::Int(*size_pow2 as u8), len as usize))
            } else {
                None
            }
        },
        MInst::EchoLong { out, .. } => one_when(*out <= 1023, Instruction::EchoLong(*out)),
        MInst::EchoSplit { out1, out2, .. } => {
            if *out1 == *out2 {
                one_when(*out1 <= 1023, Instruction::EchoLong(*out1))
            } else {
                one_when(*out1 <= 31 && *out2 <= 31, Instruction::Echo(false, *out1, *out2))
            }
        },
        MInst::EchoChain { out1, out2, .. } => one_when(
            *out1 <= 31 && *out2 <= 31,
            Instruction::Echo(true, *out1, *out2),
        ),
        MInst::Reorder { out, .. } => one_when(*out <= 31, Instruction::Echo(false, *out, *out)),
        MInst::Duplicate { out1, out2, .. } => one_when(
            *out1 <= 31 && *out2 <= 31,
            Instruction::Duplicate(false, *out1, *out2),
        ),
        MInst::Store { .. } => Some(one(Instruction::Store)),
        MInst::Load { ty, out, .. } => match ty {
            IsaType::Known(t) => one_when(*out <= 31, Instruction::Load(*t, *out)),
            _ => None,
        },
        MInst::StoreStack { idx, .. } => one_when(*idx <= 31, Instruction::StoreStack(*idx)),
        MInst::LoadStack { ty, idx, .. } => match ty {
            IsaType::Known(t) => one_when(*idx <= 31, Instruction::LoadStack(*t, *idx)),
            _ => None,
        },
        MInst::SAddr { scale_pow2, idx, .. } => one_when(
            *scale_pow2 <= 3 && *idx <= 31,
            Instruction::StackAddr(*scale_pow2, *idx),
        ),
        MInst::StackAdjust { reserve, private, amount_pow2 } => one_when(
            *amount_pow2 <= 15,
            Instruction::StackRes(*reserve, *amount_pow2, *private),
        ),
        MInst::Cast { ty, out, .. } => match ty {
            IsaType::Known(t) => one_when(*out <= 31, Instruction::Cast(*t, *out)),
            IsaType::Integer(s) => one_when(*out <= 31, Instruction::Cast(Type::Uint(*s), *out)),
            IsaType::Invalid => None,
        },
        MInst::JumpIssue { trig, .. } => one_when(*trig <= 63, Instruction::Jump(0, *trig)),
        _ => None,
    }
}

impl MInst {
    /// Emits the instruction. Fails where it is a pseudo-instruction that must
    /// have been eliminated, where a field does not fit, and where the code
    /// becomes too large.
    pub fn emit(&self, sink: &mut CodeBuffer) -> (r: Result<(), CodegenError>)
        ensures
            match r {
                Ok(()) => {
                    &&& code_with(old(sink)@, self@) == Some(final(sink)@)
                    &&& final(sink)@.insts.len() == old(sink)@.insts.len()
                        + self@.spec_emitted_length()
                },
                Err(e) => code_with(old(sink)@, self@) is None && final(sink)@ == old(sink)@ && e
                    == (if emitted(self@) is None {
                    CodegenError::Malformed
                } else {
                    CodegenError::CodeTooLarge
                }),
            },
    {
        let mut insts = match machine_insts(self) {
            Some(insts) => insts,
            None => {
                return Err(CodegenError::Malformed);
            },
        };
        proof {
            emitted_has_emitted_length(self@);
        }
        let len: usize = sink.insts.len();
        if len > MAX_CODE as usize || insts.len() > MAX_CODE as usize - len {
            return Err(CodegenError::CodeTooLarge);
        }
        let addr: u32 = len as u32;
        match self {
            MInst::JumpIssue { dst, kind, .. } => {
                let far: bool = match kind {
                    IssueKind::Far { .. } => true,
                    _ => false,
                };
                if !far {
                    sink.labels.push(LabelRef { addr, label: *dst, kind: LabelUse::JmpLoc7 });
                }
            },
            MInst::JumpOffset { dst, size_pow2, gap, trig, .. } => {
                sink.labels.push(
                    LabelRef {
                        addr,
                        label: *dst,
                        kind: LabelUse::JmpFar { size_pow2: *size_pow2, gap: *gap, trig: *trig },
                    },
                );
            },
            MInst::LoadExtName { name, offset, .. } => {
                sink.relocs.push(
                    Reloc { kind: RelocKind::ScryAbs32, addr, name: *name, addend: *offset },
                );
            },
            _ => {},
        }
        sink.insts.append(&mut insts);
        Ok(())
    }
}

/// Exactly the instructions are emitted that are no pseudo-instructions and whose
/// fields fit, and each emits as many machine instructions as its emitted length
/// says. A list of return values is replaced by the epilogue, and an echo of a
/// whole list is expanded, before emission.
pub proof fn emitted_has_emitted_length(inst: MInstView)
    ensures
        emitted(inst) is Some <==> inst.emittable() && !(inst is Rets) && !(inst is Echo)
            && fields_fit(inst),
        emitted(inst) matches Some(new) ==> new.len() == inst.spec_emitted_length(),
{
    if let MInstOf::Const { ty: IsaType::Known(t), imm, .. } = inst {
        if t.spec_size_pow2() <= 3 {
            const_bytes_extend_to_constant(t, imm);
        }
    }
}

} // verus!
