//! What the code generator asks of instructions.
use crate::inst::{MInst, MInstOf, MInstView};
use crate::ir::Type;
use crate::reg::{CodegenError, MachLabel, Reg};
use vstd::prelude::*;

verus! {

/// How an instruction ends a block.
#[derive(Clone, Copy, PartialEq, Eq, Structural, Debug)]
pub enum MachTerminator {
    /// Not at all.
    NoTerm,
    /// By returning.
    Ret,
}

/// The alignment of functions.
#[derive(Clone, Copy, PartialEq, Eq, Structural, Debug)]
pub struct FunctionAlignment {
    pub minimum: u32,
    pub preferred: u32,
}

/// The classes of registers.
#[derive(Clone, Copy, PartialEq, Eq, Structural, Debug)]
pub enum RegClass {
    Int,
}

/// The destination and the source of an instruction that moves one operand.
pub open spec fn spec_is_move(inst: MInstView) -> Option<(Reg, Reg)> {
    match inst {
        MInstOf::EchoLong { rds, rss, .. } => if rds.len() == 1 && rss.len() == 1 {
            Some((rds[0], rss[0]))
        } else {
            None
        },
        MInstOf::Echo { rds, rss } => if rds.len() == 1 && rss.len() == 1 {
            Some((rds[0], rss[0]))
        } else {
            None
        },
        _ => None,
    }
}

impl MInst {
    /// The destination and the source of an instruction that moves one operand.
    pub fn is_move(&self) -> (r: Option<(Reg, Reg)>)
        ensures
            r == spec_is_move(self@),
    {
        match self {
            MInst::EchoLong { rds, rss, .. } => {
                if rds.len() == 1 && rss.len() == 1 {
                    Some((rds[0], rss[0]))
                } else {
                    None
                }
            },
            MInst::Echo { rds, rss } => {
                if rds.len() == 1 && rss.len() == 1 {
                    Some((rds[0], rss[0]))
                } else {
                    None
                }
            },
            _ => None,
        }
    }

    /// Whether the instruction is a safepoint: none is.
    pub fn is_safepoint(&self) -> (r: bool)
        ensures
            r == false,
    {
        false
    }

    /// Whether the instruction clobbers registers: none does.
    pub fn is_included_in_clobbers(&self) -> (r: bool)
        ensures
            r == false,
    {
        false
    }

    /// Whether the instruction is a plain jump.
    pub fn is_jmp(&self) -> (r: bool)
        ensures
            r == (self@ is ImmJump),
    {
        match self {
            MInst::ImmJump { .. } => true,
            _ => false,
        }
    }

    /// Whether the instruction can halt.
    pub fn is_trap(&self) -> (r: bool)
        ensures
            r == (self@ is Trap || self@ is TrapNz),
    {
        match self {
            MInst::Trap | MInst::TrapNz { .. } => true,
            _ => false,
        }
    }

    /// Whether the instruction defines the block's parameters.
    pub fn is_args(&self) -> (r: bool)
        ensures
            r == (self@ is Args),
    {
        match self {
            MInst::Args { .. } => true,
            _ => false,
        }
    }

    /// How the instruction ends a block.
    pub fn is_term(&self) -> (r: MachTerminator)
        ensures
            r == (if self@ is Rets {
                MachTerminator::Ret
            } else {
                MachTerminator::NoTerm
            }),
    {
        match self {
            MInst::Rets { .. } => MachTerminator::Ret,
            _ => MachTerminator::NoTerm,
        }
    }

    /// The instruction that jumps to a label.
    pub fn gen_jump(dst: MachLabel) -> (r: MInst)
        ensures
            r@ == (MInstView::ImmJump { dst }),
    {
        MInst::ImmJump { dst }
    }

    /// The class and the type of the register for a value of a type. The machine
    /// has registers for integers of up to 64 bits.
    pub fn rc_for_type(ty: Type) -> (r: Result<(RegClass, Type), CodegenError>)
        ensures
            r == (if crate::abi::is_machine_int(ty) {
                Ok((RegClass::Int, ty))
            } else {
                Err(CodegenError::UnsupportedType(ty))
            }),
    {
        match ty {
            Type::I8 | Type::I16 | Type::I32 | Type::I64 => Ok((RegClass::Int, ty)),
            _ => Err(CodegenError::UnsupportedType(ty)),
        }
    }

    /// The size of the largest machine instruction, in bytes.
    pub fn worst_case_size() -> (r: u32)
        ensures
            r == 2,
    {
        2
    }

    /// By how much an island may grow, in bytes.
    pub fn worst_case_island_growth() -> (r: u32)
        ensures
            r == 128,
    {
        128
    }

    /// The alignment of functions: that of an instruction.
    pub fn function_alignment() -> (r: FunctionAlignment)
        ensures
            r.minimum == 2,
            r.preferred == 2,
    {
        FunctionAlignment { minimum: 2, preferred: 2 }
    }
}

} // verus!
