//! The machine's data types and instructions.
use vstd::prelude::*;

verus! {

/// The type the machine tags an operand with: its signedness and its size as a
/// power of two of bytes.
#[derive(Clone, Copy, PartialEq, Eq, Structural, Debug, Hash)]
pub enum Type {
    Uint(u8),
    Int(u8),
}

impl Type {
    /// The size as a power of two of bytes.
    pub open spec fn spec_size_pow2(self) -> u8 {
        match self {
            Type::Uint(s) => s,
            Type::Int(s) => s,
        }
    }

    /// The size as a power of two of bytes.
    pub fn size_pow2(self) -> (r: u8)
        ensures
            r == self.spec_size_pow2(),
    {
        match self {
            Type::Uint(s) => s,
            Type::Int(s) => s,
        }
    }

    /// Whether the type is a signed integer.
    pub fn is_signed_int(self) -> (r: bool)
        ensures
            r == (self is Int),
    {
        match self {
            Type::Uint(_) => false,
            Type::Int(_) => true,
        }
    }

    /// Whether the type is an unsigned integer.
    pub fn is_unsigned_int(self) -> (r: bool)
        ensures
            r == (self is Uint),
    {
        match self {
            Type::Uint(_) => true,
            Type::Int(_) => false,
        }
    }
}

/// The operations with a single output.
#[derive(Clone, Copy, PartialEq, Eq, Structural, Debug, Hash)]
pub enum AluVariant {
    BitAnd,
    BitOr,
    BitXor,
    Equal,
    LessThan,
    GreaterThan,
}

/// The operations with two outputs, a low and a high one.
#[derive(Clone, Copy, PartialEq, Eq, Structural, Debug, Hash)]
pub enum Alu2Variant {
    Add,
    Sub,
    Multiply,
    Division,
    Shift,
}

/// Which outputs of a two-output operation are kept, and in which order.
#[derive(Clone, Copy, PartialEq, Eq, Structural, Debug, Hash)]
pub enum Alu2OutputVariant {
    /// The low output alone.
    LowOnly,
    /// The high output alone.
    HighOnly,
    /// Both to the reference, the low output first.
    LowFirst,
    /// The low output to the next instruction, the high one to the reference.
    NextLow,
    /// The high output to the next instruction, the low one to the reference.
    NextHigh,
}

/// Whether a call instruction calls or returns.
#[derive(Clone, Copy, PartialEq, Eq, Structural, Debug, Hash)]
pub enum CallVariant {
    Call,
    Ret,
}

/// A machine instruction.
#[derive(Clone, Copy, PartialEq, Eq, Structural, Debug, Hash)]
pub enum Instruction {
    NoOp,
    Call(CallVariant, u16),
    Alu(AluVariant, u16),
    Alu2(Alu2Variant, Alu2OutputVariant, u16),
    /// The target offset and the trigger offset.
    Jump(i32, u16),
    /// The type and the immediate byte.
    Constant(Type, u8),
    Grow(u8),
    EchoLong(u16),
    /// Whether further operands are chained on, and the two output references.
    Echo(bool, u16, u16),
    Duplicate(bool, u16, u16),
    Store,
    Load(Type, u16),
    StoreStack(u16),
    LoadStack(Type, u16),
    /// The scale and the index.
    StackAddr(u16, u16),
    /// Whether memory is reserved, the amount as a power of two, and whether
    /// the private frame is meant.
    StackRes(bool, u16, bool),
    Cast(Type, u16),
    /// One of two operands, as a condition says.
    Pick(u16),
    /// Halts.
    Trap,
}

} // verus!
