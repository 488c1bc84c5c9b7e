//! The parts of the intermediate representation that the back end reads: value
//! types, signatures, conditions and names.
use vstd::prelude::*;

verus! {

/// The type of a value.
#[derive(Clone, Copy, PartialEq, Eq, Structural, Debug, Hash)]
pub enum Type {
    I8,
    I16,
    I32,
    I64,
    I128,
    F16,
    F32,
    F64,
    F128,
}

impl Type {
    /// The size of the type as a power of two of bytes.
    pub open spec fn spec_log2_bytes(self) -> int {
        match self {
            Type::I8 => 0,
            Type::I16 | Type::F16 => 1,
            Type::I32 | Type::F32 => 2,
            Type::I64 | Type::F64 => 3,
            Type::I128 | Type::F128 => 4,
        }
    }

    /// The size of the type in bytes.
    pub open spec fn spec_bytes(self) -> int {
        match self {
            Type::I8 => 1,
            Type::I16 | Type::F16 => 2,
            Type::I32 | Type::F32 => 4,
            Type::I64 | Type::F64 => 8,
            Type::I128 | Type::F128 => 16,
        }
    }

    /// The size of the type in bytes.
    pub fn bytes(self) -> (r: u32)
        ensures
            r == self.spec_bytes(),
    {
        match self {
            Type::I8 => 1,
            Type::I16 | Type::F16 => 2,
            Type::I32 | Type::F32 => 4,
            Type::I64 | Type::F64 => 8,
            Type::I128 | Type::F128 => 16,
        }
    }

    /// The size of the type as a power of two of bytes.
    pub fn log2_bytes(self) -> (r: u16)
        ensures
            r == self.spec_log2_bytes(),
    {
        match self {
            Type::I8 => 0,
            Type::I16 | Type::F16 => 1,
            Type::I32 | Type::F32 => 2,
            Type::I64 | Type::F64 => 3,
            Type::I128 | Type::F128 => 4,
        }
    }
}

/// How an argument smaller than a register is to be extended.
#[derive(Clone, Copy, PartialEq, Eq, Structural, Debug, Hash)]
pub enum ArgumentExtension {
    /// Not at all.
    NoExt,
    /// With zeros.
    Uext,
    /// With copies of the sign.
    Sext,
}

/// What an argument is for.
#[derive(Clone, Copy, PartialEq, Eq, Structural, Debug, Hash)]
pub enum ArgumentPurpose {
    Normal,
    StructArgument,
    StructReturn,
    VMContext,
}

/// A parameter or a return value of a signature.
#[derive(Clone, Copy, PartialEq, Eq, Structural, Debug, Hash)]
pub struct AbiParam {
    pub value_type: Type,
    pub purpose: ArgumentPurpose,
    pub extension: ArgumentExtension,
}

/// The signature of a function.
#[derive(Debug)]
pub struct Signature {
    pub params: Vec<AbiParam>,
    pub rets: Vec<AbiParam>,
}

/// A signature as a mathematical value.
#[verifier::ext_equal]
pub struct SignatureView {
    pub params: Seq<AbiParam>,
    pub rets: Seq<AbiParam>,
}

impl View for Signature {
    type V = SignatureView;

    open spec fn view(&self) -> SignatureView {
        SignatureView { params: self.params@, rets: self.rets@ }
    }
}

impl Signature {
    /// A copy of the signature.
    pub fn copy(&self) -> (r: Signature)
        ensures
            r@ == self@,
    {
        let params = self.params.clone();
        let rets = self.rets.clone();
        assert(params@ =~= self.params@);
        assert(rets@ =~= self.rets@);
        Signature { params, rets }
    }
}

/// The condition of an integer comparison.
#[derive(Clone, Copy, PartialEq, Eq, Structural, Debug, Hash)]
pub enum IntCC {
    Equal,
    NotEqual,
    SignedLessThan,
    SignedGreaterThanOrEqual,
    SignedGreaterThan,
    SignedLessThanOrEqual,
    UnsignedLessThan,
    UnsignedGreaterThanOrEqual,
    UnsignedGreaterThan,
    UnsignedLessThanOrEqual,
}

/// The name of a function or a datum defined elsewhere.
#[derive(Clone, Copy, PartialEq, Eq, Structural, Debug, Hash)]
pub struct ExternalName {
    pub namespace: u32,
    pub index: u32,
}

} // verus!
