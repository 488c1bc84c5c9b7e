//! Registers, blocks and labels, and the allocator of fresh virtual registers.
use vstd::prelude::*;

verus! {

/// The largest virtual register index that may be handed out, exclusive: the
/// largest that `regalloc2` has, which it reserves for an invalid register.
pub const VREG_LIMIT: u32 = 0x3fff_ffff;

/// A register: a virtual one before the values are placed, or a real one, which
/// only ever encodes the position of a parameter.
#[derive(Clone, Copy, PartialEq, Eq, Structural, Debug, Hash)]
pub enum Reg {
    /// A virtual register with its index.
    Virtual(u32),
    /// A real register with its hardware encoding.
    Real(u8),
}

impl Reg {
    /// The index of a virtual register.
    pub open spec fn spec_virtual_index(self) -> Option<u32> {
        match self {
            Reg::Virtual(i) => Some(i),
            Reg::Real(_) => None,
        }
    }

    /// The index of a virtual register, `None` for a real one.
    pub fn virtual_index(self) -> (r: Option<u32>)
        ensures
            r == self.spec_virtual_index(),
    {
        match self {
            Reg::Virtual(i) => Some(i),
            Reg::Real(_) => None,
        }
    }

    /// The hardware encoding of a real register, `None` for a virtual one.
    pub fn hw_enc(self) -> (r: Option<u8>)
        ensures
            r == (match self {
                Reg::Real(e) => Some(e),
                Reg::Virtual(_) => None,
            }),
    {
        match self {
            Reg::Real(e) => Some(e),
            Reg::Virtual(_) => None,
        }
    }
}

/// A register in the position of a destination.
#[derive(Clone, Copy, PartialEq, Eq, Structural, Debug, Hash)]
pub struct WritableReg {
    pub reg: Reg,
}

impl WritableReg {
    /// Marks a register as written.
    pub fn from_reg(reg: Reg) -> (r: WritableReg)
        ensures
            r.reg == reg,
    {
        WritableReg { reg }
    }

    /// The register that is written.
    pub fn to_reg(self) -> (r: Reg)
        ensures
            r == self.reg,
    {
        self.reg
    }
}

/// A basic block of the lowered code, by its index.
#[derive(Clone, Copy, PartialEq, Eq, Structural, Debug, Hash)]
pub struct Block {
    pub index: u32,
}

/// A label of the lowered code. Block `i` carries label `i`.
#[derive(Clone, Copy, PartialEq, Eq, Structural, Debug, Hash)]
pub struct MachLabel {
    pub index: u32,
}

/// A virtual register paired with the register or position it is bound to.
#[derive(Clone, Copy, PartialEq, Eq, Structural, Debug, Hash)]
pub struct ArgPair {
    pub vreg: Reg,
    pub preg: Reg,
}

/// What can go wrong while code is generated.
#[derive(Clone, Copy, PartialEq, Eq, Structural, Debug)]
pub enum CodegenError {
    /// The function needs more virtual registers than there are.
    CodeTooLarge,
    /// A value has a type that the machine has no registers for.
    UnsupportedType(crate::ir::Type),
    /// Two requirements on the type of one register contradict each other.
    TypeConflict,
    /// The code breaks a rule that a pass relies on.
    Malformed,
}

/// Hands out virtual registers that have not been used before, in order of
/// their indices.
#[derive(Debug)]
pub struct VRegAllocator {
    /// The index of the next register.
    pub next: u32,
}

impl VRegAllocator {
    /// The allocator's invariant.
    pub open spec fn wf(&self) -> bool {
        self.next <= VREG_LIMIT
    }

    /// A fresh register, or an error once all indices are spent.
    pub fn fresh(&mut self) -> (r: Result<Reg, CodegenError>)
        requires
            old(self).wf(),
        ensures
            final(self).wf(),
            match r {
                Ok(reg) => {
                    &&& old(self).next < VREG_LIMIT
                    &&& reg == Reg::Virtual(old(self).next)
                    &&& final(self).next == old(self).next + 1
                },
                Err(e) => {
                    &&& old(self).next == VREG_LIMIT
                    &&& final(self).next == old(self).next
                    &&& e == CodegenError::CodeTooLarge
                },
            },
    {
        if self.next < VREG_LIMIT {
            let reg = Reg::Virtual(self.next);
            self.next = self.next + 1;
            Ok(reg)
        } else {
            Err(CodegenError::CodeTooLarge)
        }
    }
}

/// Whether an error says that all registers are spent, and none is left.
pub open spec fn ran_out(e: CodegenError, left: u32) -> bool {
    e is CodeTooLarge && left == VREG_LIMIT
}

/// The register with index `n`.
pub open spec fn vreg(n: int) -> Reg {
    Reg::Virtual(n as u32)
}

/// A copy of a list of registers.
pub fn copy_regs(v: &Vec<Reg>) -> (r: Vec<Reg>)
    ensures
        r@ == v@,
{
    let r = v.clone();
    assert(r@ =~= v@);
    r
}

/// A copy of a list of register pairs.
pub fn copy_pairs(v: &Vec<ArgPair>) -> (r: Vec<ArgPair>)
    ensures
        r@ == v@,
{
    let r = v.clone();
    assert(r@ =~= v@);
    r
}

/// The virtual registers of a list of pairs.
pub open spec fn vregs_of(pairs: Seq<ArgPair>) -> Seq<Reg> {
    Seq::new(pairs.len(), |i: int| pairs[i].vreg)
}

/// The pairs with their virtual registers replaced one for one.
pub open spec fn with_vregs(pairs: Seq<ArgPair>, regs: Seq<Reg>) -> Seq<ArgPair> {
    Seq::new(pairs.len(), |i: int| ArgPair { vreg: regs[i], preg: pairs[i].preg })
}

/// The virtual registers of a list of pairs.
pub fn pair_vregs(pairs: &Vec<ArgPair>) -> (r: Vec<Reg>)
    ensures
        r@ == vregs_of(pairs@),
{
    let mut r: Vec<Reg> = Vec::new();
    for i in 0..pairs.len()
        invariant
            r@ == vregs_of(pairs@).take(i as int),
    {
        r.push(pairs[i].vreg);
        assert(r@ =~= vregs_of(pairs@).take(i as int + 1));
    }
    assert(r@ =~= vregs_of(pairs@));
    r
}

} // verus!
