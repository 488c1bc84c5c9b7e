//! What is known of the types of registers while they are inferred.
use crate::abi::{is_machine_int, spec_type_to_isatype, type_to_isatype};
use crate::ir;
use crate::isatype::IsaType;
use crate::reg::Reg;
use std::collections::HashMap;
use vstd::prelude::*;

verus! {

broadcast use vstd::std_specs::hash::group_hash_axioms;

/// How many registers there are to tell apart.
pub const REG_CODES: u64 = 0x1_0000_0100;

/// The number of a register.
pub open spec fn spec_reg_code(r: Reg) -> u64 {
    match r {
        Reg::Virtual(i) => i as u64,
        Reg::Real(e) => (0x1_0000_0000 + e) as u64,
    }
}

/// The number of a register.
pub fn reg_code(r: Reg) -> (c: u64)
    ensures
        c == spec_reg_code(r),
        c < REG_CODES,
{
    match r {
        Reg::Virtual(i) => i as u64,
        Reg::Real(e) => 0x1_0000_0000 + e as u64,
    }
}

/// Different registers have different numbers.
pub proof fn reg_code_injective(a: Reg, b: Reg)
    requires
        spec_reg_code(a) == spec_reg_code(b),
    ensures
        a == b,
{
}

/// Maps registers to their types.
///
/// A register without an assigned type has the default that the lowered code
/// gives it.
pub struct TypeMap {
    pub map: HashMap<u64, IsaType>,
    pub defaults: Vec<Option<ir::Type>>,
}

/// A type map as a mathematical value.
#[verifier::ext_equal]
pub struct TypesView {
    pub assigned: Map<u64, IsaType>,
    pub defaults: Seq<Option<ir::Type>>,
}

/// Whether all default types are ones that the machine has.
pub open spec fn defaults_wf(defaults: Seq<Option<ir::Type>>) -> bool {
    forall|i: int|
        0 <= i < defaults.len() ==> (#[trigger] defaults[i] matches Some(t) ==> is_machine_int(t))
}

/// The default type of a register.
pub open spec fn default_type(defaults: Seq<Option<ir::Type>>, r: Reg) -> IsaType {
    match r {
        Reg::Virtual(i) => if i < defaults.len() {
            match defaults[i as int] {
                Some(t) => spec_type_to_isatype(t),
                None => IsaType::Invalid,
            }
        } else {
            IsaType::Invalid
        },
        Reg::Real(_) => IsaType::Invalid,
    }
}

impl TypesView {
    /// The assigned type of the register, or its default.
    pub open spec fn get(self, r: Reg) -> IsaType {
        if self.assigned.contains_key(spec_reg_code(r)) {
            self.assigned[spec_reg_code(r)]
        } else {
            default_type(self.defaults, r)
        }
    }

    /// The types after a register is given one.
    pub open spec fn set(self, r: Reg, ty: IsaType) -> TypesView {
        if ty == self.get(r) {
            self
        } else {
            TypesView { assigned: self.assigned.insert(spec_reg_code(r), ty), ..self }
        }
    }
}

/// Giving a register a type changes that register's type alone.
pub proof fn set_changes_one(t: TypesView, r: Reg, ty: IsaType, q: Reg)
    ensures
        t.set(r, ty).get(r) == ty,
        q != r ==> t.set(r, ty).get(q) == t.get(q),
{
    if spec_reg_code(q) == spec_reg_code(r) {
        reg_code_injective(q, r);
    }
}

impl View for TypeMap {
    type V = TypesView;

    open spec fn view(&self) -> TypesView {
        TypesView { assigned: self.map@, defaults: self.defaults@ }
    }
}

impl TypeMap {
    /// The defaults are types of the machine.
    pub open spec fn wf(&self) -> bool {
        defaults_wf(self.defaults@)
    }

    /// A map without assigned types.
    pub fn new(defaults: Vec<Option<ir::Type>>) -> (r: TypeMap)
        requires
            defaults_wf(defaults@),
        ensures
            r.wf(),
            r@ == (TypesView { assigned: Map::empty(), defaults: defaults@ }),
    {
        TypeMap { map: HashMap::new(), defaults }
    }

    /// Returns the assigned type of the register or the default type if none was
    /// assigned.
    pub fn get(&self, reg: Reg) -> (r: IsaType)
        requires
            self.wf(),
        ensures
            r == self@.get(reg),
    {
        let code: u64 = reg_code(reg);
        match self.map.get(&code) {
            Some(t) => *t,
            None => match reg {
                Reg::Virtual(i) => {
                    if (i as usize) < self.defaults.len() {
                        match self.defaults[i as usize] {
                            Some(t) => type_to_isatype(t),
                            None => IsaType::Invalid,
                        }
                    } else {
                        IsaType::Invalid
                    }
                },
                Reg::Real(_) => IsaType::Invalid,
            },
        }
    }

    /// Updates the type assigned to the register.
    ///
    /// Returns whether the new value is different from the existing value or
    /// default if none.
    pub fn update(&mut self, reg: Reg, ty: IsaType) -> (r: bool)
        requires
            old(self).wf(),
        ensures
            final(self).wf(),
            final(self)@ == old(self)@.set(reg, ty),
            r == (ty != old(self)@.get(reg)),
    {
        let before = self.get(reg);
        if !(ty == before) {
            self.map.insert(reg_code(reg), ty);
            return true;
        }
        false
    }
}

/// How much is known of a type.
pub open spec fn rank(t: IsaType) -> nat {
    match t {
        IsaType::Invalid => 0,
        IsaType::Integer(_) => 1,
        IsaType::Known(_) => 2,
    }
}

/// The register with a number.
pub open spec fn reg_of_code(c: int) -> Reg {
    if c < 0x1_0000_0000 {
        Reg::Virtual(c as u32)
    } else {
        Reg::Real((c - 0x1_0000_0000) as u8)
    }
}

/// How much is left to be known of the registers with numbers below `n`.
pub open spec fn unknown_below(t: TypesView, n: int) -> nat
    decreases n,
{
    if n <= 0 {
        0
    } else {
        unknown_below(t, n - 1) + (2 - rank(t.get(reg_of_code(n - 1)))) as nat
    }
}

/// How much is left to be known.
#[verifier::opaque]
pub open spec fn unknown(t: TypesView) -> nat {
    unknown_below(t, REG_CODES as int)
}

/// Knowing more of one register leaves less to be known.
proof fn unknown_drops(t: TypesView, r: Reg, ty: IsaType, n: int)
    requires
        rank(ty) > rank(t.get(r)),
        n <= REG_CODES,
    ensures
        spec_reg_code(r) < n ==> unknown_below(t.set(r, ty), n) < unknown_below(t, n),
        spec_reg_code(r) >= n ==> unknown_below(t.set(r, ty), n) == unknown_below(t, n),
    decreases n,
{
    if n > 0 {
        unknown_drops(t, r, ty, n - 1);
        let q = reg_of_code(n - 1);
        assert(spec_reg_code(q) == n - 1);
        set_changes_one(t, r, ty, q);
        if q == r {
            assert(rank(ty) <= 2);
        } else if spec_reg_code(r) == n - 1 {
            reg_code_injective(q, r);
        }
    }
}

/// A refined type leaves less to be known unless nothing is new.
pub proof fn refine_progresses(t: TypesView, r: Reg, ty: IsaType)
    ensures
        t.get(r).spec_refine(ty) matches Some(x) ==> t.set(r, x) == t || unknown(t.set(r, x))
            < unknown(t),
{
    if let Some(x) = t.get(r).spec_refine(ty) {
        if x != t.get(r) {
            assert(rank(x) > rank(t.get(r)));
            unknown_drops(t, r, x, REG_CODES as int);
            reveal(unknown);
        }
    }
}

} // verus!
