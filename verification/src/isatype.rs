//! The types of registers as far as they are known during type resolution.
use crate::isa;
use vstd::prelude::*;

verus! {

/// What is known of the machine type of a value.
#[derive(Clone, Copy, PartialEq, Eq, Structural, Debug, Hash)]
pub enum IsaType {
    /// Nothing is known, or type resolution went wrong.
    Invalid,
    /// A signed or unsigned integer of the given size, a power of two of bytes.
    Integer(u8),
    /// A specific known type.
    Known(isa::Type),
}

/// The machine integer of the given size and signedness.
pub open spec fn known_int(size_pow2: u8, signed: bool) -> IsaType {
    if signed {
        IsaType::Known(isa::Type::Int(size_pow2))
    } else {
        IsaType::Known(isa::Type::Uint(size_pow2))
    }
}

impl IsaType {
    /// The size as a power of two of bytes, where the type has one.
    pub open spec fn spec_size_pow2(self) -> u8 {
        match self {
            IsaType::Integer(s) => s,
            IsaType::Known(t) => t.spec_size_pow2(),
            IsaType::Invalid => 0,
        }
    }

    /// Whether the type is an integer: signed, unsigned or undetermined.
    pub open spec fn spec_is_int(self) -> bool {
        !(self is Invalid)
    }

    /// Whether the type is known to be a signed integer.
    pub open spec fn spec_is_signed_int(self) -> bool {
        self is Known && self->Known_0 is Int
    }

    /// Whether the type is known to be an unsigned integer.
    pub open spec fn spec_is_unsigned_int(self) -> bool {
        self is Known && self->Known_0 is Uint
    }

    /// What is known of a value that both types are known of, or `None` where
    /// they contradict each other: their sizes differ, or one is signed and the
    /// other unsigned.
    pub open spec fn spec_refine(self, t: IsaType) -> Option<IsaType> {
        if t is Invalid {
            Some(self)
        } else if self is Invalid {
            Some(t)
        } else if self.spec_size_pow2() != t.spec_size_pow2() {
            None
        } else if self is Integer {
            Some(t)
        } else if t is Integer || self == t {
            Some(self)
        } else {
            None
        }
    }

    /// Power of 2 size of the type in bytes.
    pub fn size_pow2(&self) -> (r: u8)
        requires
            !(self is Invalid),
        ensures
            r == self.spec_size_pow2(),
    {
        match self {
            IsaType::Integer(s) => *s,
            IsaType::Known(t) => t.size_pow2(),
            IsaType::Invalid => 0,
        }
    }

    /// Whether the type is an integer (signed, unsigned, or undetermined).
    pub fn is_int(&self) -> (r: bool)
        ensures
            r == self.spec_is_int(),
    {
        match self {
            IsaType::Integer(_) => true,
            IsaType::Known(t) => t.is_signed_int() || t.is_unsigned_int(),
            IsaType::Invalid => false,
        }
    }

    /// Whether the type is a specific one.
    pub fn is_known(&self) -> (r: bool)
        ensures
            r == (self is Known),
    {
        matches!(self, IsaType::Known(_))
    }

    /// Whether the type is known to be a signed integer.
    pub fn is_signed_int(&self) -> (r: bool)
        ensures
            r == self.spec_is_signed_int(),
    {
        match self {
            IsaType::Known(t) => t.is_signed_int(),
            _ => false,
        }
    }

    /// Whether the type is known to be an unsigned integer.
    pub fn is_unsigned_int(&self) -> (r: bool)
        ensures
            r == self.spec_is_unsigned_int(),
    {
        match self {
            IsaType::Known(t) => t.is_unsigned_int(),
            _ => false,
        }
    }

    /// Whether both types are known and have the same signedness.
    pub fn is_same_signedness(&self, other: &IsaType) -> (r: bool)
        ensures
            r == (self is Known && other is Known && (self.spec_is_signed_int()
                == other.spec_is_signed_int())),
    {
        match (self, other) {
            (IsaType::Known(a), IsaType::Known(b)) => {
                (a.is_unsigned_int() && b.is_unsigned_int()) || (a.is_signed_int()
                    && b.is_signed_int())
            },
            _ => false,
        }
    }

    /// Combines what two types say of one value.
    pub fn refine(self, t: IsaType) -> (r: Option<IsaType>)
        ensures
            r == self.spec_refine(t),
    {
        match (self, t) {
            (_, IsaType::Invalid) => Some(self),
            (IsaType::Invalid, _) => Some(t),
            _ => {
                if self.size_pow2() == t.size_pow2() {
                    match (self, t) {
                        (IsaType::Integer(_), _) => Some(t),
                        (_, IsaType::Integer(_)) => Some(self),
                        (
                            IsaType::Known(isa::Type::Int(_)),
                            IsaType::Known(isa::Type::Int(_)),
                        ) => Some(self),
                        (
                            IsaType::Known(isa::Type::Uint(_)),
                            IsaType::Known(isa::Type::Uint(_)),
                        ) => Some(self),
                        _ => None,
                    }
                } else {
                    None
                }
            },
        }
    }

    /// The machine integer of the given size and signedness.
    pub fn new_known_int(size_pow2: u8, signed: bool) -> (r: IsaType)
        ensures
            r == known_int(size_pow2, signed),
    {
        if signed {
            IsaType::Known(isa::Type::Int(size_pow2))
        } else {
            IsaType::Known(isa::Type::Uint(size_pow2))
        }
    }

    /// The specific type, where one is known.
    pub fn get_known(&self) -> (r: Option<isa::Type>)
        ensures
            r == (match *self {
                IsaType::Known(t) => Some(t),
                _ => None,
            }),
    {
        match self {
            IsaType::Known(t) => Some(*t),
            _ => None,
        }
    }
}

/// Refinement does not depend on the order of the two types.
pub proof fn refine_is_commutative(a: IsaType, b: IsaType)
    ensures
        a.spec_refine(b) == b.spec_refine(a),
{
}

/// Refinement does not depend on how three types are grouped, and a
/// contradiction among them is found either way.
pub proof fn refine_is_associative(a: IsaType, b: IsaType, c: IsaType)
    ensures
        (match a.spec_refine(b) {
            Some(ab) => ab.spec_refine(c),
            None => None,
        }) == (match b.spec_refine(c) {
            Some(bc) => a.spec_refine(bc),
            None => None,
        }),
{
}

/// A refined type keeps what both types said: refining it again by either
/// changes nothing.
pub proof fn refine_is_idempotent(a: IsaType, b: IsaType)
    ensures
        a.spec_refine(a) == Some(a),
        a.spec_refine(b) matches Some(c) ==> c.spec_refine(a) == Some(c) && c.spec_refine(b)
            == Some(c),
{
}

} // verus!
