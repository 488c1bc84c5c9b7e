//! How long instructions are: the bytes of a constant, the machine instructions
//! emitted, and the distance that operands in flight travel.
use crate::chain::min_of;
use crate::inst::{BinaryAluOp, DoubleAluOp, MInst, MInstOf, MInstView};
use crate::isa;
use crate::isa::{Alu2Variant, AluVariant};
use crate::isatype::IsaType;
use vstd::prelude::*;

verus! {

/// The byte of a 64-bit value at a position, the least significant first.
pub open spec fn byte_at(imm: i64, k: int) -> u8 {
    ((imm as u64) >> ((8 * k) as u64)) as u8
}

/// The number of bytes of a machine type of at most 8 bytes.
pub open spec fn size_of_pow2(size_pow2: int) -> int {
    if size_pow2 <= 0 {
        1
    } else if size_pow2 == 1 {
        2
    } else if size_pow2 == 2 {
        4
    } else {
        8
    }
}

/// The low bytes of a value, the least significant first.
pub open spec fn low_bytes(imm: i64, size: int) -> Seq<u8> {
    Seq::new(size as nat, |k: int| byte_at(imm, k))
}

/// The byte by which a value is extended above its most significant byte `b`.
pub open spec fn extension_byte(signed: bool, b: u8) -> u8 {
    if signed && b >= 0x80 {
        0xff
    } else {
        0x00
    }
}

/// Whether all bytes above the first `m` are the extension of the `m`-th.
pub open spec fn extends_from(bytes: Seq<u8>, signed: bool, m: int) -> bool {
    forall|k: int| m <= k < bytes.len() ==> #[trigger] bytes[k] == extension_byte(signed, bytes[m - 1])
}

/// Whether `m` is the least number of leading bytes, at least one, of which all
/// others are the extension.
pub open spec fn least_explicit(bytes: Seq<u8>, signed: bool, m: int) -> bool {
    &&& 1 <= m <= bytes.len()
    &&& extends_from(bytes, signed, m)
    &&& forall|j: int| 1 <= j < m ==> !extends_from(bytes, signed, j)
}

/// The least number of leading bytes of which all others are the extension.
pub open spec fn least_len(bytes: Seq<u8>, signed: bool) -> int {
    choose|m: int| least_explicit(bytes, signed, m)
}

/// How many bytes of a constant must be emitted explicitly.
pub open spec fn const_len(ty: isa::Type, imm: i64) -> int {
    least_len(low_bytes(imm, size_of_pow2(ty.spec_size_pow2() as int)), ty is Int)
}

/// The bytes of a constant that must be emitted explicitly.
pub open spec fn const_bytes(ty: isa::Type, imm: i64) -> Seq<u8> {
    low_bytes(imm, size_of_pow2(ty.spec_size_pow2() as int)).take(const_len(ty, imm))
}

/// There is exactly one least number of explicit bytes.
proof fn least_explicit_unique(bytes: Seq<u8>, signed: bool, m: int, n: int)
    requires
        least_explicit(bytes, signed, m),
        least_explicit(bytes, signed, n),
    ensures
        m == n,
{
    if m < n {
        assert(!extends_from(bytes, signed, m));
    } else if n < m {
        assert(!extends_from(bytes, signed, n));
    }
}

/// There is a least number of explicit bytes of a non-empty value.
proof fn least_explicit_exists(bytes: Seq<u8>, signed: bool, m: int)
    requires
        1 <= m <= bytes.len(),
        forall|j: int| 1 <= j < m ==> !extends_from(bytes, signed, j),
    ensures
        exists|n: int| least_explicit(bytes, signed, n),
    decreases bytes.len() - m,
{
    if extends_from(bytes, signed, m) {
        assert(least_explicit(bytes, signed, m));
    } else {
        assert(m < bytes.len());
        least_explicit_exists(bytes, signed, m + 1);
    }
}

/// The bytes that are emitted determine the constant: extending them, by the
/// sign for a signed type and by zeros otherwise, gives back all its bytes. No
/// shorter emission does.
pub proof fn const_bytes_extend_to_constant(ty: isa::Type, imm: i64)
    requires
        ty.spec_size_pow2() <= 3,
    ensures
        ({
            let size = size_of_pow2(ty.spec_size_pow2() as int);
            let b = const_bytes(ty, imm);
            let signed = ty is Int;
            &&& 1 <= b.len() <= size
            &&& b.len() == const_len(ty, imm)
            &&& low_bytes(imm, size) == Seq::new(
                size as nat,
                |k: int|
                    if k < b.len() {
                        b[k]
                    } else {
                        extension_byte(ty is Int, b.last())
                    },
            )
            &&& forall|m: int|
                1 <= m < b.len() ==> !#[trigger] extends_from(low_bytes(imm, size), signed, m)
        }),
{
    let size = size_of_pow2(ty.spec_size_pow2() as int);
    let bytes = low_bytes(imm, size);
    least_explicit_exists(bytes, ty is Int, 1);
    let b = const_bytes(ty, imm);
    assert(least_explicit(bytes, ty is Int, const_len(ty, imm)));
    assert(b.last() == bytes[b.len() - 1]);
    assert(bytes =~= Seq::new(
        size as nat,
        |k: int|
            if k < b.len() {
                b[k]
            } else {
                extension_byte(ty is Int, b.last())
            },
    ));
}

/// Whether all bytes from `m` on are the extension of the one before.
fn check_extends(bytes: &Vec<u8>, signed: bool, m: usize) -> (r: bool)
    requires
        1 <= m <= bytes@.len(),
    ensures
        r == extends_from(bytes@, signed, m as int),
{
    let ext: u8 = if signed && bytes[m - 1] >= 0x80 {
        0xff
    } else {
        0x00
    };
    for k in m..bytes.len()
        invariant
            1 <= m <= bytes@.len(),
            ext == extension_byte(signed, bytes@[m - 1]),
            forall|j: int| m <= j < k ==> bytes@[j] == ext,
    {
        if bytes[k] != ext {
            return false;
        }
    }
    true
}

impl MInst {
    /// The bytes of a constant that must be explicitly emitted, in little-endian
    /// order: the last one is the `const` instruction's immediate, the ones before
    /// it are the immediates of successive `grow` instructions (most significant
    /// first). The bytes not returned are produced by the `const` instruction's
    /// sign/zero extension of its immediate.
    pub fn const_emit_bytes(ty: isa::Type, imm: i64) -> (r: Vec<u8>)
        requires
            ty.spec_size_pow2() <= 3,
        ensures
            r@ == const_bytes(ty, imm),
            1 <= r@.len() <= 8,
    {
        let size_pow2: u8 = ty.size_pow2();
        let size: usize = if size_pow2 == 0 {
            1
        } else if size_pow2 == 1 {
            2
        } else if size_pow2 == 2 {
            4
        } else {
            8
        };
        let word: u64 = imm as u64;
        let mut bytes: Vec<u8> = Vec::new();
        for k in 0..size
            invariant
                size <= 8,
                word == imm as u64,
                bytes@ == low_bytes(imm, size as int).take(k as int),
        {
            let shift: u64 = 8 * (k as u64);
            let b: u8 = (word >> shift) as u8;
            bytes.push(b);
            assert(bytes@ =~= low_bytes(imm, size as int).take(k as int + 1));
        }
        assert(bytes@ =~= low_bytes(imm, size as int));
        let signed: bool = ty.is_signed_int();
        let mut m: usize = 1;
        while m < size && !check_extends(&bytes, signed, m)
            invariant
                1 <= m <= size <= 8,
                bytes@.len() == size,
                forall|j: int| 1 <= j < m ==> !extends_from(bytes@, signed, j),
            ensures
                1 <= m <= size,
                least_explicit(bytes@, signed, m as int),
            decreases size - m,
        {
            m = m + 1;
        }
        proof {
            least_explicit_unique(bytes@, signed, m as int, const_len(ty, imm));
        }
        bytes.truncate(m);
        assert(bytes@ =~= const_bytes(ty, imm));
        bytes
    }
}

impl MInstView {
    /// Whether the instruction can be emitted: it is no pseudo-instruction that
    /// must have been eliminated, and its sizes are ones the machine has.
    pub open spec fn emittable(self) -> bool {
        match self {
            MInstOf::ImmJump { .. }
            | MInstOf::IntCmp { .. }
            | MInstOf::BinaryAlu { .. }
            | MInstOf::DoubleAlu { .. }
            | MInstOf::Resize { .. }
            | MInstOf::StoreStackArg { .. } => false,
            MInstOf::Const { ty, .. } => ty is Known ==> ty.spec_size_pow2() <= 3,
            MInstOf::JumpOffset { size_pow2, .. } => size_pow2 <= 3,
            _ => true,
        }
    }

    /// How many machine instructions the instruction emits.
    pub open spec fn spec_emitted_length(self) -> int {
        match self {
            MInstOf::Args { .. }
            | MInstOf::CallArgs { .. }
            | MInstOf::JumpTrigger { .. }
            // Replaced by the (empty) epilogue.
            | MInstOf::Rets { .. } => 0,
            // A `const` + `grow` chain; one not yet resolved counts as one.
            MInstOf::Const { ty, imm, .. } => match ty {
                IsaType::Known(t) => const_len(t, imm),
                _ => 1,
            },
            // A `const` + 3*`grow` chain patched by a relocation.
            MInstOf::LoadExtName { .. } => 4,
            // A `const` + `grow` chain of one instruction per byte of the offset.
            MInstOf::JumpOffset { size_pow2, .. } => size_of_pow2(size_pow2 as int),
            // The length of the receiving chain.
            MInstOf::Echo { rds, rss } => (min_of(rds.len() as int, rss.len() as int) + 1) / 2,
            // A jump over a trap plus the trap.
            MInstOf::TrapNz { .. } => 2,
            _ => 1,
        }
    }

    /// Whether operands in flight may cross the instruction.
    pub open spec fn crossable(self) -> bool {
        match self {
            MInstOf::DoubleAlu { .. }
            | MInstOf::ImmJump { .. }
            | MInstOf::StoreStackArg { .. } => false,
            MInstOf::Const { .. } | MInstOf::JumpOffset { .. } => self.emittable(),
            _ => true,
        }
    }

    /// How much reference distances increase for operands in flight that cross
    /// the instruction.
    pub open spec fn spec_reference_length(self) -> int {
        match self {
            MInstOf::Args { .. } => 0,
            MInstOf::Const { .. }
            | MInstOf::LoadExtName { .. }
            | MInstOf::JumpOffset { .. }
            | MInstOf::Echo { .. } => self.spec_emitted_length(),
            _ => 1,
        }
    }

    /// Whether the order of the instruction's uses makes a difference.
    pub open spec fn spec_use_order_meaningful(self) -> bool {
        match self {
            MInstOf::BinaryAlu { op, .. } => op is IntSubWrap,
            MInstOf::DoubleAlu { op, .. } => !(op is SaddOverflow || op is UaddOverflow
                || op is UmulHi || op is SmulHi),
            MInstOf::Alu2 { var, .. } => !(var is Add || var is Multiply),
            MInstOf::Alu1 { var, .. } => !(var is BitAnd || var is BitOr || var is BitXor),
            _ => true,
        }
    }
}

impl MInst {
    /// Returns how many machine instructions this instruction emits.
    pub fn emitted_length(&self) -> (r: usize)
        requires
            self@.emittable(),
        ensures
            r == self@.spec_emitted_length(),
    {
        match self {
            MInst::Args { .. }
            | MInst::CallArgs { .. }
            | MInst::JumpTrigger { .. }
            | MInst::Rets { .. } => 0,
            MInst::Const { ty, imm, .. } => match ty {
                IsaType::Known(t) => {
                    let bytes = Self::const_emit_bytes(*t, *imm);
                    proof {
                        const_bytes_extend_to_constant(*t, *imm);
                        least_explicit_exists(
                            low_bytes(*imm, size_of_pow2(t.spec_size_pow2() as int)),
                            *t is Int,
                            1,
                        );
                    }
                    bytes.len()
                },
                _ => 1,
            },
            MInst::LoadExtName { .. } => 4,
            MInst::JumpOffset { size_pow2, .. } => {
                if *size_pow2 == 0 {
                    1
                } else if *size_pow2 == 1 {
                    2
                } else if *size_pow2 == 2 {
                    4
                } else {
                    8
                }
            },
            MInst::Echo { rds, rss } => {
                let n: usize = if rds.len() <= rss.len() {
                    rds.len()
                } else {
                    rss.len()
                };
                n / 2 + n % 2
            },
            MInst::TrapNz { .. } => 2,
            _ => 1,
        }
    }

    /// Returns how much reference distances increase for in-flight operands
    /// crossing this instruction. Flight times count executed instructions: of a
    /// `TrapNz`, only the jump counts for the values that get past it.
    pub fn reference_length(&self) -> (r: usize)
        requires
            self@.crossable(),
        ensures
            r == self@.spec_reference_length(),
    {
        match self {
            MInst::Args { .. } => 0,
            MInst::Const { .. }
            | MInst::LoadExtName { .. }
            | MInst::JumpOffset { .. }
            | MInst::Echo { .. } => self.emitted_length(),
            _ => 1,
        }
    }

    /// Whether the order of this instruction's uses makes a difference, which it
    /// does unless the operation is commutative.
    pub fn use_order_meaningful(&self) -> (r: bool)
        ensures
            r == self@.spec_use_order_meaningful(),
    {
        match self {
            MInst::BinaryAlu { op, .. } => !matches!(
                op,
                BinaryAluOp::IntAddWrap
                    | BinaryAluOp::IntMulWrap
                    | BinaryAluOp::BitAnd
                    | BinaryAluOp::BitOr
                    | BinaryAluOp::BitXor
            ),
            MInst::DoubleAlu { op, .. } => !matches!(
                op,
                DoubleAluOp::SaddOverflow
                    | DoubleAluOp::UaddOverflow
                    | DoubleAluOp::UmulHi
                    | DoubleAluOp::SmulHi
            ),
            MInst::Alu2 { var, .. } => !matches!(var, Alu2Variant::Add | Alu2Variant::Multiply),
            MInst::Alu1 { var, .. } => !matches!(
                var,
                AluVariant::BitAnd | AluVariant::BitOr | AluVariant::BitXor
            ),
            _ => true,
        }
    }
}

/// Lengths are not negative, and only where operands cross a parameter list, a
/// call or a jump can they be zero.
pub proof fn emitted_length_bounds(inst: MInstView)
    requires
        inst.emittable() || inst.crossable(),
    ensures
        inst.spec_emitted_length() >= 0,
        inst.spec_reference_length() >= 0,
{
    if let MInstOf::Const { ty: IsaType::Known(t), imm, .. } = inst {
        const_bytes_extend_to_constant(t, imm);
        let size = size_of_pow2(t.spec_size_pow2() as int);
        least_explicit_exists(low_bytes(imm, size), t is Int, 1);
    }
}

} // verus!
