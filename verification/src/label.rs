//! Label references of jumps: how far they reach and how they are patched once
//! the address of their target is known.
use crate::isa::Instruction;
use crate::length::{byte_at, size_of_pow2};
use std::ops::RangeInclusive;
use vstd::prelude::*;

verus! {

/// Different forms of label references for different instruction formats.
#[derive(Clone, Copy, PartialEq, Eq, Structural, Debug)]
pub enum LabelUse {
    /// The 7-bit immediate of a short [`Instruction::Jump`].
    JmpLoc7,
    /// 6-bit jump trigger offset. Used in [`Instruction::Jump`] for short range.
    JmpTrig6,
    /// The signed offset operand of a far jump, materialized by a `const` +
    /// `grow` chain of `2^size_pow2` instructions (one per byte, most significant
    /// first). The jump follows `gap` instructions after the chain, and its
    /// trigger offset is `trig`.
    ///
    /// The offset has the same meaning as the short jump's immediate: relative
    /// to the jump instruction when jumping backward (zero or negative), and
    /// past the trigger address when jumping forward (positive).
    JmpFar { size_pow2: u16, gap: u16, trig: u16 },
}

/// The largest positive value a far jump's offset of the given width holds.
pub open spec fn spec_far_offset_max(size_pow2: u16) -> int {
    if size_pow2 == 0 {
        0x7f
    } else if size_pow2 == 1 {
        0x7fff
    } else {
        0x7fff_ffff
    }
}

/// The offset a jump at instruction address `jump`, triggering `trig`
/// instructions later, needs to reach the instruction address `target`.
pub open spec fn spec_jump_offset(jump: int, trig: int, target: int) -> Option<int> {
    if target <= jump {
        Some(target - jump)
    } else if target >= jump + trig + 2 {
        Some(target - (jump + trig) - 1)
    } else {
        None
    }
}

/// Where the machine lands that executes a jump at instruction address `jump`
/// with the given offset and trigger offset: relative to the jump itself when
/// the offset is not positive, past the instruction after the trigger address
/// otherwise.
pub open spec fn landing(jump: int, trig: int, offset: int) -> int {
    if offset <= 0 {
        jump + offset
    } else {
        jump + trig + 1 + offset
    }
}

/// A jump with the computed offset lands on its target.
pub proof fn jump_offset_lands_on_target(jump: int, trig: int, target: int)
    requires
        trig >= 0,
    ensures
        spec_jump_offset(jump, trig, target) matches Some(offset) ==> landing(jump, trig, offset)
            == target,
{
}

/// Where no offset is computed, no offset reaches the target: it lies between
/// the jump and the instruction right after its trigger.
pub proof fn no_jump_offset_reaches(jump: int, trig: int, target: int, offset: int)
    requires
        trig >= 0,
        spec_jump_offset(jump, trig, target) is None,
    ensures
        landing(jump, trig, offset) != target,
        jump < target <= jump + trig + 1,
{
}

impl LabelUse {
    /// Whether the label use stands for a jump offset the machine has.
    pub open spec fn is_offset(self) -> bool {
        match self {
            LabelUse::JmpLoc7 => true,
            LabelUse::JmpTrig6 => false,
            LabelUse::JmpFar { size_pow2, .. } => size_pow2 <= 2,
        }
    }

    /// The largest jump offset the label use can encode. The smallest is one
    /// less than its negation.
    pub open spec fn offset_max(self) -> int {
        match self {
            LabelUse::JmpFar { size_pow2, .. } => spec_far_offset_max(size_pow2),
            _ => 63,
        }
    }

    /// Whether the label use can encode an offset.
    pub open spec fn reaches(self, offset: int) -> bool {
        -self.offset_max() - 1 <= offset <= self.offset_max()
    }

    /// How many instructions before the jump the patched instructions start.
    pub open spec fn spec_lead(self) -> int {
        match self {
            LabelUse::JmpFar { size_pow2, gap, .. } => size_of_pow2(size_pow2 as int) + gap,
            _ => 0,
        }
    }

    /// The number of instructions that are patched.
    pub open spec fn patch_len(self) -> int {
        match self {
            LabelUse::JmpFar { size_pow2, .. } => size_of_pow2(size_pow2 as int),
            _ => 1,
        }
    }

    /// The number of instructions in a far jump's offset chain: one per byte
    /// of the offset.
    pub fn far_chain_len(size_pow2: u16) -> (r: i64)
        requires
            size_pow2 <= 2,
        ensures
            r == size_of_pow2(size_pow2 as int),
    {
        if size_pow2 == 0 {
            1
        } else if size_pow2 == 1 {
            2
        } else {
            4
        }
    }

    /// The largest positive value a far jump's offset can hold.
    pub fn far_offset_max(size_pow2: u16) -> (r: i64)
        requires
            size_pow2 <= 2,
        ensures
            r == spec_far_offset_max(size_pow2),
    {
        if size_pow2 == 0 {
            0x7f
        } else if size_pow2 == 1 {
            0x7fff
        } else {
            0x7fff_ffff
        }
    }

    /// The largest jump offset this label use can encode.
    fn largest_offset(self) -> (r: i64)
        requires
            self.is_offset(),
        ensures
            r == self.offset_max(),
            0 < r <= 0x7fff_ffff,
    {
        match self {
            LabelUse::JmpFar { size_pow2, .. } => Self::far_offset_max(size_pow2),
            _ => 63,
        }
    }

    /// The range of jump offsets (see [`Self::jump_offset`]) this label use can
    /// encode: the single definition of a jump's reach.
    pub fn offset_range(self) -> (r: RangeInclusive<i64>)
        requires
            self.is_offset(),
        ensures
            r@.start == -self.offset_max() - 1,
            r@.end == self.offset_max(),
            !r@.exhausted,
    {
        let largest: i64 = self.largest_offset();
        RangeInclusive::new(-largest - 1, largest)
    }

    /// Whether this label use can encode an offset.
    pub fn can_reach(self, offset: i64) -> (r: bool)
        requires
            self.is_offset(),
        ensures
            r == self.reaches(offset as int),
    {
        let largest: i64 = self.largest_offset();
        -largest - 1 <= offset && offset <= largest
    }

    /// How many instructions before the jump the patched instructions start.
    pub fn lead(self) -> (r: i64)
        requires
            self.is_offset(),
        ensures
            r == self.spec_lead(),
    {
        match self {
            LabelUse::JmpFar { size_pow2, gap, .. } => Self::far_chain_len(size_pow2)
                + gap as i64,
            _ => 0,
        }
    }

    /// The offset (immediate or far operand) a jump at instruction address
    /// `jump`, triggering `trig` instructions later, needs to reach the
    /// instruction address `target`, per the ISA's jump semantics. All in
    /// instructions, not bytes.
    ///
    /// Returns `None` for a target that no offset reaches: anything past the jump
    /// itself up to its trigger, and the fall-through instruction right after the
    /// trigger.
    pub fn jump_offset(jump: i64, trig: i64, target: i64) -> (r: Option<i64>)
        requires
            i64::MIN <= jump + trig <= i64::MAX - 2,
            spec_jump_offset(jump as int, trig as int, target as int) matches Some(offset)
                ==> i64::MIN <= offset < i64::MAX,
        ensures
            match (r, spec_jump_offset(jump as int, trig as int, target as int)) {
                (Some(offset), Some(expected)) => offset == expected,
                (None, None) => true,
                _ => false,
            },
    {
        if target <= jump {
            // Backward: added to the jump's own address (offset 0 targets the
            // jump itself).
            Some(target - jump)
        } else {
            // Forward: past the trigger address.
            let trigger: i64 = jump + trig;
            if target >= trigger + 2 {
                Some(target - trigger - 1)
            } else {
                None
            }
        }
    }

    /// The furthest a label may lie after its use, in bytes. Deliberately
    /// unlimited: the forward reach is enforced where jumps are widened.
    pub fn max_pos_range(self) -> (r: u32)
        ensures
            r == u32::MAX / 2,
    {
        u32::MAX / 2
    }

    /// The furthest a label may lie before its use, in bytes. Backward offsets
    /// are relative to the jump, `lead` instructions past the patched
    /// instructions.
    pub fn max_neg_range(self) -> (r: u32)
        requires
            self is JmpTrig6 || (self.is_offset() && 0 <= (self.offset_max() + 1
                - self.spec_lead()) * 2 <= u32::MAX),
        ensures
            self is JmpTrig6 ==> r == 62,
            !(self is JmpTrig6) ==> r == (self.offset_max() + 1 - self.spec_lead()) * 2,
    {
        match self {
            LabelUse::JmpTrig6 => 62,
            _ => {
                let largest: i64 = self.largest_offset();
                let lead: i64 = self.lead();
                ((largest + 1 - lead) * 2) as u32
            },
        }
    }

    /// The size of the patched instructions in bytes.
    pub fn patch_size(self) -> (r: u32)
        requires
            self matches LabelUse::JmpFar { size_pow2, .. } ==> size_pow2 <= 2,
        ensures
            r == 2 * self.patch_len(),
    {
        match self {
            LabelUse::JmpFar { size_pow2, .. } => (Self::far_chain_len(size_pow2) * 2) as u32,
            _ => 2,
        }
    }

    /// Veneers are not supported.
    pub fn supports_veneer(self) -> (r: bool)
        ensures
            r == false,
    {
        false
    }

    /// The size of the largest veneer, in bytes.
    pub fn worst_case_veneer_size() -> (r: u32)
        ensures
            r == 4,
    {
        4
    }
}

/// Whether instructions form an offset chain: a `const` followed by `grow`s.
pub open spec fn is_offset_chain(insts: Seq<Instruction>) -> bool {
    &&& insts.len() > 0
    &&& insts[0] is Constant
    &&& forall|i: int| 0 < i < insts.len() ==> #[trigger] insts[i] is Grow
}

/// An offset chain that holds an offset: the `const` takes the most significant
/// byte, each `grow` the next one down.
pub open spec fn offset_chain(insts: Seq<Instruction>, offset: i64) -> Seq<Instruction> {
    Seq::new(
        insts.len(),
        |i: int|
            if i == 0 {
                Instruction::Constant(
                    insts[0]->Constant_0,
                    byte_at(offset, insts.len() - 1),
                )
            } else {
                Instruction::Grow(byte_at(offset, insts.len() - 1 - i))
            },
    )
}

impl LabelUse {
    /// The address of the jump a label use belongs to, where its patched
    /// instructions start at `use_addr`.
    pub open spec fn jump_addr(self, use_addr: int) -> int {
        use_addr + self.spec_lead()
    }

    /// Whether instructions at `use_addr` can be patched to refer to `target`,
    /// both instruction addresses.
    pub open spec fn patchable(
        self,
        insts: Seq<Instruction>,
        use_addr: int,
        target: int,
    ) -> bool {
        match self {
            LabelUse::JmpTrig6 => {
                &&& insts.len() == 1
                &&& insts[0] is Jump
                &&& use_addr <= target <= use_addr + 63
            },
            LabelUse::JmpLoc7 => {
                &&& insts.len() == 1
                &&& insts[0] is Jump
                &&& match spec_jump_offset(use_addr, insts[0]->Jump_1 as int, target) {
                    Some(offset) => self.reaches(offset),
                    None => target == use_addr + insts[0]->Jump_1 + 1,
                }
            },
            LabelUse::JmpFar { size_pow2, trig, .. } => {
                &&& size_pow2 <= 2
                &&& insts.len() == self.patch_len()
                &&& is_offset_chain(insts)
                &&& spec_jump_offset(self.jump_addr(use_addr), trig as int, target) matches Some(
                    offset,
                ) && self.reaches(offset)
            },
        }
    }

    /// The instructions at `use_addr` patched to refer to `target`. A short jump
    /// cannot express a fall-through, which becomes a no-op.
    pub open spec fn patched(
        self,
        insts: Seq<Instruction>,
        use_addr: int,
        target: int,
    ) -> Seq<Instruction> {
        match self {
            LabelUse::JmpTrig6 => seq![
                Instruction::Jump(insts[0]->Jump_0, (target - use_addr) as u16),
            ],
            LabelUse::JmpLoc7 => match spec_jump_offset(
                use_addr,
                insts[0]->Jump_1 as int,
                target,
            ) {
                Some(offset) => seq![Instruction::Jump(offset as i32, insts[0]->Jump_1)],
                None => seq![Instruction::NoOp],
            },
            LabelUse::JmpFar { trig, .. } => offset_chain(
                insts,
                spec_jump_offset(self.jump_addr(use_addr), trig as int, target).unwrap() as i64,
            ),
        }
    }

    /// Patches the instructions of a label use at byte offset `use_offset` to
    /// refer to a label at byte offset `label_offset`.
    pub fn patch(self, insts: &Vec<Instruction>, use_offset: u32, label_offset: u32) -> (r: Vec<
        Instruction,
    >)
        requires
            use_offset % 2 == 0,
            label_offset % 2 == 0,
            self.patchable(insts@, use_offset as int / 2, label_offset as int / 2),
        ensures
            r@ == self.patched(insts@, use_offset as int / 2, label_offset as int / 2),
    {
        // Instruction addresses of the patched instructions and the target.
        let use_addr: i64 = (use_offset / 2) as i64;
        let target: i64 = (label_offset / 2) as i64;
        match self {
            LabelUse::JmpTrig6 => {
                let imm: i32 = match insts[0] {
                    Instruction::Jump(imm, _) => imm,
                    _ => 0,
                };
                let trig: u16 = (target - use_addr) as u16;
                let r: Vec<Instruction> = vec![Instruction::Jump(imm, trig)];
                assert(r@ =~= self.patched(insts@, use_addr as int, target as int));
                r
            },
            LabelUse::JmpLoc7 => {
                let trig: u16 = match insts[0] {
                    Instruction::Jump(_, trig) => trig,
                    _ => 0,
                };
                let r: Vec<Instruction> = match Self::jump_offset(use_addr, trig as i64, target) {
                    Some(offset) => vec![Instruction::Jump(offset as i32, trig)],
                    // The jmp instruction cannot express a fall-through.
                    None => vec![Instruction::NoOp],
                };
                assert(r@ =~= self.patched(insts@, use_addr as int, target as int));
                r
            },
            LabelUse::JmpFar { trig, .. } => {
                // The chain's jump comes after the chain and its gap.
                let jump: i64 = use_addr + self.lead();
                let offset: i64 = match Self::jump_offset(jump, trig as i64, target) {
                    Some(offset) => offset,
                    None => 0,
                };
                let word: u64 = offset as u64;
                let n: usize = insts.len();
                let mut r: Vec<Instruction> = Vec::new();
                for i in 0..n
                    invariant
                        n == insts@.len(),
                        0 < n <= 8,
                        word == offset as u64,
                        is_offset_chain(insts@),
                        r@ == offset_chain(insts@, offset).take(i as int),
                {
                    let shift: u64 = 8 * ((n - 1 - i) as u64);
                    let byte: u8 = (word >> shift) as u8;
                    let inst = if i == 0 {
                        match insts[i] {
                            Instruction::Constant(ty, _) => Instruction::Constant(ty, byte),
                            other => other,
                        }
                    } else {
                        Instruction::Grow(byte)
                    };
                    r.push(inst);
                    assert(r@ =~= offset_chain(insts@, offset).take(i as int + 1));
                }
                assert(r@ =~= offset_chain(insts@, offset));
                r
            },
        }
    }
}

/// The value that a chain of `const` and `grow` instructions materializes, the
/// `const`'s byte being extended by its sign.
pub open spec fn chain_value(insts: Seq<Instruction>) -> int
    decreases insts.len(),
{
    if insts.len() == 0 {
        0
    } else {
        match insts.last() {
            Instruction::Constant(_, b) => if b >= 0x80 {
                b - 0x100
            } else {
                b as int
            },
            Instruction::Grow(b) => chain_value(insts.drop_last()) * 0x100 + b,
            _ => 0,
        }
    }
}

/// A patched far jump reads its own offset back from its chain: the chain
/// materializes exactly the offset with which the jump lands on its target.
pub proof fn patched_chain_holds_offset(
    label_use: LabelUse,
    insts: Seq<Instruction>,
    use_addr: int,
    target: int,
)
    requires
        label_use is JmpFar,
        label_use.patchable(insts, use_addr, target),
    ensures
        ({
            let jump = label_use.jump_addr(use_addr);
            let trig = label_use->JmpFar_trig as int;
            landing(jump, trig, chain_value(label_use.patched(insts, use_addr, target))) == target
        }),
{
    let jump = label_use.jump_addr(use_addr);
    let trig = label_use->JmpFar_trig as int;
    let offset = spec_jump_offset(jump, trig, target).unwrap();
    let o = offset as i64;
    let patched = label_use.patched(insts, use_addr, target);
    jump_offset_lands_on_target(jump, trig, target);
    assert(chain_value(patched) == offset) by {
        if insts.len() == 1 {
            assert(patched.last() == patched[0]);
            let b0 = byte_at(o, 0);
            assert(-0x80 <= o <= 0x7f ==> o == (if ((o as u64) >> 0u64) as u8 >= 0x80u8 {
                ((o as u64) >> 0u64) as u8 - 0x100
            } else {
                ((o as u64) >> 0u64) as u8 as int
            })) by (bit_vector);
            reveal_with_fuel(chain_value, 2);
        } else if insts.len() == 2 {
            reveal_with_fuel(chain_value, 3);
            assert(patched.drop_last() =~= seq![patched[0]]);
            let b1 = ((o as u64) >> 8u64) as u8;
            let b0 = ((o as u64) >> 0u64) as u8;
            assert(-0x8000 <= o <= 0x7fff ==> o == (if b1 >= 0x80u8 {
                b1 - 0x100
            } else {
                b1 as int
            }) * 0x100 + b0) by (bit_vector)
                requires
                    b1 == ((o as u64) >> 8u64) as u8,
                    b0 == ((o as u64) >> 0u64) as u8,
            ;
        } else {
            reveal_with_fuel(chain_value, 5);
            assert(patched.drop_last() =~= seq![patched[0], patched[1], patched[2]]);
            assert(patched.drop_last().drop_last() =~= seq![patched[0], patched[1]]);
            assert(patched.drop_last().drop_last().drop_last() =~= seq![patched[0]]);
            let b3 = ((o as u64) >> 24u64) as u8;
            let b2 = ((o as u64) >> 16u64) as u8;
            let b1 = ((o as u64) >> 8u64) as u8;
            let b0 = ((o as u64) >> 0u64) as u8;
            assert(-0x8000_0000 <= o <= 0x7fff_ffff ==> o == (((if b3 >= 0x80u8 {
                b3 - 0x100
            } else {
                b3 as int
            }) * 0x100 + b2) * 0x100 + b1) * 0x100 + b0) by (bit_vector)
                requires
                    b3 == ((o as u64) >> 24u64) as u8,
                    b2 == ((o as u64) >> 16u64) as u8,
                    b1 == ((o as u64) >> 8u64) as u8,
                    b0 == ((o as u64) >> 0u64) as u8,
            ;
        }
    }
}

} // verus!
