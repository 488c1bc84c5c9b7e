//! References to labels and their resolution.
use scry_backend::isa::{Instruction, Type};
use scry_backend::label::LabelUse;

fn far(size_pow2: u16, gap: u16, trig: u16) -> LabelUse {
    LabelUse::JmpFar { size_pow2, gap, trig }
}

#[test]
fn offsets_are_relative_to_the_jump_or_its_trigger() {
    assert_eq!(LabelUse::jump_offset(10, 3, 5), Some(-5));
    assert_eq!(LabelUse::jump_offset(10, 3, 10), Some(0));
    assert_eq!(LabelUse::jump_offset(10, 3, 15), Some(1));
    assert_eq!(LabelUse::jump_offset(10, 3, 20), Some(6));
    // Between the jump and the instruction behind its trigger.
    assert_eq!(LabelUse::jump_offset(10, 3, 11), None);
    assert_eq!(LabelUse::jump_offset(10, 3, 14), None);
}

#[test]
fn ranges_depend_on_the_form() {
    assert_eq!(LabelUse::JmpLoc7.offset_range(), -64..=63);
    assert_eq!(far(1, 0, 0).offset_range(), -0x8000..=0x7fff);
    assert_eq!(far(2, 0, 0).offset_range(), -0x8000_0000..=0x7fff_ffff);
    assert_eq!(LabelUse::far_chain_len(2), 4);
    assert_eq!(LabelUse::far_offset_max(0), 0x7f);
    assert_eq!(far(1, 3, 0).lead(), 5);
    assert_eq!(LabelUse::JmpLoc7.lead(), 0);
    assert_eq!(LabelUse::JmpLoc7.patch_size(), 2);
    assert_eq!(far(2, 0, 0).patch_size(), 8);
    assert!(LabelUse::JmpLoc7.can_reach(63));
    assert!(!LabelUse::JmpLoc7.can_reach(64));
    assert!(!LabelUse::JmpLoc7.supports_veneer());
    assert_eq!(LabelUse::worst_case_veneer_size(), 4);
    assert_eq!(LabelUse::JmpLoc7.max_pos_range(), u32::MAX / 2);
    assert_eq!(LabelUse::JmpLoc7.max_neg_range(), 128);
    assert_eq!(LabelUse::JmpTrig6.max_neg_range(), 62);
}

#[test]
fn short_jumps_are_patched() {
    let insts = vec![Instruction::Jump(0, 2)];
    assert_eq!(LabelUse::JmpLoc7.patch(&insts, 20, 4), vec![Instruction::Jump(-8, 2)]);
    assert_eq!(LabelUse::JmpLoc7.patch(&insts, 20, 40), vec![Instruction::Jump(7, 2)]);
    // A fall-through cannot be expressed.
    assert_eq!(LabelUse::JmpLoc7.patch(&insts, 20, 26), vec![Instruction::NoOp]);
    assert_eq!(LabelUse::JmpTrig6.patch(&insts, 20, 30), vec![Instruction::Jump(0, 5)]);
}

#[test]
fn far_offsets_are_spread_over_their_chain() {
    let insts = vec![Instruction::Constant(Type::Int(1), 0), Instruction::Grow(0)];
    // The jump stands at address 12 and triggers at once.
    assert_eq!(
        far(1, 0, 0).patch(&insts, 20, 2 * 1000),
        vec![Instruction::Constant(Type::Int(1), 0x03), Instruction::Grow(0xdb)]
    );
    assert_eq!(
        far(1, 0, 0).patch(&insts, 20, 0),
        vec![Instruction::Constant(Type::Int(1), 0xff), Instruction::Grow(0xf4)]
    );
}
