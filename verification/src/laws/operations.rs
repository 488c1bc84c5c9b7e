//! What operations compute, and that resolution keeps it.
//!
//! A value of `w` bits is a number from zero on and below `2^w`; as a signed one, it
//! stands for the number that differs from it by a multiple of `2^w` and whose
//! magnitude is at most half of that.
use crate::bb::BBView;
use crate::inst::{BinaryAluOp, DoubleAluOp, MInstOf, MInstView, ResizeVariant};
use crate::ir::{self, AbiParam, IntCC, SignatureView};
use crate::isa::{Alu2OutputVariant, Alu2Variant, AluVariant};
use crate::isatype::IsaType;
use crate::passes::infer::{
    assign, assign_progresses, at_least, boolean_type, infer, infer_compare, infer_double,
    infer_extend, operand_pins, pin_maybe, pin_output, pin_use, pin_use_progresses,
    pinned_use_has_sign, required_sign, Known, Site,
};
use crate::passes::resolve::{
    analyzed, blocks_resolved, both_phases, resolved, resolved_from, seeded, typed, types_resolved,
};
use crate::passes::types::{instructions_agree_with_types, phase};
use crate::reg::Reg;
use crate::typemap::{set_changes_one, TypesView};
use vstd::arithmetic::power2::pow2;
use vstd::prelude::*;

verus! {

/// The value of `w` bits that differs from a number by a multiple of `2^w`.
pub open spec fn wrapped(w: nat, x: int) -> int {
    x % (pow2(w) as int)
}

/// The number that a value of `w` bits stands for.
pub open spec fn number(signed: bool, w: nat, a: int) -> int {
    if signed && 2 * a >= pow2(w) {
        a - pow2(w)
    } else {
        a
    }
}

/// Whether a number is beyond what a value of `w` bits can stand for.
pub open spec fn beyond(signed: bool, w: nat, x: int) -> bool {
    if signed {
        2 * x >= pow2(w) || 2 * x < -pow2(w)
    } else {
        x >= pow2(w) || x < 0
    }
}

/// One for true, zero for false.
pub open spec fn bit(b: bool) -> int {
    if b {
        1
    } else {
        0
    }
}

/// The value of a binary operation.
pub open spec fn binary_value(op: BinaryAluOp, w: nat, a: int, b: int) -> int {
    match op {
        BinaryAluOp::IntAddWrap => wrapped(w, a + b),
        BinaryAluOp::IntSubWrap => wrapped(w, a - b),
        BinaryAluOp::IntMulWrap => wrapped(w, a * b),
        BinaryAluOp::BitAnd => ((a as u64) & (b as u64)) as int,
        BinaryAluOp::BitOr => ((a as u64) | (b as u64)) as int,
        BinaryAluOp::BitXor => ((a as u64) ^ (b as u64)) as int,
    }
}

/// The values of a binary operation with two results, the low one first. A right
/// shift is by as many bits as its amount is below zero; `None` stands for the
/// bits that a shift drops.
pub open spec fn double_values(op: DoubleAluOp, w: nat, a: int, b: int) -> (int, Option<int>) {
    let sa = number(true, w, a);
    let sb = number(true, w, b);
    match op {
        DoubleAluOp::UaddOverflow => (wrapped(w, a + b), Some(bit(beyond(false, w, a + b)))),
        DoubleAluOp::SaddOverflow => (wrapped(w, a + b), Some(bit(beyond(true, w, sa + sb)))),
        DoubleAluOp::UsubOverflow => (wrapped(w, a - b), Some(bit(beyond(false, w, a - b)))),
        DoubleAluOp::SsubOverflow => (wrapped(w, a - b), Some(bit(beyond(true, w, sa - sb)))),
        DoubleAluOp::UmulHi => (wrapped(w, a * b), Some(wrapped(w, (a * b) / (pow2(w) as int)))),
        DoubleAluOp::SmulHi => (wrapped(w, a * b), Some(wrapped(w, (sa * sb) / (pow2(w) as int)))),
        DoubleAluOp::UdivRem => (wrapped(w, a / b), Some(wrapped(w, a % b))),
        DoubleAluOp::SdivRem => (wrapped(w, sa / sb), Some(wrapped(w, sa % sb))),
        DoubleAluOp::Shl => (wrapped(w, a * pow2(b as nat)), None),
        DoubleAluOp::Ushr => (wrapped(w, a / (pow2((-sb) as nat) as int)), None),
        DoubleAluOp::Sshr => (wrapped(w, sa / (pow2((-sb) as nat) as int)), None),
    }
}

/// Whether a shift's amount is one that its operation shifts by: a right shift by
/// an amount below zero, a left shift by one that is not.
pub open spec fn shifts_by(op: DoubleAluOp, signed: bool, w: nat, b: int) -> bool {
    match op {
        DoubleAluOp::Shl => number(signed, w, b) == b,
        DoubleAluOp::Ushr | DoubleAluOp::Sshr => number(true, w, b) < 0,
        _ => true,
    }
}

/// Whether a comparison holds.
pub open spec fn compares(cc: IntCC, w: nat, a: int, b: int) -> bool {
    let sa = number(true, w, a);
    let sb = number(true, w, b);
    match cc {
        IntCC::Equal => a == b,
        IntCC::NotEqual => a != b,
        IntCC::SignedLessThan => sa < sb,
        IntCC::SignedGreaterThanOrEqual => sa >= sb,
        IntCC::SignedGreaterThan => sa > sb,
        IntCC::SignedLessThanOrEqual => sa <= sb,
        IntCC::UnsignedLessThan => a < b,
        IntCC::UnsignedGreaterThanOrEqual => a >= b,
        IntCC::UnsignedGreaterThan => a > b,
        IntCC::UnsignedLessThanOrEqual => a <= b,
    }
}

/// The value of a resizing from `w` bits to `u`.
pub open spec fn resized(var: ResizeVariant, w: nat, u: nat, a: int) -> int {
    match var {
        ResizeVariant::Uextend => a,
        ResizeVariant::Sextend => wrapped(u, number(true, w, a)),
        ResizeVariant::Reduce => wrapped(u, a),
    }
}

/// The output of a machine operation on operands that are tagged signed or not.
pub open spec fn alu1_value(var: AluVariant, s1: bool, s2: bool, w: nat, a: int, b: int) -> int {
    match var {
        AluVariant::BitAnd => ((a as u64) & (b as u64)) as int,
        AluVariant::BitOr => ((a as u64) | (b as u64)) as int,
        AluVariant::BitXor => ((a as u64) ^ (b as u64)) as int,
        AluVariant::Equal => bit(a == b),
        AluVariant::LessThan => bit(number(s1 && s2, w, a) < number(s1 && s2, w, b)),
        AluVariant::GreaterThan => bit(number(s1 && s2, w, a) > number(s1 && s2, w, b)),
    }
}

/// The outputs of a two-output machine operation on operands that are tagged
/// signed or not, the low one first. It is signed if both operands are; a shift
/// reads each tag for itself: the value's says what is shifted in, the amount's the
/// direction, amounts below zero shifting to the right. `None` stands for the bits
/// that a shift drops.
pub open spec fn alu2_values(
    var: Alu2Variant,
    s1: bool,
    s2: bool,
    w: nat,
    a: int,
    b: int,
) -> (int, Option<int>) {
    let s = s1 && s2;
    let na = number(s, w, a);
    let nb = number(s, w, b);
    match var {
        Alu2Variant::Add => (wrapped(w, a + b), Some(bit(beyond(s, w, na + nb)))),
        Alu2Variant::Sub => (wrapped(w, a - b), Some(bit(beyond(s, w, na - nb)))),
        Alu2Variant::Multiply => (
            wrapped(w, a * b),
            Some(wrapped(w, (na * nb) / (pow2(w) as int))),
        ),
        Alu2Variant::Division => (wrapped(w, na / nb), Some(wrapped(w, na % nb))),
        Alu2Variant::Shift => {
            let by = number(s2, w, b);
            if by < 0 {
                (wrapped(w, number(s1, w, a) / (pow2((-by) as nat) as int)), None)
            } else {
                (wrapped(w, a * pow2(by as nat)), None)
            }
        },
    }
}

/// The value of a machine cast from `w` bits to `u`: extended as the operand's
/// tag says, or cut off.
pub open spec fn cast_value(signed: bool, w: nat, u: nat, a: int) -> int {
    if u <= w {
        wrapped(u, a)
    } else if signed {
        wrapped(u, number(true, w, a))
    } else {
        a
    }
}

/// The number of bits of a type.
pub open spec fn bits_of(t: IsaType) -> nat {
    8 * pow2(t.spec_size_pow2() as nat)
}

/// The registers that a typed operation defines, with their values, given those of
/// its operands.
pub open spec fn typed_results(inst: MInstView, w: nat, u: nat, values: Map<Reg, int>) -> Seq<
    (Reg, Option<int>),
> {
    match inst {
        MInstOf::BinaryAlu { op, rd, rs1, rs2 } => seq![
            (rd, Some(binary_value(op, w, values[rs1], values[rs2]))),
        ],
        MInstOf::DoubleAlu { op, rdl, rdh, rs1, rs2 } => seq![
            (rdl, Some(double_values(op, w, values[rs1], values[rs2]).0)),
            (rdh, double_values(op, w, values[rs1], values[rs2]).1),
        ],
        MInstOf::IntCmp { cc, rd, rs1, rs2 } => seq![
            (rd, Some(bit(compares(cc, w, values[rs1], values[rs2])))),
        ],
        MInstOf::Resize { var, rd, rs } => seq![(rd, Some(resized(var, w, u, values[rs])))],
        _ => Seq::empty(),
    }
}

/// The registers that a machine operation defines, with their values, given those
/// of its operands; the operands are tagged with the registers' types.
pub open spec fn machine_results(
    inst: MInstView,
    types: TypesView,
    w: nat,
    values: Map<Reg, int>,
) -> Seq<(Reg, Option<int>)> {
    match inst {
        MInstOf::Alu1 { var, rd, rss, .. } => seq![
            (
                rd,
                Some(
                    alu1_value(
                        var,
                        types.get(rss[0]).spec_is_signed_int(),
                        types.get(rss[1]).spec_is_signed_int(),
                        w,
                        values[rss[0]],
                        values[rss[1]],
                    ),
                ),
            ),
        ],
        MInstOf::Alu2 { var, out_var, rds, rss, .. } => {
            let (low, high) = alu2_values(
                var,
                types.get(rss[0]).spec_is_signed_int(),
                types.get(rss[1]).spec_is_signed_int(),
                w,
                values[rss[0]],
                values[rss[1]],
            );
            match out_var {
                Alu2OutputVariant::LowOnly => seq![(rds[0], Some(low))],
                Alu2OutputVariant::HighOnly => seq![(rds[0], high)],
                _ => seq![(rds[0], Some(low)), (rds[1], high)],
            }
        },
        MInstOf::Cast { rd, ty, rs, .. } => seq![
            (
                rd,
                Some(
                    cast_value(types.get(rs).spec_is_signed_int(), w, bits_of(ty), values[rs]),
                ),
            ),
        ],
        _ => Seq::empty(),
    }
}

/// Whether an operation with two results takes its first operand as signed; `None`
/// where it does not matter.
pub open spec fn first_signed(op: DoubleAluOp) -> Option<bool> {
    match op {
        DoubleAluOp::SaddOverflow
        | DoubleAluOp::SsubOverflow
        | DoubleAluOp::SmulHi
        | DoubleAluOp::SdivRem
        | DoubleAluOp::Sshr => Some(true),
        DoubleAluOp::UaddOverflow
        | DoubleAluOp::UsubOverflow
        | DoubleAluOp::UmulHi
        | DoubleAluOp::UdivRem
        | DoubleAluOp::Ushr => Some(false),
        DoubleAluOp::Shl => None,
    }
}

/// Whether an operation with two results takes its second operand as signed.
pub open spec fn second_signed(op: DoubleAluOp) -> Option<bool> {
    if op is Ushr {
        Some(true)
    } else {
        first_signed(op)
    }
}

/// Whether a type is that of a signed, or of an unsigned, integer.
pub open spec fn has_sign(t: IsaType, signed: bool) -> bool {
    if signed {
        t.spec_is_signed_int()
    } else {
        t.spec_is_unsigned_int()
    }
}

proof fn settled_pin(s: Known, u: Known, t: Known, at: Site, slot: usize, r: Reg, signed: bool)
    requires
        u == pin_use(s, at, slot, r, signed),
        at_least(t, u),
        t.types == s.types,
        t.demands.len() == 0,
        t.demands.len() >= u.demands.len(),
    ensures
        u == s,
        s.types.get(r).spec_is_int() ==> has_sign(s.types.get(r), signed),
{
    pin_use_progresses(s, at, slot, r, signed);
    assert(u.types == s.types);
    assert(u.demands =~= s.demands);
    assert(u == s);
    pinned_use_has_sign(s, at, slot, r, signed);
}

proof fn pin_maybe_progresses(s: Known, at: Site, slot: usize, r: Reg, pin: Option<bool>)
    ensures
        at_least(pin_maybe(s, at, slot, r, pin), s),
        pin_maybe(s, at, slot, r, pin).demands.len() >= s.demands.len(),
{
    if let Some(signed) = pin {
        pin_use_progresses(s, at, slot, r, signed);
    }
}

proof fn settled_output(s: Known, r: Reg, signed: bool)
    requires
        pin_output(s, r, signed) == Some(s),
    ensures
        s.types.get(r).spec_is_int() ==> has_sign(s.types.get(r), signed),
{
    let t = s.types.get(r);
    if t.spec_is_int() {
        let target = crate::isatype::known_int(t.spec_size_pow2(), signed);
        let x = t.spec_refine(target)->Some_0;
        set_changes_one(s.types, r, x, r);
    }
}

/// Once the types agree with an operation with two results, its operands are
/// tagged as it takes them, and its results as it gives them: a remainder is never
/// negative, and every other value carries the sign of the operation.
pub proof fn double_operands_have_their_sign(
    s: Known,
    at: Site,
    op: DoubleAluOp,
    rdl: Reg,
    rdh: Reg,
    rs1: Reg,
    rs2: Reg,
)
    requires
        s.demands.len() == 0,
        infer(s, at, MInstOf::DoubleAlu { op, rdl, rdh, rs1, rs2 }) == Some(s),
    ensures
        s.types.get(rs1).spec_is_int() ==> (first_signed(op) matches Some(signed) ==> has_sign(
            s.types.get(rs1),
            signed,
        )),
        s.types.get(rs2).spec_is_int() ==> (second_signed(op) matches Some(signed) ==> has_sign(
            s.types.get(rs2),
            signed,
        )),
        s.types.get(rdl).spec_is_int() && !(op is UmulHi || op is SmulHi) ==> (first_signed(
            op,
        ) matches Some(signed) ==> has_sign(s.types.get(rdl), signed)),
        s.types.get(rdh).spec_is_int() && (op is UmulHi || op is SmulHi) ==> has_sign(
            s.types.get(rdh),
            op is SmulHi,
        ),
        s.types.get(rdh).spec_is_int() && (op is UdivRem || op is SdivRem) ==> has_sign(
            s.types.get(rdh),
            false,
        ),
        op is Shl && s.types.get(rs1).spec_is_int() && s.types.get(rdl).spec_is_int()
            ==> s.types.get(rs1) == s.types.get(rdl),
{
    broadcast use assign_progresses;

    reveal(infer_double);
    let (pin1, pin2) = operand_pins(op);
    let u = pin_maybe(s, at, 0, rs1, pin1);
    let v = pin_maybe(u, at, 1, rs2, pin2);
    pin_maybe_progresses(s, at, 0, rs1, pin1);
    pin_maybe_progresses(u, at, 1, rs2, pin2);
    assert(at_least(s, v));
    assert(v.types == s.types && u.types == s.types);
    assert(v.demands.len() <= s.demands.len());
    assert(u.demands =~= s.demands);
    assert(v.demands =~= s.demands);
    assert(u == s && v == s);
    if let Some(signed) = pin1 {
        settled_pin(s, u, s, at, 0, rs1, signed);
    }
    if let Some(signed) = pin2 {
        settled_pin(s, v, s, at, 1, rs2, signed);
    }
    let signed = pin1 == Some(true);
    match op {
        DoubleAluOp::SaddOverflow
        | DoubleAluOp::UaddOverflow
        | DoubleAluOp::UsubOverflow
        | DoubleAluOp::SsubOverflow
        | DoubleAluOp::Ushr
        | DoubleAluOp::Sshr => {
            settled_output(s, rdl, signed);
        },
        DoubleAluOp::UmulHi | DoubleAluOp::SmulHi => {
            settled_output(s, rdh, signed);
        },
        DoubleAluOp::UdivRem | DoubleAluOp::SdivRem => {
            let t = pin_output(s, rdl, signed)->Some_0;
            assert(at_least(s, t));
            assert(t == s);
            settled_output(s, rdl, signed);
            settled_output(s, rdh, false);
        },
        DoubleAluOp::Shl => {
            let t1 = s.types.get(rs1);
            let td = s.types.get(rdl);
            if t1.spec_is_int() && td.spec_is_int() {
                match t1.spec_refine(td) {
                    Some(t) => {
                        let a = assign(s, rs1, t)->Some_0;
                        assert(at_least(s, a));
                        assert(a == s);
                        set_changes_one(s.types, rs1, t1.spec_refine(t)->Some_0, rs1);
                        set_changes_one(s.types, rdl, td.spec_refine(t)->Some_0, rdl);
                    },
                    None => {},
                }
            }
        },
    }
}

/// Once the types agree with a comparison, it compares its operands with the
/// signedness that it means.
pub proof fn compared_operands_have_their_sign(
    s: Known,
    at: Site,
    cc: IntCC,
    rd: Reg,
    rs1: Reg,
    rs2: Reg,
)
    requires
        s.demands.len() == 0,
        infer(s, at, MInstOf::IntCmp { cc, rd, rs1, rs2 }) == Some(s),
    ensures
        s.types.get(rd) == IsaType::Known(crate::isa::Type::Uint(0)),
        cc is SignedLessThan || cc is SignedLessThanOrEqual || cc is SignedGreaterThan
            || cc is SignedGreaterThanOrEqual ==> {
            &&& s.types.get(rs1).spec_is_int() ==> has_sign(s.types.get(rs1), true)
            &&& s.types.get(rs2).spec_is_int() ==> has_sign(s.types.get(rs2), true)
        },
        cc is UnsignedLessThan || cc is UnsignedLessThanOrEqual || cc is UnsignedGreaterThan
            || cc is UnsignedGreaterThanOrEqual ==> {
            &&& s.types.get(rs1).spec_is_int() ==> has_sign(s.types.get(rs1), false)
            &&& s.types.get(rs2).spec_is_int() ==> has_sign(s.types.get(rs2), false)
        },
{
    broadcast use assign_progresses;

    if required_sign(cc) is Some {
        crate::passes::infer::comparison_operands_have_its_sign(s, at, cc, rd, rs1, rs2);
    } else {
        reveal(infer_compare);
        let u = assign(s, rd, boolean_type())->Some_0;
        let x = s.types.get(rd).spec_refine(boolean_type())->Some_0;
        reveal(crate::passes::infer::prefer2);
        set_changes_one(s.types, rd, x, rd);
        assert(at_least(s, u));
        assert(u.types == s.types);
    }
}

/// Whether an instruction is a typed operation on operands of `w` bits that have a
/// machine operation: integers, a comparison that the machine has, an amount that a
/// shift shifts by, and an extension to more bits or a reduction to fewer.
pub open spec fn computable(
    inst: MInstView,
    types: TypesView,
    w: nat,
    values: Map<Reg, int>,
) -> bool {
    match inst {
        MInstOf::BinaryAlu { .. } => true,
        MInstOf::DoubleAlu { op, rs1, rs2, .. } => {
            &&& types.get(rs1).spec_is_int()
            &&& types.get(rs2).spec_is_int()
            &&& shifts_by(op, types.get(rs2).spec_is_signed_int(), w, values[rs2])
            &&& 0 <= values[rs2] < pow2(w)
        },
        MInstOf::IntCmp { cc, rs1, rs2, .. } => {
            &&& types.get(rs1).spec_is_int()
            &&& types.get(rs2).spec_is_int()
            &&& cc is Equal || cc is SignedLessThan || cc is UnsignedLessThan
                || cc is SignedGreaterThan || cc is UnsignedGreaterThan
        },
        MInstOf::Resize { var, rd, rs } => {
            &&& types.get(rs).spec_is_int()
            &&& types.get(rd).spec_is_int()
            &&& types.get(rs) != types.get(rd)
            &&& w == bits_of(types.get(rs))
            &&& if var is Reduce {
                bits_of(types.get(rd)) <= w
            } else {
                bits_of(types.get(rd)) > w
            }
        },
        _ => false,
    }
}

/// The number of bits of what an operation on `w` bits results in.
pub open spec fn result_bits(inst: MInstView, types: TypesView, w: nat) -> nat {
    match inst {
        MInstOf::Resize { rd, .. } => bits_of(types.get(rd)),
        _ => w,
    }
}

/// Once the types agree with a typed operation, the machine operation that it is
/// resolved into defines the same registers with the same values, whatever the
/// operands are. `w` is the number of bits of the operands.
pub proof fn resolved_operations_compute_the_same(
    s: Known,
    at: Site,
    inst: MInstView,
    w: nat,
    values: Map<Reg, int>,
)
    requires
        s.demands.len() == 0,
        infer(s, at, inst) == Some(s),
        computable(inst, s.types, w, values),
    ensures
        resolved(inst, s.types) is Some,
        machine_results(resolved(inst, s.types)->Some_0, s.types, w, values) == typed_results(
            inst,
            w,
            result_bits(inst, s.types, w),
            values,
        ),
{
    let r = resolved(inst, s.types)->Some_0;
    match inst {
        MInstOf::BinaryAlu { .. } => {},
        MInstOf::DoubleAlu { op, rdl, rdh, rs1, rs2 } => {
            double_operands_have_their_sign(s, at, op, rdl, rdh, rs1, rs2);
        },
        MInstOf::IntCmp { cc, rd, rs1, rs2 } => {
            compared_operands_have_their_sign(s, at, cc, rd, rs1, rs2);
        },
        MInstOf::Resize { var, rd, rs } => {
            if !(var is Reduce) {
                crate::passes::infer::extended_operand_has_its_sign(
                    s,
                    at,
                    var is Sextend,
                    rd,
                    rs,
                );
            }
        },
        _ => {},
    }
    assert(machine_results(r, s.types, w, values) =~= typed_results(
        inst,
        w,
        result_bits(inst, s.types, w),
        values,
    ));
}

proof fn analysis_settles(
    bbs: Seq<BBView>,
    succs: Map<usize, Seq<usize>>,
    rets: Seq<AbiParam>,
    types: TypesView,
    next: int,
    rounds: nat,
) -> (start: TypesView)
    requires
        analyzed(bbs, succs, rets, types, next, rounds) is Some,
    ensures
        ({
            let ((b, t), _) = analyzed(bbs, succs, rets, types, next, rounds)->Some_0;
            both_phases(start, b, succs, rets) == Some(Known { types: t, demands: Seq::empty() })
        }),
    decreases rounds,
{
    let s = both_phases(types, bbs, succs, rets)->Some_0;
    if s.demands.len() == 0 {
        assert(s.demands =~= Seq::empty());
        types
    } else {
        let ((b, t), n) = crate::passes::casts::cast_blocks(
            bbs,
            s.types,
            s.demands,
            0,
            next,
        )->Some_0;
        analysis_settles(b, succs, rets, t, n, (rounds - 1) as nat)
    }
}

proof fn resolved_from_at(insts: Seq<MInstView>, types: TypesView, i: int, k: int)
    requires
        0 <= i <= insts.len(),
        resolved_from(insts, types, i) is Some,
    ensures
        resolved_from(insts, types, i)->Some_0.len() == insts.len() - i,
        i <= k < insts.len() ==> resolved(insts[k], types) == Some(
            resolved_from(insts, types, i)->Some_0[k - i],
        ),
    decreases insts.len() - i,
{
    if i < insts.len() {
        resolved_from_at(insts, types, i + 1, k);
        let rest = resolved_from(insts, types, i + 1)->Some_0;
        let first = resolved(insts[i], types)->Some_0;
        if i < k < insts.len() {
            assert((seq![first] + rest)[k - i] == rest[k - (i + 1)]);
        }
    }
}

proof fn blocks_resolved_at(bbs: Seq<BBView>, types: TypesView, v: int, w: int)
    requires
        0 <= v <= bbs.len(),
        blocks_resolved(bbs, types, v) is Some,
    ensures
        ({
            let all = blocks_resolved(bbs, types, v)->Some_0;
            &&& all.len() == bbs.len() - v
            &&& v <= w < bbs.len() ==> {
                &&& all[w - v] == (BBView { inst: all[w - v].inst, ..bbs[w] })
                &&& resolved_from(bbs[w].inst, types, 0) == Some(all[w - v].inst)
            }
        }),
    decreases bbs.len() - v,
{
    if v < bbs.len() {
        blocks_resolved_at(bbs, types, v + 1, w);
        let rest = blocks_resolved(bbs, types, v + 1)->Some_0;
        let first = BBView {
            inst: resolved_from(bbs[v].inst, types, 0)->Some_0,
            ..bbs[v]
        };
        if v < w < bbs.len() {
            assert((seq![first] + rest)[w - v] == rest[w - (v + 1)]);
        }
    }
}

/// Resolution replaces every instruction of every block in its place, by its own
/// machine operation, and changes nothing else of the blocks.
pub proof fn resolution_keeps_places(
    bbs: Seq<BBView>,
    succs: Map<usize, Seq<usize>>,
    root: int,
    sig: SignatureView,
    defaults: Seq<Option<ir::Type>>,
    next: int,
    v: int,
    k: int,
)
    requires
        types_resolved(bbs, succs, root, sig, defaults, next) is Some,
    ensures
        ({
            let ((b, types), _) = typed(bbs, succs, root, sig, defaults, next)->Some_0;
            let after = types_resolved(bbs, succs, root, sig, defaults, next)->Some_0.0;
            &&& after.len() == b.len()
            &&& 0 <= v < b.len() ==> {
                &&& after[v] == (BBView { inst: after[v].inst, ..b[v] })
                &&& after[v].inst.len() == b[v].inst.len()
                &&& 0 <= k < b[v].inst.len() ==> resolved(b[v].inst[k], types) == Some(
                    after[v].inst[k],
                )
            }
        }),
{
    let ((b, types), _) = typed(bbs, succs, root, sig, defaults, next)->Some_0;
    blocks_resolved_at(b, types, 0, v);
    if 0 <= v < b.len() {
        resolved_from_at(b[v].inst, types, 0, k);
    }
}

/// The machine operations of a function compute the values of its typed
/// operations, whatever the operands are, under the types that the analysis finds.
pub proof fn functions_compute_the_same(
    bbs: Seq<BBView>,
    succs: Map<usize, Seq<usize>>,
    root: int,
    sig: SignatureView,
    defaults: Seq<Option<ir::Type>>,
    next: int,
    v: int,
    k: int,
    w: nat,
    values: Map<Reg, int>,
)
    requires
        types_resolved(bbs, succs, root, sig, defaults, next) is Some,
        ({
            let ((b, types), _) = typed(bbs, succs, root, sig, defaults, next)->Some_0;
            &&& 0 <= v < b.len()
            &&& 0 <= k < b[v].inst.len()
            &&& computable(b[v].inst[k], types, w, values)
        }),
    ensures
        ({
            let ((b, types), _) = typed(bbs, succs, root, sig, defaults, next)->Some_0;
            let after = types_resolved(bbs, succs, root, sig, defaults, next)->Some_0.0;
            machine_results(after[v].inst[k], types, w, values) == typed_results(
                b[v].inst[k],
                w,
                result_bits(b[v].inst[k], types, w),
                values,
            )
        }),
{
    resolution_keeps_places(bbs, succs, root, sig, defaults, next, v, k);
    let ((b, types), _) = typed(bbs, succs, root, sig, defaults, next)->Some_0;
    let seeds = seeded(TypesView { assigned: Map::empty(), defaults }, sig, bbs[root])->Some_0;
    let start = analysis_settles(
        bbs,
        succs,
        sig.rets,
        seeds,
        next,
        crate::passes::resolve::MAX_ROUNDS as nat,
    );
    reveal(both_phases);
    let s = phase(
        Known { types: start, demands: Seq::empty() },
        b,
        succs,
        sig.rets,
        false,
    )->Some_0;
    let t = phase(s, b, succs, sig.rets, true)->Some_0;
    assert(t.types == types);
    instructions_agree_with_types(s, b, succs, sig.rets, true, v, k);
    let at = Site {
        bb: v as usize,
        inst: k as usize,
        soft: true,
        rets: sig.rets,
        flows: crate::flow::block_flows(b, succs, v)->Some_0,
    };
    resolved_operations_compute_the_same(t, at, b[v].inst[k], w, values);
}

/// A constant or a load that is resolved defines the same register with the same
/// operands; its type is the register's, unsigned where only its size is known.
pub proof fn resolved_values_have_the_register_type(inst: MInstView, types: TypesView)
    requires
        resolved(inst, types) is Some,
        inst is Const || inst is Load || inst is LoadStack,
    ensures
        ({
            let r = resolved(inst, types)->Some_0;
            let (rd, ty) = match r {
                MInstOf::Const { rd, ty, .. } => (rd, ty),
                MInstOf::Load { rd, ty, .. } => (rd, ty),
                MInstOf::LoadStack { rd, ty, .. } => (rd, ty),
                _ => arbitrary(),
            };
            &&& inst is Const ==> r is Const && r->Const_imm == inst->Const_imm && rd
                == inst->Const_rd
            &&& inst is Load ==> r is Load && r->Load_rs == inst->Load_rs && r->Load_out
                == inst->Load_out && rd == inst->Load_rd
            &&& inst is LoadStack ==> r is LoadStack && r->LoadStack_idx == inst->LoadStack_idx && rd
                == inst->LoadStack_rd
            &&& ty is Known
            &&& types.get(rd).spec_refine(ty) == Some(ty)
            &&& types.get(rd) is Integer ==> ty.spec_is_unsigned_int()
        }),
{
}

/// Every other instruction is a machine operation already.
pub proof fn machine_operations_stay(inst: MInstView, types: TypesView)
    requires
        !(inst is BinaryAlu || inst is DoubleAlu || inst is IntCmp || inst is Resize || inst is Const
            || inst is Load || inst is LoadStack),
    ensures
        resolved(inst, types) == Some(inst),
{
}

} // verus!
