//! What each instruction tells of the types of its registers.
use crate::abi::{abi_param_to_isatype, is_machine_int, spec_abi_param_to_isatype};
use crate::flow::FlowEdge;
use crate::inst::{
    DoubleAluOp, MInst, MInstOf, MInstView, ResizeVariant, UnaryAluOp, QUEUE_CAPACITY,
};
use crate::ir::{AbiParam, IntCC, Signature, SignatureView};
use crate::isa;
use crate::isatype::{known_int, IsaType};
use crate::reg::{ArgPair, Reg};
use crate::typemap::{refine_progresses, unknown, TypeMap, TypesView};
use vstd::prelude::*;

verus! {

/// A demanded re-tag cast: for the instruction at position `inst` of block `bb`,
/// the register at the given slot must be re-tagged to the given type. Whether
/// the slot names a use or a def of the instruction decides where the re-tag
/// happens.
#[derive(Clone, Copy, PartialEq, Eq, Structural, Debug)]
pub struct Demand {
    pub bb: usize,
    pub inst: usize,
    pub slot: usize,
    pub reg: Reg,
    pub ty: IsaType,
}

/// What is known of the types, and the casts demanded so far.
#[verifier::ext_equal]
pub struct Known {
    pub types: TypesView,
    pub demands: Seq<Demand>,
}

/// What is known of the types, and the casts demanded so far.
pub struct Inference {
    pub types: TypeMap,
    pub demands: Vec<Demand>,
    /// Whether more is known of the types than at the base.
    pub dirty: bool,
    /// What was known of the types when `dirty` was last cleared.
    pub base: Ghost<TypesView>,
}

impl View for Inference {
    type V = Known;

    open spec fn view(&self) -> Known {
        Known { types: self.types@, demands: self.demands@ }
    }
}

/// Where an instruction stands and what is known around it.
#[verifier::ext_equal]
pub struct Site {
    /// The block.
    pub bb: usize,
    /// The position in the block.
    pub inst: usize,
    /// Whether best-effort unifications are made.
    pub soft: bool,
    /// The return values of the function.
    pub rets: Seq<AbiParam>,
    /// The registers passed to the successors with the parameters that receive
    /// them.
    pub flows: Seq<FlowEdge>,
}

/// A register is refined by a type; `None` where that contradicts what is known.
pub open spec fn assign(s: Known, r: Reg, ty: IsaType) -> Option<Known> {
    match s.types.get(r).spec_refine(ty) {
        Some(t) => Some(Known { types: s.types.set(r, t), ..s }),
        None => None,
    }
}

/// Whether a cast is demanded already.
pub open spec fn has_demand(ds: Seq<Demand>, bb: usize, inst: usize, slot: usize, reg: Reg) -> bool {
    exists|i: int|
        0 <= i < ds.len() && (#[trigger] ds[i]).bb == bb && ds[i].inst == inst && ds[i].slot == slot
            && ds[i].reg == reg
}

/// A cast is demanded, unless it is already.
pub open spec fn demand(s: Known, at: Site, slot: usize, reg: Reg, ty: IsaType) -> Known {
    if has_demand(s.demands, at.bb, at.inst, slot, reg) {
        s
    } else {
        Known {
            demands: s.demands.push(Demand { bb: at.bb, inst: at.inst, slot, reg, ty }),
            ..s
        }
    }
}

/// A register is refined by a type, or cast to it where that contradicts what is
/// known.
pub open spec fn assign_or_cast(s: Known, at: Site, slot: usize, r: Reg, ty: IsaType) -> Known {
    match assign(s, r, ty) {
        Some(t) => t,
        None => demand(s, at, slot, r, ty),
    }
}

/// An operand must have the given signedness: a conflicting one is cast.
pub open spec fn pin_use(s: Known, at: Site, slot: usize, r: Reg, signed: bool) -> Known {
    let t = s.types.get(r);
    if t.spec_is_int() {
        assign_or_cast(s, at, slot, r, known_int(t.spec_size_pow2(), signed))
    } else {
        s
    }
}

/// An output has the given signedness.
pub open spec fn pin_output(s: Known, r: Reg, signed: bool) -> Option<Known> {
    let t = s.types.get(r);
    if t.spec_is_int() {
        assign(s, r, known_int(t.spec_size_pow2(), signed))
    } else {
        Some(s)
    }
}

/// Two registers are refined by a type.
pub open spec fn assign2(s: Known, a: Reg, b: Reg, ty: IsaType) -> Option<Known> {
    match assign(s, a, ty) {
        Some(t) => assign(t, b, ty),
        None => None,
    }
}

/// Three registers are refined by a type.
pub open spec fn assign3(s: Known, a: Reg, b: Reg, c: Reg, ty: IsaType) -> Option<Known> {
    match assign2(s, a, b, ty) {
        Some(t) => assign(t, c, ty),
        None => None,
    }
}

/// What is known of two types that are the same.
pub open spec fn merge(a: Option<IsaType>, b: IsaType) -> Option<IsaType> {
    match a {
        Some(t) => t.spec_refine(b),
        None => None,
    }
}

/// The signedness with which a binary operation computes, once it is
/// determined: unsigned as soon as either operand is, signed if both are.
pub open spec fn effective_sign(t1: IsaType, t2: IsaType) -> Option<bool> {
    if t1.spec_is_unsigned_int() || t2.spec_is_unsigned_int() {
        Some(false)
    } else if t1.spec_is_signed_int() && t2.spec_is_signed_int() {
        Some(true)
    } else {
        None
    }
}

/// A wrapping operation: operands and result preferably agree. Where they do not,
/// the result carries the effective type of the operands.
#[verifier::opaque]
pub open spec fn infer_binary(s: Known, at: Site, rd: Reg, rs1: Reg, rs2: Reg) -> Option<Known> {
    let t1 = s.types.get(rs1);
    let t2 = s.types.get(rs2);
    let td = s.types.get(rd);
    if !at.soft {
        Some(s)
    } else {
        match merge(t1.spec_refine(t2), td) {
            Some(t) => assign3(s, rs1, rs2, rd, t),
            None => match effective_sign(t1, t2) {
                Some(sign) => if t1.spec_is_int() {
                    match td.spec_refine(known_int(t1.spec_size_pow2(), sign)) {
                        Some(t) => assign(s, rd, t),
                        None => Some(demand(s, at, 0, rd, td)),
                    }
                } else {
                    Some(s)
                },
                None => Some(s),
            },
        }
    }
}

/// The signedness that an operation with two results requires of its operands.
pub open spec fn operand_pins(op: DoubleAluOp) -> (Option<bool>, Option<bool>) {
    match op {
        DoubleAluOp::SaddOverflow
        | DoubleAluOp::SsubOverflow
        | DoubleAluOp::SmulHi
        | DoubleAluOp::SdivRem => (Some(true), Some(true)),
        DoubleAluOp::UaddOverflow
        | DoubleAluOp::UsubOverflow
        | DoubleAluOp::UmulHi
        | DoubleAluOp::UdivRem => (Some(false), Some(false)),
        DoubleAluOp::Shl => (None, None),
        DoubleAluOp::Ushr => (Some(false), Some(true)),
        DoubleAluOp::Sshr => (Some(true), Some(true)),
    }
}

/// An operand with an optional required signedness.
pub open spec fn pin_maybe(s: Known, at: Site, slot: usize, r: Reg, pin: Option<bool>) -> Known {
    match pin {
        Some(signed) => pin_use(s, at, slot, r, signed),
        None => s,
    }
}

/// What a left shift tells: its value and its result have one type, the value
/// being cast where they conflict.
pub open spec fn infer_shl(s: Known, at: Site, rdl: Reg, rs1: Reg) -> Option<Known> {
    let t1 = s.types.get(rs1);
    let td = s.types.get(rdl);
    if t1.spec_is_int() && td.spec_is_int() {
        match t1.spec_refine(td) {
            Some(t) => assign2(s, rs1, rdl, t),
            None => Some(
                demand(
                    s,
                    at,
                    0,
                    rs1,
                    known_int(t1.spec_size_pow2(), td.spec_is_signed_int()),
                ),
            ),
        }
    } else {
        Some(s)
    }
}

/// An operation with two results: the machine picks the operation from the
/// operands' runtime types.
#[verifier::opaque]
pub open spec fn infer_double(
    s: Known,
    at: Site,
    op: DoubleAluOp,
    rdl: Reg,
    rdh: Reg,
    rs1: Reg,
    rs2: Reg,
) -> Option<Known> {
    let (pin1, pin2) = operand_pins(op);
    let signed = pin1 == Some(true);
    let u = pin_maybe(pin_maybe(s, at, 0, rs1, pin1), at, 1, rs2, pin2);
    match op {
        DoubleAluOp::SaddOverflow
        | DoubleAluOp::UaddOverflow
        | DoubleAluOp::UsubOverflow
        | DoubleAluOp::SsubOverflow
        | DoubleAluOp::Ushr
        | DoubleAluOp::Sshr => pin_output(u, rdl, signed),
        DoubleAluOp::UmulHi | DoubleAluOp::SmulHi => pin_output(u, rdh, signed),
        DoubleAluOp::UdivRem | DoubleAluOp::SdivRem => match pin_output(u, rdl, signed) {
            // The remainder is never negative.
            Some(t) => pin_output(t, rdh, false),
            None => None,
        },
        DoubleAluOp::Shl => infer_shl(u, at, rdl, rs1),
    }
}

/// Two registers preferably have one type.
#[verifier::opaque]
pub open spec fn prefer2(s: Known, a: Reg, b: Reg) -> Option<Known> {
    match s.types.get(a).spec_refine(s.types.get(b)) {
        Some(t) => assign2(s, a, b, t),
        None => Some(s),
    }
}

/// Three registers preferably have one type.
#[verifier::opaque]
pub open spec fn prefer3(s: Known, a: Reg, b: Reg, c: Reg) -> Option<Known> {
    match merge(s.types.get(a).spec_refine(s.types.get(b)), s.types.get(c)) {
        Some(t) => assign3(s, a, b, c, t),
        None => Some(s),
    }
}

/// Two registers have one type.
pub open spec fn same2(s: Known, a: Reg, b: Reg) -> Option<Known> {
    match s.types.get(a).spec_refine(s.types.get(b)) {
        Some(t) => assign2(s, a, b, t),
        None => None,
    }
}

/// The signedness that a comparison requires; equality compares bits only.
pub open spec fn required_sign(cc: IntCC) -> Option<bool> {
    match cc {
        IntCC::UnsignedGreaterThan
        | IntCC::UnsignedLessThan
        | IntCC::UnsignedGreaterThanOrEqual
        | IntCC::UnsignedLessThanOrEqual => Some(false),
        IntCC::SignedGreaterThan
        | IntCC::SignedLessThan
        | IntCC::SignedGreaterThanOrEqual
        | IntCC::SignedLessThanOrEqual => Some(true),
        IntCC::Equal | IntCC::NotEqual => None,
    }
}

/// The type of a boolean.
pub open spec fn boolean_type() -> IsaType {
    IsaType::Known(isa::Type::Uint(0))
}

/// The type of an address.
pub open spec fn address_type() -> IsaType {
    IsaType::Known(isa::Type::Uint(2))
}

/// A comparison: the result is a boolean, and the operands have the signedness
/// of the comparison.
#[verifier::opaque]
pub open spec fn infer_compare(s: Known, at: Site, cc: IntCC, rd: Reg, rs1: Reg, rs2: Reg) -> Option<
    Known,
> {
    match assign(s, rd, boolean_type()) {
        None => None,
        Some(u) => match required_sign(cc) {
            Some(sign) => Some(pin_use(pin_use(u, at, 0, rs1, sign), at, 1, rs2, sign)),
            None => if at.soft {
                prefer2(u, rs1, rs2)
            } else {
                Some(u)
            },
        },
    }
}

/// An extension: the machine picks it from the input's type; that the output has
/// the same signedness is a preference.
#[verifier::opaque]
pub open spec fn infer_extend(s: Known, at: Site, sign: bool, rd: Reg, rs: Reg) -> Option<Known> {
    let rd_t = s.types.get(rd);
    let u = pin_use(s, at, 0, rs, sign);
    if at.soft && rd_t.spec_is_int() {
        match rd_t.spec_refine(known_int(rd_t.spec_size_pow2(), sign)) {
            Some(t) => assign(u, rd, t),
            None => Some(u),
        }
    } else {
        Some(u)
    }
}

/// A reduction: input and output have the same signedness.
#[verifier::opaque]
pub open spec fn infer_reduce(s: Known, rd: Reg, rs: Reg) -> Option<Known> {
    let rs_t = s.types.get(rs);
    let rd_t = s.types.get(rd);
    if rs_t is Known && rd_t is Known {
        if rs_t.spec_is_signed_int() == rd_t.spec_is_signed_int() {
            Some(s)
        } else {
            None
        }
    } else if rs_t is Known || rd_t is Known {
        let sign = rs_t.spec_is_signed_int() || rd_t.spec_is_signed_int();
        let u = if rs_t.spec_is_int() {
            assign(s, rs, known_int(rs_t.spec_size_pow2(), sign))
        } else {
            Some(s)
        };
        match u {
            None => None,
            Some(u) => if rd_t.spec_is_int() {
                assign(u, rd, known_int(rd_t.spec_size_pow2(), sign))
            } else {
                Some(u)
            },
        }
    } else {
        Some(s)
    }
}

/// One output of an echo has the type of its input, or is cast to its own.
pub open spec fn infer_echo_one(s: Known, at: Site, slot: usize, rd: Reg, rs: Reg) -> Option<Known> {
    match s.types.get(rs).spec_refine(s.types.get(rd)) {
        Some(t) => assign2(s, rs, rd, t),
        None => Some(demand(s, at, slot, rd, s.types.get(rd))),
    }
}

/// The outputs of an echo from `k` on.
pub open spec fn infer_echo(s: Known, at: Site, rds: Seq<Reg>, rss: Seq<Reg>, k: int) -> Option<Known>
    decreases rss.len() - k,
{
    if k >= rss.len() {
        Some(s)
    } else {
        match infer_echo_one(s, at, k as usize, rds[k], rss[k]) {
            Some(t) => infer_echo(t, at, rds, rss, k + 1),
            None => None,
        }
    }
}

/// Registers from `k` on have the types of the values they stand for.
pub open spec fn infer_results(s: Known, pairs: Seq<ArgPair>, values: Seq<AbiParam>, k: int) -> Option<
    Known,
>
    decreases pairs.len() - k,
{
    if k >= pairs.len() {
        Some(s)
    } else if !is_machine_int(values[k].value_type) {
        None
    } else {
        match assign(s, pairs[k].vreg, spec_abi_param_to_isatype(values[k])) {
            Some(t) => infer_results(t, pairs, values, k + 1),
            None => None,
        }
    }
}

/// Registers from `k` on are passed as the given values: a conflicting one is
/// cast.
pub open spec fn infer_passed(
    s: Known,
    at: Site,
    pairs: Seq<ArgPair>,
    values: Seq<AbiParam>,
    k: int,
) -> Option<Known>
    decreases pairs.len() - k,
{
    if k >= pairs.len() {
        Some(s)
    } else if !is_machine_int(values[k].value_type) {
        None
    } else {
        infer_passed(
            assign_or_cast(s, at, k as usize, pairs[k].vreg, spec_abi_param_to_isatype(values[k])),
            at,
            pairs,
            values,
            k + 1,
        )
    }
}

/// How many of a list's values are passed as operands.
pub open spec fn operand_count(values: Seq<AbiParam>) -> int {
    if values.len() < QUEUE_CAPACITY {
        values.len() as int
    } else {
        QUEUE_CAPACITY as int
    }
}

/// What is known of a register together with those it flows to or from, by the
/// flows from `k` on.
pub open spec fn shared_type(
    types: TypesView,
    flows: Seq<FlowEdge>,
    r: Reg,
    acc: IsaType,
    k: int,
) -> Option<IsaType>
    decreases flows.len() - k,
{
    if k >= flows.len() {
        Some(acc)
    } else if flows[k].out == r || flows[k].into == r {
        match merge(acc.spec_refine(types.get(flows[k].out)), types.get(flows[k].into)) {
            Some(t) => shared_type(types, flows, r, t, k + 1),
            None => None,
        }
    } else {
        shared_type(types, flows, r, acc, k + 1)
    }
}

/// The ends of the flows of a register, from `k` on, have the given type.
pub open spec fn spread_type(
    s: Known,
    flows: Seq<FlowEdge>,
    r: Reg,
    ty: IsaType,
    k: int,
) -> Option<Known>
    decreases flows.len() - k,
{
    if k >= flows.len() {
        Some(s)
    } else if flows[k].out == r || flows[k].into == r {
        match assign2(s, flows[k].out, flows[k].into, ty) {
            Some(t) => spread_type(t, flows, r, ty, k + 1),
            None => None,
        }
    } else {
        spread_type(s, flows, r, ty, k + 1)
    }
}

/// An argument passed to successors has the type of the parameters that receive
/// it.
pub open spec fn infer_flow(s: Known, at: Site, r: Reg) -> Option<Known> {
    match shared_type(s.types, at.flows, r, s.types.get(r), 0) {
        None => None,
        Some(t) => match assign(s, r, t) {
            Some(u) => spread_type(u, at.flows, r, t, 0),
            None => None,
        },
    }
}

/// The arguments of a trigger from `k` on.
pub open spec fn infer_trigger(s: Known, at: Site, args: Seq<Reg>, k: int) -> Option<Known>
    decreases args.len() - k,
{
    if k >= args.len() {
        Some(s)
    } else {
        match infer_flow(s, at, args[k]) {
            Some(t) => infer_trigger(t, at, args, k + 1),
            None => None,
        }
    }
}

/// A reorder forwards its inputs.
#[verifier::opaque]
pub open spec fn infer_reorder(s: Known, rd1: Reg, rd2: Reg, rs1: Reg, rs2: Reg) -> Option<Known> {
    match same2(s, rs1, rd1) {
        Some(t) => same2(t, rs2, rd2),
        None => None,
    }
}

/// Three registers have one type.
#[verifier::opaque]
pub open spec fn same3(s: Known, a: Reg, b: Reg, c: Reg) -> Option<Known> {
    match merge(s.types.get(a).spec_refine(s.types.get(b)), s.types.get(c)) {
        Some(t) => assign3(s, a, b, c, t),
        None => None,
    }
}

/// A call passes its operands as its signature has them and returns values of
/// its types.
#[verifier::opaque]
pub open spec fn infer_call(
    s: Known,
    at: Site,
    rets: Seq<ArgPair>,
    args: Seq<ArgPair>,
    sig: SignatureView,
) -> Option<Known> {
    if rets.len() != operand_count(sig.rets) || args.len() != operand_count(sig.params) {
        None
    } else {
        match infer_results(s, rets, sig.rets, 0) {
            Some(t) => infer_passed(t, at, args, sig.params, 0),
            None => None,
        }
    }
}

/// What an instruction tells of the types of its registers; `None` where that
/// contradicts what is known.
pub open spec fn infer(s: Known, at: Site, inst: MInstView) -> Option<Known> {
    match inst {
        MInstOf::BinaryAlu { rd, rs1, rs2, .. } => infer_binary(s, at, rd, rs1, rs2),
        MInstOf::DoubleAlu { op, rdl, rdh, rs1, rs2 } => infer_double(
            s,
            at,
            op,
            rdl,
            rdh,
            rs1,
            rs2,
        ),
        MInstOf::UnaryAlu { op, rd, rs, .. } => match op {
            // The negation is a boolean; the input is compared by bits.
            UnaryAluOp::LogNeg => assign(s, rd, boolean_type()),
            UnaryAluOp::BitNeg => if at.soft {
                prefer2(s, rs, rd)
            } else {
                Some(s)
            },
        },
        // The chosen value is forwarded with its own type.
        MInstOf::Pick { rd, if_zero, if_nonzero, .. } => if at.soft {
            prefer3(s, if_zero, if_nonzero, rd)
        } else {
            Some(s)
        },
        MInstOf::IntCmp { cc, rd, rs1, rs2 } => infer_compare(s, at, cc, rd, rs1, rs2),
        MInstOf::Resize { var, rd, rs } => match var {
            ResizeVariant::Uextend => infer_extend(s, at, false, rd, rs),
            ResizeVariant::Sextend => infer_extend(s, at, true, rd, rs),
            ResizeVariant::Reduce => infer_reduce(s, rd, rs),
        },
        MInstOf::Echo { rds, rss } => if rss.len() != 0 {
            if rds.len() != rss.len() {
                None
            } else {
                infer_echo(s, at, rds, rss, 0)
            }
        } else if rds.len() == 0 {
            None
        } else {
            Some(s)
        },
        MInstOf::Reorder { rd1, rd2, rs1, rs2, .. } => infer_reorder(s, rd1, rd2, rs1, rs2),
        MInstOf::Duplicate { rd1, rd2, rs, .. } => same3(s, rs, rd1, rd2),
        MInstOf::Load { rs, .. } => assign(s, rs, address_type()),
        MInstOf::SAddr { rd, .. } => assign(s, rd, address_type()),
        MInstOf::CallArgs { rets, args, sig, .. } => infer_call(s, at, rets, args, sig),
        MInstOf::Rets { rets } => if rets.len() != operand_count(at.rets) {
            None
        } else {
            infer_passed(s, at, rets, at.rets, 0)
        },
        MInstOf::JumpTrigger { args, .. } => infer_trigger(s, at, args, 0),
        _ => Some(s),
    }
}

/// Whether `t` knows what `s` does, or more.
pub open spec fn at_least(t: Known, s: Known) -> bool {
    t.types == s.types || unknown(t.types) < unknown(s.types)
}

/// Refining a register forgets nothing.
pub broadcast proof fn assign_progresses(s: Known, r: Reg, ty: IsaType)
    ensures
        #[trigger] assign(s, r, ty) matches Some(t) ==> at_least(t, s),
{
    refine_progresses(s.types, r, ty);
}

proof fn infer_echo_progresses(s: Known, at: Site, rds: Seq<Reg>, rss: Seq<Reg>, k: int)
    ensures
        infer_echo(s, at, rds, rss, k) matches Some(t) ==> at_least(t, s),
    decreases rss.len() - k,
{
    broadcast use assign_progresses;

    if k < rss.len() {
        if let Some(t) = infer_echo_one(s, at, k as usize, rds[k], rss[k]) {
            infer_echo_progresses(t, at, rds, rss, k + 1);
        }
    }
}

proof fn infer_results_progresses(s: Known, pairs: Seq<ArgPair>, values: Seq<AbiParam>, k: int)
    ensures
        infer_results(s, pairs, values, k) matches Some(t) ==> at_least(t, s),
    decreases pairs.len() - k,
{
    broadcast use assign_progresses;

    if k < pairs.len() {
        if let Some(t) = assign(s, pairs[k].vreg, spec_abi_param_to_isatype(values[k])) {
            infer_results_progresses(t, pairs, values, k + 1);
        }
    }
}

proof fn infer_passed_progresses(
    s: Known,
    at: Site,
    pairs: Seq<ArgPair>,
    values: Seq<AbiParam>,
    k: int,
)
    ensures
        infer_passed(s, at, pairs, values, k) matches Some(t) ==> at_least(t, s),
    decreases pairs.len() - k,
{
    broadcast use assign_progresses;

    if k < pairs.len() {
        let t = assign_or_cast(
            s,
            at,
            k as usize,
            pairs[k].vreg,
            spec_abi_param_to_isatype(values[k]),
        );
        infer_passed_progresses(t, at, pairs, values, k + 1);
    }
}

proof fn spread_type_progresses(s: Known, flows: Seq<FlowEdge>, r: Reg, ty: IsaType, k: int)
    ensures
        spread_type(s, flows, r, ty, k) matches Some(t) ==> at_least(t, s),
    decreases flows.len() - k,
{
    broadcast use assign_progresses;

    if k < flows.len() {
        if flows[k].out == r || flows[k].into == r {
            if let Some(t) = assign2(s, flows[k].out, flows[k].into, ty) {
                spread_type_progresses(t, flows, r, ty, k + 1);
            }
        } else {
            spread_type_progresses(s, flows, r, ty, k + 1);
        }
    }
}

proof fn infer_trigger_progresses(s: Known, at: Site, args: Seq<Reg>, k: int)
    ensures
        infer_trigger(s, at, args, k) matches Some(t) ==> at_least(t, s),
    decreases args.len() - k,
{
    broadcast use assign_progresses;

    if k < args.len() {
        if let Some(t) = infer_flow(s, at, args[k]) {
            let ty = shared_type(s.types, at.flows, args[k], s.types.get(args[k]), 0)->Some_0;
            let u = assign(s, args[k], ty)->Some_0;
            spread_type_progresses(u, at.flows, args[k], ty, 0);
            infer_trigger_progresses(t, at, args, k + 1);
        }
    }
}

proof fn infer_double_progresses(
    s: Known,
    at: Site,
    op: DoubleAluOp,
    rdl: Reg,
    rdh: Reg,
    rs1: Reg,
    rs2: Reg,
)
    ensures
        infer_double(s, at, op, rdl, rdh, rs1, rs2) matches Some(t) ==> at_least(t, s),
{
    broadcast use assign_progresses;

    reveal(infer_double);
    let (pin1, pin2) = operand_pins(op);
    let u = pin_maybe(s, at, 0, rs1, pin1);
    assert(at_least(u, s));
    let w = pin_maybe(u, at, 1, rs2, pin2);
    assert(at_least(w, u));
    let signed = pin1 == Some(true);
    if let Some(t) = pin_output(w, rdl, signed) {
        assert(at_least(t, w));
    }
}

proof fn infer_binary_progresses(s: Known, at: Site, rd: Reg, rs1: Reg, rs2: Reg)
    ensures
        infer_binary(s, at, rd, rs1, rs2) matches Some(t) ==> at_least(t, s),
{
    broadcast use assign_progresses;

    reveal(infer_binary);
}

/// An instruction never takes back what is known of the types.
#[verifier::rlimit(80)]
pub proof fn infer_progresses(s: Known, at: Site, inst: MInstView)
    ensures
        infer(s, at, inst) matches Some(t) ==> at_least(t, s),
{
    broadcast use assign_progresses;

    reveal(infer_compare);
    reveal(infer_extend);
    reveal(infer_reduce);
    reveal(infer_reorder);
    reveal(infer_call);
    reveal(prefer2);
    reveal(prefer3);
    reveal(same3);
    match inst {
        MInstOf::DoubleAlu { op, rdl, rdh, rs1, rs2 } => {
            infer_double_progresses(s, at, op, rdl, rdh, rs1, rs2);
        },
        MInstOf::BinaryAlu { rd, rs1, rs2, .. } => {
            infer_binary_progresses(s, at, rd, rs1, rs2);
        },
        MInstOf::Echo { rds, rss } => {
            infer_echo_progresses(s, at, rds, rss, 0);
        },
        MInstOf::CallArgs { rets, args, sig, .. } => {
            infer_results_progresses(s, rets, sig.rets, 0);
            if let Some(t) = infer_results(s, rets, sig.rets, 0) {
                infer_passed_progresses(t, at, args, sig.params, 0);
            }
        },
        MInstOf::Rets { rets } => {
            infer_passed_progresses(s, at, rets, at.rets, 0);
        },
        MInstOf::JumpTrigger { args, .. } => {
            infer_trigger_progresses(s, at, args, 0);
        },
        _ => {},
    }
}

/// Where an instruction stands and what is known around it.
pub struct Here<'a> {
    pub bb: usize,
    pub inst: usize,
    pub soft: bool,
    pub rets: &'a Vec<AbiParam>,
    pub flows: &'a Vec<FlowEdge>,
}

impl<'a> View for Here<'a> {
    type V = Site;

    open spec fn view(&self) -> Site {
        Site {
            bb: self.bb,
            inst: self.inst,
            soft: self.soft,
            rets: self.rets@,
            flows: self.flows@,
        }
    }
}

/// What is known of two types that are the same.
fn merge_types(a: Option<IsaType>, b: IsaType) -> (r: Option<IsaType>)
    ensures
        r == merge(a, b),
{
    match a {
        Some(t) => t.refine(b),
        None => None,
    }
}

impl Inference {
    /// The default types are ones of the machine, and `dirty` tells whether the
    /// types have changed since the base.
    pub open spec fn wf(&self) -> bool {
        &&& self.types.wf()
        &&& self.dirty ==> unknown(self.types@) < unknown(self.base@)
        &&& !self.dirty ==> self.types@ == self.base@
    }

    fn assign(&mut self, r: Reg, ty: IsaType) -> (ok: bool)
        requires
            old(self).wf(),
        ensures
            final(self).wf(),
            final(self).base == old(self).base,
            ok ==> assign(old(self)@, r, ty) == Some(final(self)@),
            !ok ==> assign(old(self)@, r, ty) is None && final(self)@ == old(self)@,
    {
        let t = self.types.get(r);
        match t.refine(ty) {
            Some(x) => {
                proof {
                    refine_progresses(self.types@, r, ty);
                }
                if self.types.update(r, x) {
                    self.dirty = true;
                }
                true
            },
            None => false,
        }
    }

    /// Records a demanded cast, ignoring duplicates.
    fn push_demand(&mut self, at: &Here, slot: usize, reg: Reg, ty: IsaType)
        requires
            old(self).wf(),
        ensures
            final(self).wf(),
            final(self).base == old(self).base,
            final(self)@ == demand(old(self)@, at@, slot, reg, ty),
    {
        for i in 0..self.demands.len()
            invariant
                self@ == old(self)@,
                self.wf(),
                self.base == old(self).base,
                forall|j: int|
                    0 <= j < i ==> !((#[trigger] self.demands@[j]).bb == at.bb
                        && self.demands@[j].inst == at.inst && self.demands@[j].slot == slot
                        && self.demands@[j].reg == reg),
        {
            let d = self.demands[i];
            if d.bb == at.bb && d.inst == at.inst && d.slot == slot && d.reg == reg {
                assert(self.demands@[i as int] == d);
                return;
            }
        }
        self.demands.push(Demand { bb: at.bb, inst: at.inst, slot, reg, ty });
    }

    fn assign_or_cast(&mut self, at: &Here, slot: usize, r: Reg, ty: IsaType)
        requires
            old(self).wf(),
        ensures
            final(self).wf(),
            final(self).base == old(self).base,
            final(self)@ == assign_or_cast(old(self)@, at@, slot, r, ty),
    {
        if !self.assign(r, ty) {
            self.push_demand(at, slot, r, ty);
        }
    }

    fn pin_use(&mut self, at: &Here, slot: usize, r: Reg, signed: bool)
        requires
            old(self).wf(),
        ensures
            final(self).wf(),
            final(self).base == old(self).base,
            final(self)@ == pin_use(old(self)@, at@, slot, r, signed),
    {
        let t = self.types.get(r);
        if t.is_int() {
            self.assign_or_cast(at, slot, r, IsaType::new_known_int(t.size_pow2(), signed));
        }
    }

    fn pin_output(&mut self, r: Reg, signed: bool) -> (ok: bool)
        requires
            old(self).wf(),
        ensures
            final(self).wf(),
            final(self).base == old(self).base,
            ok ==> pin_output(old(self)@, r, signed) == Some(final(self)@),
            !ok ==> pin_output(old(self)@, r, signed) is None,
    {
        let t = self.types.get(r);
        if t.is_int() {
            self.assign(r, IsaType::new_known_int(t.size_pow2(), signed))
        } else {
            true
        }
    }

    fn assign2(&mut self, a: Reg, b: Reg, ty: IsaType) -> (ok: bool)
        requires
            old(self).wf(),
        ensures
            final(self).wf(),
            final(self).base == old(self).base,
            ok ==> assign2(old(self)@, a, b, ty) == Some(final(self)@),
            !ok ==> assign2(old(self)@, a, b, ty) is None,
    {
        self.assign(a, ty) && self.assign(b, ty)
    }

    fn assign3(&mut self, a: Reg, b: Reg, c: Reg, ty: IsaType) -> (ok: bool)
        requires
            old(self).wf(),
        ensures
            final(self).wf(),
            final(self).base == old(self).base,
            ok ==> assign3(old(self)@, a, b, c, ty) == Some(final(self)@),
            !ok ==> assign3(old(self)@, a, b, c, ty) is None,
    {
        self.assign2(a, b, ty) && self.assign(c, ty)
    }

    fn infer_binary(&mut self, at: &Here, rd: Reg, rs1: Reg, rs2: Reg) -> (ok: bool)
        requires
            old(self).wf(),
        ensures
            final(self).wf(),
            final(self).base == old(self).base,
            ok ==> infer_binary(old(self)@, at@, rd, rs1, rs2) == Some(final(self)@),
            !ok ==> infer_binary(old(self)@, at@, rd, rs1, rs2) is None,
    {
        proof {
            reveal(infer_binary);
        }
        if !at.soft {
            return true;
        }
        let t1 = self.types.get(rs1);
        let t2 = self.types.get(rs2);
        let td = self.types.get(rd);
        match merge_types(t1.refine(t2), td) {
            Some(t) => self.assign3(rs1, rs2, rd, t),
            None => {
                let sign: Option<bool> = if t1.is_unsigned_int() || t2.is_unsigned_int() {
                    Some(false)
                } else if t1.is_signed_int() && t2.is_signed_int() {
                    Some(true)
                } else {
                    None
                };
                match sign {
                    Some(sign) => {
                        if t1.is_int() {
                            match td.refine(IsaType::new_known_int(t1.size_pow2(), sign)) {
                                Some(t) => self.assign(rd, t),
                                None => {
                                    self.push_demand(at, 0, rd, td);
                                    true
                                },
                            }
                        } else {
                            true
                        }
                    },
                    None => true,
                }
            },
        }
    }

    fn infer_shl(&mut self, at: &Here, rdl: Reg, rs1: Reg) -> (ok: bool)
        requires
            old(self).wf(),
        ensures
            final(self).wf(),
            final(self).base == old(self).base,
            ok ==> infer_shl(old(self)@, at@, rdl, rs1) == Some(final(self)@),
            !ok ==> infer_shl(old(self)@, at@, rdl, rs1) is None,
    {
        let t1 = self.types.get(rs1);
        let td = self.types.get(rdl);
        if t1.is_int() && td.is_int() {
            match t1.refine(td) {
                Some(t) => self.assign2(rs1, rdl, t),
                None => {
                    let ty = IsaType::new_known_int(t1.size_pow2(), td.is_signed_int());
                    self.push_demand(at, 0, rs1, ty);
                    true
                },
            }
        } else {
            true
        }
    }

    fn infer_double(
        &mut self,
        at: &Here,
        op: DoubleAluOp,
        rdl: Reg,
        rdh: Reg,
        rs1: Reg,
        rs2: Reg,
    ) -> (ok: bool)
        requires
            old(self).wf(),
        ensures
            final(self).wf(),
            final(self).base == old(self).base,
            ok ==> infer_double(old(self)@, at@, op, rdl, rdh, rs1, rs2) == Some(final(self)@),
            !ok ==> infer_double(old(self)@, at@, op, rdl, rdh, rs1, rs2) is None,
    {
        proof {
            reveal(infer_double);
        }
        let pins: (Option<bool>, Option<bool>) = match op {
            DoubleAluOp::SaddOverflow
            | DoubleAluOp::SsubOverflow
            | DoubleAluOp::SmulHi
            | DoubleAluOp::SdivRem => (Some(true), Some(true)),
            DoubleAluOp::UaddOverflow
            | DoubleAluOp::UsubOverflow
            | DoubleAluOp::UmulHi
            | DoubleAluOp::UdivRem => (Some(false), Some(false)),
            DoubleAluOp::Shl => (None, None),
            DoubleAluOp::Ushr => (Some(false), Some(true)),
            DoubleAluOp::Sshr => (Some(true), Some(true)),
        };
        let signed: bool = match pins.0 {
            Some(signed) => signed,
            None => false,
        };
        match pins.0 {
            Some(signed) => {
                self.pin_use(at, 0, rs1, signed);
            },
            None => {},
        }
        match pins.1 {
            Some(signed) => {
                self.pin_use(at, 1, rs2, signed);
            },
            None => {},
        }
        match op {
            DoubleAluOp::SaddOverflow
            | DoubleAluOp::UaddOverflow
            | DoubleAluOp::UsubOverflow
            | DoubleAluOp::SsubOverflow
            | DoubleAluOp::Ushr
            | DoubleAluOp::Sshr => self.pin_output(rdl, signed),
            DoubleAluOp::UmulHi | DoubleAluOp::SmulHi => self.pin_output(rdh, signed),
            DoubleAluOp::UdivRem | DoubleAluOp::SdivRem => self.pin_output(rdl, signed)
                && self.pin_output(rdh, false),
            DoubleAluOp::Shl => self.infer_shl(at, rdl, rs1),
        }
    }

    fn prefer2(&mut self, a: Reg, b: Reg) -> (ok: bool)
        requires
            old(self).wf(),
        ensures
            final(self).wf(),
            final(self).base == old(self).base,
            ok ==> prefer2(old(self)@, a, b) == Some(final(self)@),
            !ok ==> prefer2(old(self)@, a, b) is None,
    {
        proof {
            reveal(prefer2);
        }
        let ta = self.types.get(a);
        let tb = self.types.get(b);
        match ta.refine(tb) {
            Some(t) => self.assign2(a, b, t),
            None => true,
        }
    }

    fn same2(&mut self, a: Reg, b: Reg) -> (ok: bool)
        requires
            old(self).wf(),
        ensures
            final(self).wf(),
            final(self).base == old(self).base,
            ok ==> same2(old(self)@, a, b) == Some(final(self)@),
            !ok ==> same2(old(self)@, a, b) is None,
    {
        let ta = self.types.get(a);
        let tb = self.types.get(b);
        match ta.refine(tb) {
            Some(t) => self.assign2(a, b, t),
            None => false,
        }
    }

    fn prefer3(&mut self, a: Reg, b: Reg, c: Reg) -> (ok: bool)
        requires
            old(self).wf(),
        ensures
            final(self).wf(),
            final(self).base == old(self).base,
            ok ==> prefer3(old(self)@, a, b, c) == Some(final(self)@),
            !ok ==> prefer3(old(self)@, a, b, c) is None,
    {
        proof {
            reveal(prefer3);
        }
        let ta = self.types.get(a);
        let tb = self.types.get(b);
        let tc = self.types.get(c);
        match merge_types(ta.refine(tb), tc) {
            Some(t) => self.assign3(a, b, c, t),
            None => true,
        }
    }

    fn same3(&mut self, a: Reg, b: Reg, c: Reg) -> (ok: bool)
        requires
            old(self).wf(),
        ensures
            final(self).wf(),
            final(self).base == old(self).base,
            ok ==> same3(old(self)@, a, b, c) == Some(final(self)@),
            !ok ==> same3(old(self)@, a, b, c) is None,
    {
        proof {
            reveal(same3);
        }
        let ta = self.types.get(a);
        let tb = self.types.get(b);
        let tc = self.types.get(c);
        match merge_types(ta.refine(tb), tc) {
            Some(t) => self.assign3(a, b, c, t),
            None => false,
        }
    }

    fn infer_reorder(&mut self, rd1: Reg, rd2: Reg, rs1: Reg, rs2: Reg) -> (ok: bool)
        requires
            old(self).wf(),
        ensures
            final(self).wf(),
            final(self).base == old(self).base,
            ok ==> infer_reorder(old(self)@, rd1, rd2, rs1, rs2) == Some(final(self)@),
            !ok ==> infer_reorder(old(self)@, rd1, rd2, rs1, rs2) is None,
    {
        proof {
            reveal(infer_reorder);
        }
        self.same2(rs1, rd1) && self.same2(rs2, rd2)
    }

    fn infer_call(
        &mut self,
        at: &Here,
        rets: &Vec<ArgPair>,
        args: &Vec<ArgPair>,
        sig: &Signature,
    ) -> (ok: bool)
        requires
            old(self).wf(),
        ensures
            final(self).wf(),
            final(self).base == old(self).base,
            ok ==> infer_call(old(self)@, at@, rets@, args@, sig@) == Some(final(self)@),
            !ok ==> infer_call(old(self)@, at@, rets@, args@, sig@) is None,
    {
        proof {
            reveal(infer_call);
        }
        if rets.len() != passed_count(&sig.rets) || args.len() != passed_count(&sig.params) {
            false
        } else {
            self.infer_results(rets, &sig.rets) && self.infer_passed(at, args, &sig.params)
        }
    }

    fn infer_compare(&mut self, at: &Here, cc: IntCC, rd: Reg, rs1: Reg, rs2: Reg) -> (ok: bool)
        requires
            old(self).wf(),
        ensures
            final(self).wf(),
            final(self).base == old(self).base,
            ok ==> infer_compare(old(self)@, at@, cc, rd, rs1, rs2) == Some(final(self)@),
            !ok ==> infer_compare(old(self)@, at@, cc, rd, rs1, rs2) is None,
    {
        proof {
            reveal(infer_compare);
        }
        if !self.assign(rd, IsaType::Known(isa::Type::Uint(0))) {
            return false;
        }
        match cc {
            IntCC::UnsignedGreaterThan
            | IntCC::UnsignedLessThan
            | IntCC::UnsignedGreaterThanOrEqual
            | IntCC::UnsignedLessThanOrEqual => {
                self.pin_use(at, 0, rs1, false);
                self.pin_use(at, 1, rs2, false);
                true
            },
            IntCC::SignedGreaterThan
            | IntCC::SignedLessThan
            | IntCC::SignedGreaterThanOrEqual
            | IntCC::SignedLessThanOrEqual => {
                self.pin_use(at, 0, rs1, true);
                self.pin_use(at, 1, rs2, true);
                true
            },
            IntCC::Equal | IntCC::NotEqual => {
                if at.soft {
                    self.prefer2(rs1, rs2)
                } else {
                    true
                }
            },
        }
    }

    fn infer_extend(&mut self, at: &Here, sign: bool, rd: Reg, rs: Reg) -> (ok: bool)
        requires
            old(self).wf(),
        ensures
            final(self).wf(),
            final(self).base == old(self).base,
            ok ==> infer_extend(old(self)@, at@, sign, rd, rs) == Some(final(self)@),
            !ok ==> infer_extend(old(self)@, at@, sign, rd, rs) is None,
    {
        proof {
            reveal(infer_extend);
        }
        let rd_t = self.types.get(rd);
        self.pin_use(at, 0, rs, sign);
        if at.soft && rd_t.is_int() {
            match rd_t.refine(IsaType::new_known_int(rd_t.size_pow2(), sign)) {
                Some(t) => self.assign(rd, t),
                None => true,
            }
        } else {
            true
        }
    }

    fn infer_reduce(&mut self, rd: Reg, rs: Reg) -> (ok: bool)
        requires
            old(self).wf(),
        ensures
            final(self).wf(),
            final(self).base == old(self).base,
            ok ==> infer_reduce(old(self)@, rd, rs) == Some(final(self)@),
            !ok ==> infer_reduce(old(self)@, rd, rs) is None,
    {
        proof {
            reveal(infer_reduce);
        }
        let rs_t = self.types.get(rs);
        let rd_t = self.types.get(rd);
        if rs_t.is_same_signedness(&rd_t) {
            true
        } else if rs_t.is_known() && rd_t.is_known() {
            false
        } else if rs_t.is_known() || rd_t.is_known() {
            let sign: bool = rs_t.is_signed_int() || rd_t.is_signed_int();
            if rs_t.is_int() {
                if !self.assign(rs, IsaType::new_known_int(rs_t.size_pow2(), sign)) {
                    return false;
                }
            }
            if rd_t.is_int() {
                self.assign(rd, IsaType::new_known_int(rd_t.size_pow2(), sign))
            } else {
                true
            }
        } else {
            true
        }
    }

    fn infer_echo(&mut self, at: &Here, rds: &Vec<Reg>, rss: &Vec<Reg>) -> (ok: bool)
        requires
            old(self).wf(),
            rds@.len() == rss@.len(),
        ensures
            final(self).wf(),
            final(self).base == old(self).base,
            ok ==> infer_echo(old(self)@, at@, rds@, rss@, 0) == Some(final(self)@),
            !ok ==> infer_echo(old(self)@, at@, rds@, rss@, 0) is None,
    {
        let ghost whole = infer_echo(self@, at@, rds@, rss@, 0);
        for k in 0..rss.len()
            invariant
                self.wf(),
                self.base == old(self).base,
                rds@.len() == rss@.len(),
                whole == infer_echo(old(self)@, at@, rds@, rss@, 0),
                whole == infer_echo(self@, at@, rds@, rss@, k as int),
        {
            let rs = rss[k];
            let rd = rds[k];
            let ts = self.types.get(rs);
            let td = self.types.get(rd);
            match ts.refine(td) {
                Some(t) => {
                    if !self.assign2(rs, rd, t) {
                        return false;
                    }
                },
                None => {
                    self.push_demand(at, k, rd, td);
                },
            }
        }
        true
    }

    fn infer_results(&mut self, pairs: &Vec<ArgPair>, values: &Vec<AbiParam>) -> (ok: bool)
        requires
            old(self).wf(),
            pairs@.len() <= values@.len(),
        ensures
            final(self).wf(),
            final(self).base == old(self).base,
            ok ==> infer_results(old(self)@, pairs@, values@, 0) == Some(final(self)@),
            !ok ==> infer_results(old(self)@, pairs@, values@, 0) is None,
    {
        let ghost whole = infer_results(self@, pairs@, values@, 0);
        for k in 0..pairs.len()
            invariant
                self.wf(),
                self.base == old(self).base,
                pairs@.len() <= values@.len(),
                whole == infer_results(old(self)@, pairs@, values@, 0),
                whole == infer_results(self@, pairs@, values@, k as int),
        {
            if !has_registers(values[k].value_type) {
                return false;
            }
            let ty = abi_param_to_isatype(&values[k]);
            if !self.assign(pairs[k].vreg, ty) {
                return false;
            }
        }
        true
    }

    fn infer_passed(&mut self, at: &Here, pairs: &Vec<ArgPair>, values: &Vec<AbiParam>) -> (ok: bool)
        requires
            old(self).wf(),
            pairs@.len() <= values@.len(),
        ensures
            final(self).wf(),
            final(self).base == old(self).base,
            ok ==> infer_passed(old(self)@, at@, pairs@, values@, 0) == Some(final(self)@),
            !ok ==> infer_passed(old(self)@, at@, pairs@, values@, 0) is None,
    {
        let ghost whole = infer_passed(self@, at@, pairs@, values@, 0);
        for k in 0..pairs.len()
            invariant
                self.wf(),
                self.base == old(self).base,
                pairs@.len() <= values@.len(),
                whole == infer_passed(old(self)@, at@, pairs@, values@, 0),
                whole == infer_passed(self@, at@, pairs@, values@, k as int),
        {
            if !has_registers(values[k].value_type) {
                return false;
            }
            let ty = abi_param_to_isatype(&values[k]);
            self.assign_or_cast(at, k, pairs[k].vreg, ty);
        }
        true
    }

    fn infer_flow(&mut self, at: &Here, r: Reg) -> (ok: bool)
        requires
            old(self).wf(),
        ensures
            final(self).wf(),
            final(self).base == old(self).base,
            ok ==> infer_flow(old(self)@, at@, r) == Some(final(self)@),
            !ok ==> infer_flow(old(self)@, at@, r) is None,
    {
        let ghost s = self@;
        let ghost flows = at.flows@;
        let mut acc = self.types.get(r);
        let ghost shared = shared_type(s.types, flows, r, acc, 0);
        for k in 0..at.flows.len()
            invariant
                self.wf(),
                self.base == old(self).base,
                self@ == s,
                s == old(self)@,
                flows == at.flows@,
                shared == shared_type(s.types, flows, r, s.types.get(r), 0),
                shared == shared_type(s.types, flows, r, acc, k as int),
        {
            let FlowEdge { out, into, .. } = at.flows[k];
            if out == r || into == r {
                let t_out = self.types.get(out);
                let t_into = self.types.get(into);
                match merge_types(acc.refine(t_out), t_into) {
                    Some(t) => {
                        acc = t;
                    },
                    None => {
                        return false;
                    },
                }
            }
        }
        if !self.assign(r, acc) {
            return false;
        }
        let ghost u = self@;
        let ghost whole = spread_type(u, flows, r, acc, 0);
        for k in 0..at.flows.len()
            invariant
                self.wf(),
                self.base == old(self).base,
                flows == at.flows@,
                s == old(self)@,
                assign(s, r, acc) == Some(u),
                shared_type(s.types, flows, r, s.types.get(r), 0) == Some(acc),
                whole == spread_type(u, flows, r, acc, 0),
                whole == spread_type(self@, flows, r, acc, k as int),
        {
            let FlowEdge { out, into, .. } = at.flows[k];
            if out == r || into == r {
                if !self.assign2(out, into, acc) {
                    return false;
                }
            }
        }
        true
    }

    fn infer_trigger(&mut self, at: &Here, args: &Vec<Reg>) -> (ok: bool)
        requires
            old(self).wf(),
        ensures
            final(self).wf(),
            final(self).base == old(self).base,
            ok ==> infer_trigger(old(self)@, at@, args@, 0) == Some(final(self)@),
            !ok ==> infer_trigger(old(self)@, at@, args@, 0) is None,
    {
        let ghost whole = infer_trigger(self@, at@, args@, 0);
        for k in 0..args.len()
            invariant
                self.wf(),
                self.base == old(self).base,
                whole == infer_trigger(old(self)@, at@, args@, 0),
                whole == infer_trigger(self@, at@, args@, k as int),
        {
            if !self.infer_flow(at, args[k]) {
                return false;
            }
        }
        true
    }

    /// Takes note of what an instruction tells of the types of its registers.
    /// Returns whether that agrees with what is known.
    #[verifier::spinoff_prover]
    #[verifier::rlimit(100)]
    pub fn infer(&mut self, at: &Here, inst: &MInst) -> (ok: bool)
        requires
            old(self).wf(),
        ensures
            final(self).wf(),
            final(self).base == old(self).base,
            ok ==> infer(old(self)@, at@, inst@) == Some(final(self)@),
            !ok ==> infer(old(self)@, at@, inst@) is None,
    {
        match inst {
            MInst::BinaryAlu { rd, rs1, rs2, .. } => self.infer_binary(at, *rd, *rs1, *rs2),
            MInst::DoubleAlu { op, rdl, rdh, rs1, rs2 } => self.infer_double(
                at,
                *op,
                *rdl,
                *rdh,
                *rs1,
                *rs2,
            ),
            MInst::UnaryAlu { op, rd, rs, .. } => match op {
                UnaryAluOp::LogNeg => self.assign(*rd, IsaType::Known(isa::Type::Uint(0))),
                UnaryAluOp::BitNeg => {
                    if at.soft {
                        self.prefer2(*rs, *rd)
                    } else {
                        true
                    }
                },
            },
            MInst::Pick { rd, if_zero, if_nonzero, .. } => {
                if at.soft {
                    self.prefer3(*if_zero, *if_nonzero, *rd)
                } else {
                    true
                }
            },
            MInst::IntCmp { cc, rd, rs1, rs2 } => self.infer_compare(at, *cc, *rd, *rs1, *rs2),
            MInst::Resize { var, rd, rs } => match var {
                ResizeVariant::Uextend => self.infer_extend(at, false, *rd, *rs),
                ResizeVariant::Sextend => self.infer_extend(at, true, *rd, *rs),
                ResizeVariant::Reduce => self.infer_reduce(*rd, *rs),
            },
            MInst::Echo { rds, rss } => {
                if rss.len() != 0 {
                    if rds.len() != rss.len() {
                        false
                    } else {
                        self.infer_echo(at, rds, rss)
                    }
                } else {
                    rds.len() != 0
                }
            },
            MInst::Reorder { rd1, rd2, rs1, rs2, .. } => self.infer_reorder(
                *rd1,
                *rd2,
                *rs1,
                *rs2,
            ),
            MInst::Duplicate { rd1, rd2, rs, .. } => self.same3(*rs, *rd1, *rd2),
            MInst::Load { rs, .. } => self.assign(*rs, IsaType::Known(isa::Type::Uint(2))),
            MInst::SAddr { rd, .. } => self.assign(*rd, IsaType::Known(isa::Type::Uint(2))),
            MInst::CallArgs { rets, args, sig, .. } => {
                self.infer_call(at, rets, args, sig)
            },
            MInst::Rets { rets } => {
                if rets.len() != passed_count(at.rets) {
                    false
                } else {
                    self.infer_passed(at, rets, at.rets)
                }
            },
            MInst::JumpTrigger { args, .. } => self.infer_trigger(at, args),
            _ => true,
        }
    }
}

/// Whether the machine has registers for a type.
pub fn has_registers(t: crate::ir::Type) -> (r: bool)
    ensures
        r == is_machine_int(t),
{
    match t {
        crate::ir::Type::I8
        | crate::ir::Type::I16
        | crate::ir::Type::I32
        | crate::ir::Type::I64 => true,
        _ => false,
    }
}

/// How many of a list's values are passed as operands.
pub fn passed_count(values: &Vec<AbiParam>) -> (r: usize)
    ensures
        r == operand_count(values@),
        r <= values@.len(),
        r <= QUEUE_CAPACITY,
{
    if values.len() < QUEUE_CAPACITY {
        values.len()
    } else {
        QUEUE_CAPACITY
    }
}

proof fn infer_echo_adds(s: Known, at: Site, rds: Seq<Reg>, rss: Seq<Reg>, k: int)
    ensures
        infer_echo(s, at, rds, rss, k) matches Some(t) ==> t.demands.len() >= s.demands.len(),
    decreases rss.len() - k,
{
    if k < rss.len() {
        if let Some(t) = infer_echo_one(s, at, k as usize, rds[k], rss[k]) {
            infer_echo_adds(t, at, rds, rss, k + 1);
        }
    }
}

proof fn infer_results_adds(s: Known, pairs: Seq<ArgPair>, values: Seq<AbiParam>, k: int)
    ensures
        infer_results(s, pairs, values, k) matches Some(t) ==> t.demands.len() >= s.demands.len(),
    decreases pairs.len() - k,
{
    if k < pairs.len() {
        if let Some(t) = assign(s, pairs[k].vreg, spec_abi_param_to_isatype(values[k])) {
            infer_results_adds(t, pairs, values, k + 1);
        }
    }
}

proof fn infer_passed_adds(
    s: Known,
    at: Site,
    pairs: Seq<ArgPair>,
    values: Seq<AbiParam>,
    k: int,
)
    ensures
        infer_passed(s, at, pairs, values, k) matches Some(t) ==> t.demands.len()
            >= s.demands.len(),
    decreases pairs.len() - k,
{
    if k < pairs.len() {
        let t = assign_or_cast(
            s,
            at,
            k as usize,
            pairs[k].vreg,
            spec_abi_param_to_isatype(values[k]),
        );
        infer_passed_adds(t, at, pairs, values, k + 1);
    }
}

proof fn spread_type_adds(s: Known, flows: Seq<FlowEdge>, r: Reg, ty: IsaType, k: int)
    ensures
        spread_type(s, flows, r, ty, k) matches Some(t) ==> t.demands.len() >= s.demands.len(),
    decreases flows.len() - k,
{
    if k < flows.len() {
        if flows[k].out == r || flows[k].into == r {
            if let Some(t) = assign2(s, flows[k].out, flows[k].into, ty) {
                spread_type_adds(t, flows, r, ty, k + 1);
            }
        } else {
            spread_type_adds(s, flows, r, ty, k + 1);
        }
    }
}

proof fn infer_trigger_adds(s: Known, at: Site, args: Seq<Reg>, k: int)
    ensures
        infer_trigger(s, at, args, k) matches Some(t) ==> t.demands.len() >= s.demands.len(),
    decreases args.len() - k,
{
    if k < args.len() {
        if let Some(t) = infer_flow(s, at, args[k]) {
            let ty = shared_type(s.types, at.flows, args[k], s.types.get(args[k]), 0)->Some_0;
            let u = assign(s, args[k], ty)->Some_0;
            spread_type_adds(u, at.flows, args[k], ty, 0);
            infer_trigger_adds(t, at, args, k + 1);
        }
    }
}

proof fn infer_binary_adds(s: Known, at: Site, rd: Reg, rs1: Reg, rs2: Reg)
    ensures
        infer_binary(s, at, rd, rs1, rs2) matches Some(t) ==> t.demands.len() >= s.demands.len(),
{
    reveal(infer_binary);
}

proof fn infer_double_adds(
    s: Known,
    at: Site,
    op: DoubleAluOp,
    rdl: Reg,
    rdh: Reg,
    rs1: Reg,
    rs2: Reg,
)
    ensures
        infer_double(s, at, op, rdl, rdh, rs1, rs2) matches Some(t) ==> t.demands.len()
            >= s.demands.len(),
{
    reveal(infer_double);
    let (pin1, pin2) = operand_pins(op);
    let u = pin_maybe(s, at, 0, rs1, pin1);
    assert(u.demands.len() >= s.demands.len());
    let w = pin_maybe(u, at, 1, rs2, pin2);
    assert(w.demands.len() >= u.demands.len());
}

proof fn infer_compare_adds(s: Known, at: Site, cc: IntCC, rd: Reg, rs1: Reg, rs2: Reg)
    ensures
        infer_compare(s, at, cc, rd, rs1, rs2) matches Some(t) ==> t.demands.len()
            >= s.demands.len(),
{
    reveal(infer_compare);
    reveal(prefer2);
    if let Some(u) = assign(s, rd, boolean_type()) {
        if let Some(sign) = required_sign(cc) {
            pin_use_progresses(u, at, 0, rs1, sign);
            pin_use_progresses(pin_use(u, at, 0, rs1, sign), at, 1, rs2, sign);
        }
    }
}

proof fn infer_resize_adds(s: Known, at: Site, sign: bool, rd: Reg, rs: Reg)
    ensures
        infer_extend(s, at, sign, rd, rs) matches Some(t) ==> t.demands.len() >= s.demands.len(),
        infer_reduce(s, rd, rs) matches Some(t) ==> t.demands.len() >= s.demands.len(),
{
    reveal(infer_extend);
    reveal(infer_reduce);
    pin_use_progresses(s, at, 0, rs, sign);
}

proof fn infer_merge_adds(s: Known, a: Reg, b: Reg, c: Reg, d: Reg)
    ensures
        prefer2(s, a, b) matches Some(t) ==> t.demands.len() >= s.demands.len(),
        prefer3(s, a, b, c) matches Some(t) ==> t.demands.len() >= s.demands.len(),
        same3(s, a, b, c) matches Some(t) ==> t.demands.len() >= s.demands.len(),
        infer_reorder(s, a, b, c, d) matches Some(t) ==> t.demands.len() >= s.demands.len(),
{
    reveal(prefer2);
    reveal(prefer3);
    reveal(same3);
    reveal(infer_reorder);
}

/// An instruction takes no demand back.
pub proof fn infer_adds_demands(s: Known, at: Site, inst: MInstView)
    ensures
        infer(s, at, inst) matches Some(t) ==> t.demands.len() >= s.demands.len(),
{
    match inst {
        MInstOf::BinaryAlu { rd, rs1, rs2, .. } => {
            infer_binary_adds(s, at, rd, rs1, rs2);
        },
        MInstOf::DoubleAlu { op, rdl, rdh, rs1, rs2 } => {
            infer_double_adds(s, at, op, rdl, rdh, rs1, rs2);
        },
        MInstOf::IntCmp { cc, rd, rs1, rs2 } => {
            infer_compare_adds(s, at, cc, rd, rs1, rs2);
        },
        MInstOf::Resize { rd, rs, .. } => {
            infer_resize_adds(s, at, true, rd, rs);
            infer_resize_adds(s, at, false, rd, rs);
        },
        MInstOf::UnaryAlu { rd, rs, .. } => {
            infer_merge_adds(s, rs, rd, rd, rd);
        },
        MInstOf::Pick { rd, if_zero, if_nonzero, .. } => {
            infer_merge_adds(s, if_zero, if_nonzero, rd, rd);
        },
        MInstOf::Duplicate { rd1, rd2, rs, .. } => {
            infer_merge_adds(s, rs, rd1, rd2, rs);
        },
        MInstOf::Reorder { rd1, rd2, rs1, rs2, .. } => {
            infer_merge_adds(s, rd1, rd2, rs1, rs2);
        },
        MInstOf::Echo { rds, rss } => {
            infer_echo_adds(s, at, rds, rss, 0);
        },
        MInstOf::CallArgs { rets, args, sig, .. } => {
            reveal(infer_call);
            infer_results_adds(s, rets, sig.rets, 0);
            if let Some(t) = infer_results(s, rets, sig.rets, 0) {
                infer_passed_adds(t, at, args, sig.params, 0);
            }
        },
        MInstOf::Rets { rets } => {
            infer_passed_adds(s, at, rets, at.rets, 0);
        },
        MInstOf::JumpTrigger { args, .. } => {
            infer_trigger_adds(s, at, args, 0);
        },
        _ => {},
    }
}

/// A pinned operand of an instruction that agrees with the types, without
/// demands, has the signedness that is required, if it has a type.
/// An operand that need not be cast to a signedness has it.
pub proof fn pinned_use_has_sign(s: Known, at: Site, slot: usize, r: Reg, signed: bool)
    requires
        s.demands.len() == 0,
        pin_use(s, at, slot, r, signed) == s,
    ensures
        s.types.get(r).spec_is_int() ==> s.types.get(r) == known_int(
            s.types.get(r).spec_size_pow2(),
            signed,
        ),
{
    let t = s.types.get(r);
    if t.spec_is_int() {
        let target = known_int(t.spec_size_pow2(), signed);
        match assign(s, r, target) {
            Some(u) => {
                let x = t.spec_refine(target)->Some_0;
                crate::typemap::set_changes_one(s.types, r, x, r);
                assert(s.types.get(r) == x);
            },
            None => {
                let u = demand(s, at, slot, r, target);
                assert(u.demands.len() == 1);
            },
        }
    }
}

/// The operands of an ordering comparison that agrees with the types, without
/// demands, have the comparison's signedness, and its result is a boolean.
pub proof fn comparison_operands_have_its_sign(
    s: Known,
    at: Site,
    cc: IntCC,
    rd: Reg,
    rs1: Reg,
    rs2: Reg,
)
    requires
        s.demands.len() == 0,
        infer(s, at, MInstOf::IntCmp { cc, rd, rs1, rs2 }) == Some(s),
        required_sign(cc) is Some,
    ensures
        s.types.get(rd) == boolean_type(),
        ({
            let sign = required_sign(cc)->Some_0;
            let t1 = s.types.get(rs1);
            let t2 = s.types.get(rs2);
            &&& t1.spec_is_int() ==> t1 == known_int(t1.spec_size_pow2(), sign)
            &&& t2.spec_is_int() ==> t2 == known_int(t2.spec_size_pow2(), sign)
        }),
{
    broadcast use assign_progresses;

    reveal(infer_compare);
    let sign = required_sign(cc)->Some_0;
    let u = assign(s, rd, boolean_type())->Some_0;
    let w = pin_use(u, at, 0, rs1, sign);
    let z = pin_use(w, at, 1, rs2, sign);
    assert(z == s);
    pin_use_progresses(u, at, 0, rs1, sign);
    pin_use_progresses(w, at, 1, rs2, sign);
    assert(u.demands.len() <= w.demands.len() <= z.demands.len());
    assert(u.demands =~= s.demands);
    assert(w.demands =~= s.demands);
    assert(u == s);
    assert(w == s);
    let x = s.types.get(rd).spec_refine(boolean_type())->Some_0;
    crate::typemap::set_changes_one(s.types, rd, x, rd);
    pinned_use_has_sign(s, at, 0, rs1, sign);
    pinned_use_has_sign(s, at, 1, rs2, sign);
}

/// Requiring a signedness of an operand forgets nothing.
pub proof fn pin_use_progresses(s: Known, at: Site, slot: usize, r: Reg, signed: bool)
    ensures
        at_least(pin_use(s, at, slot, r, signed), s),
        pin_use(s, at, slot, r, signed).demands.len() >= s.demands.len(),
{
    broadcast use assign_progresses;

}

/// The operand of an extension that agrees with the types, without demands, has
/// the extension's signedness.
pub proof fn extended_operand_has_its_sign(s: Known, at: Site, sign: bool, rd: Reg, rs: Reg)
    requires
        s.demands.len() == 0,
        infer(
            s,
            at,
            MInstOf::Resize {
                var: if sign {
                    ResizeVariant::Sextend
                } else {
                    ResizeVariant::Uextend
                },
                rd,
                rs,
            },
        ) == Some(s),
    ensures
        ({
            let t = s.types.get(rs);
            t.spec_is_int() ==> t == known_int(t.spec_size_pow2(), sign)
        }),
{
    broadcast use assign_progresses;

    reveal(infer_extend);
    let u = pin_use(s, at, 0, rs, sign);
    pin_use_progresses(s, at, 0, rs, sign);
    assert(u.demands =~= s.demands);
    assert(u == s);
    pinned_use_has_sign(s, at, 0, rs, sign);
}

} // verus!
