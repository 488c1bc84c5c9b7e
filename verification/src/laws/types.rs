//! The types that the analysis gives to registers.
use crate::abi::{
    arg_slot, is_machine_int, spec_abi_param_to_isatype, spec_type_to_isatype, stack_passed,
    stack_values_are_disjoint, value_offset, ABIArgSlot, ArgsOrRets,
};
use crate::bb::BBView;
use crate::flow::FlowEdge;
use crate::inst::{MInstOf, MInstView, UnaryAluOp, QUEUE_CAPACITY};
use crate::ir::{AbiParam, SignatureView, Type};
use crate::isa;
use crate::isatype::IsaType;
use crate::passes::infer::{
    assign, assign2, assign_or_cast, assign_progresses, at_least, infer, infer_call, infer_echo,
    infer_echo_one, infer_flow, infer_passed, infer_reorder, infer_results, infer_trigger, same2,
    same3, shared_type, spread_type, Known, Site,
};
use crate::passes::resolve::{seeded, seeded_load, seeded_loads, seeded_params};
use crate::reg::{ArgPair, Reg};
use crate::typemap::{set_changes_one, TypesView};
use vstd::arithmetic::power2::pow2;
use vstd::prelude::*;

verus! {

/// Whether a register of type `t` holds a value of type `want`: nothing that is
/// known of the one contradicts the other, and the one knows as much.
pub open spec fn holds_type(t: IsaType, want: IsaType) -> bool {
    match want {
        IsaType::Invalid => true,
        IsaType::Integer(size) => !(t is Invalid) && t.spec_size_pow2() == size,
        IsaType::Known(k) => t == IsaType::Known(k),
    }
}

proof fn assigned_holds(s: Known, r: Reg, ty: IsaType)
    requires
        assign(s, r, ty) == Some(s),
    ensures
        holds_type(s.types.get(r), ty),
{
    let x = s.types.get(r).spec_refine(ty)->Some_0;
    set_changes_one(s.types, r, x, r);
}

proof fn unchanged(s: Known, u: Known, t: Known)
    requires
        at_least(u, s),
        at_least(t, u),
        t.types == s.types,
        u.demands.len() >= s.demands.len(),
        t.demands.len() >= u.demands.len(),
        t.demands.len() == 0,
    ensures
        u == s,
{
    assert(u.demands =~= s.demands);
}

/// The type of a parameter has the size of its value, and the signedness by which
/// it is extended; without an extension, only its size is known.
pub proof fn parameter_types_have_their_size_and_sign(p: AbiParam)
    requires
        is_machine_int(p.value_type),
    ensures
        ({
            let t = spec_abi_param_to_isatype(p);
            &&& pow2(t.spec_size_pow2() as nat) == p.value_type.spec_bytes()
            &&& p.extension is Sext <==> t.spec_is_signed_int()
            &&& p.extension is Uext <==> t.spec_is_unsigned_int()
            &&& p.extension is NoExt <==> t is Integer
            &&& spec_type_to_isatype(p.value_type) is Integer
            &&& pow2(spec_type_to_isatype(p.value_type).spec_size_pow2() as nat)
                == p.value_type.spec_bytes()
        }),
{
    vstd::arithmetic::power2::lemma2_to64();
}

/// The bytes of the integer types.
pub proof fn integers_have_their_bytes(t: Type)
    ensures
        t is I8 ==> t.spec_bytes() == 1,
        t is I16 ==> t.spec_bytes() == 2,
        t is I32 ==> t.spec_bytes() == 4,
        t is I64 ==> t.spec_bytes() == 8,
{
}

/// A negation results in a boolean; what is loaded from and what is an address of
/// the frame have the type of addresses.
pub proof fn fixed_types_are_given(s: Known, at: Site, rd: Reg, rs: Reg, ty: IsaType, a: u16, b: u16)
    ensures
        infer(s, at, MInstOf::UnaryAlu { op: UnaryAluOp::LogNeg, rd, rs, out: a }) == Some(s)
            ==> s.types.get(rd) == IsaType::Known(isa::Type::Uint(0)),
        infer(s, at, MInstOf::Load { ty, rd, rs, out: a }) == Some(s) ==> s.types.get(rs)
            == IsaType::Known(isa::Type::Uint(2)),
        infer(s, at, MInstOf::SAddr { rd, scale_pow2: a, idx: b }) == Some(s) ==> s.types.get(rd)
            == IsaType::Known(isa::Type::Uint(2)),
{
    if infer(s, at, MInstOf::UnaryAlu { op: UnaryAluOp::LogNeg, rd, rs, out: a }) == Some(s) {
        assigned_holds(s, rd, crate::passes::infer::boolean_type());
    }
    if infer(s, at, MInstOf::Load { ty, rd, rs, out: a }) == Some(s) {
        assigned_holds(s, rs, crate::passes::infer::address_type());
    }
    if infer(s, at, MInstOf::SAddr { rd, scale_pow2: a, idx: b }) == Some(s) {
        assigned_holds(s, rd, crate::passes::infer::address_type());
    }
}

proof fn same_pair(s: Known, a: Reg, b: Reg)
    requires
        same2(s, a, b) == Some(s),
    ensures
        s.types.get(a) == s.types.get(b),
{
    broadcast use assign_progresses;

    let t = s.types.get(a).spec_refine(s.types.get(b))->Some_0;
    let u = assign(s, a, t)->Some_0;
    assert(at_least(s, u));
    assert(u == s);
    assigned_holds(s, a, t);
    assigned_holds(s, b, t);
}

/// Copies have the type of what they copy.
pub proof fn copies_have_one_type(
    s: Known,
    at: Site,
    rd1: Reg,
    rd2: Reg,
    rs1: Reg,
    rs2: Reg,
    a: u16,
    b: u16,
)
    ensures
        infer(s, at, MInstOf::Reorder { rd1, rd2, rs1, rs2, out: a }) == Some(s) ==> s.types.get(rd1)
            == s.types.get(rs1) && s.types.get(rd2) == s.types.get(rs2),
        infer(s, at, MInstOf::Duplicate { rd1, rd2, rs: rs1, out1: a, out2: b }) == Some(s)
            ==> s.types.get(rd1) == s.types.get(rs1) && s.types.get(rd2) == s.types.get(rs1),
{
    broadcast use assign_progresses;

    if infer(s, at, MInstOf::Reorder { rd1, rd2, rs1, rs2, out: a }) == Some(s) {
        reveal(infer_reorder);
        let t = same2(s, rs1, rd1)->Some_0;
        assert(at_least(t, s));
        assert(at_least(s, t));
        assert(t == s);
        same_pair(s, rs1, rd1);
        same_pair(s, rs2, rd2);
    }
    if infer(s, at, MInstOf::Duplicate { rd1, rd2, rs: rs1, out1: a, out2: b }) == Some(s) {
        reveal(same3);
        let t = crate::passes::infer::merge(
            s.types.get(rs1).spec_refine(s.types.get(rd1)),
            s.types.get(rd2),
        )->Some_0;
        let u = assign(s, rs1, t)->Some_0;
        let v = assign(u, rd1, t)->Some_0;
        assert(at_least(s, v) && at_least(v, u) && at_least(u, s));
        assert(u == s && v == s);
        assigned_holds(s, rs1, t);
        assigned_holds(s, rd1, t);
        assigned_holds(s, rd2, t);
    }
}

proof fn passed_progresses(s: Known, at: Site, pairs: Seq<ArgPair>, values: Seq<AbiParam>, k: int)
    ensures
        infer_passed(s, at, pairs, values, k) matches Some(t) ==> at_least(t, s) && t.demands.len()
            >= s.demands.len(),
    decreases pairs.len() - k,
{
    broadcast use assign_progresses;

    if k < pairs.len() {
        let u = assign_or_cast(
            s,
            at,
            k as usize,
            pairs[k].vreg,
            spec_abi_param_to_isatype(values[k]),
        );
        passed_progresses(u, at, pairs, values, k + 1);
    }
}

proof fn results_progress(s: Known, pairs: Seq<ArgPair>, values: Seq<AbiParam>, k: int)
    ensures
        infer_results(s, pairs, values, k) matches Some(t) ==> at_least(t, s) && t.demands
            == s.demands,
    decreases pairs.len() - k,
{
    broadcast use assign_progresses;

    if k < pairs.len() {
        if let Some(t) = assign(s, pairs[k].vreg, spec_abi_param_to_isatype(values[k])) {
            results_progress(t, pairs, values, k + 1);
        }
    }
}

proof fn passed_at(
    s: Known,
    at: Site,
    pairs: Seq<ArgPair>,
    values: Seq<AbiParam>,
    k: int,
    i: int,
)
    requires
        s.demands.len() == 0,
        infer_passed(s, at, pairs, values, k) == Some(s),
        0 <= k <= i < pairs.len(),
    ensures
        is_machine_int(values[i].value_type),
        holds_type(s.types.get(pairs[i].vreg), spec_abi_param_to_isatype(values[i])),
    decreases pairs.len() - k,
{
    broadcast use assign_progresses;

    let ty = spec_abi_param_to_isatype(values[k]);
    let u = assign_or_cast(s, at, k as usize, pairs[k].vreg, ty);
    passed_progresses(u, at, pairs, values, k + 1);
    assert(at_least(u, s));
    unchanged(s, u, s);
    if k < i {
        passed_at(s, at, pairs, values, k + 1, i);
    } else {
        match assign(s, pairs[k].vreg, ty) {
            Some(t) => {
                assigned_holds(s, pairs[k].vreg, ty);
            },
            None => {
                assert(u.demands.len() == 1);
            },
        }
    }
}

proof fn results_at(s: Known, pairs: Seq<ArgPair>, values: Seq<AbiParam>, k: int, i: int)
    requires
        infer_results(s, pairs, values, k) == Some(s),
        0 <= k <= i < pairs.len(),
    ensures
        is_machine_int(values[i].value_type),
        holds_type(s.types.get(pairs[i].vreg), spec_abi_param_to_isatype(values[i])),
    decreases pairs.len() - k,
{
    broadcast use assign_progresses;

    let ty = spec_abi_param_to_isatype(values[k]);
    let u = assign(s, pairs[k].vreg, ty)->Some_0;
    results_progress(u, pairs, values, k + 1);
    assert(at_least(u, s));
    assert(u == s);
    assigned_holds(s, pairs[k].vreg, ty);
    if k < i {
        results_at(s, pairs, values, k + 1, i);
    }
}

/// Once the types agree with a return, every returned operand has the type that
/// the signature gives to its place.
pub proof fn returned_values_have_the_types_of_the_signature(
    s: Known,
    at: Site,
    rets: Seq<ArgPair>,
    i: int,
)
    requires
        s.demands.len() == 0,
        infer(s, at, MInstOf::Rets { rets }) == Some(s),
        0 <= i < rets.len(),
    ensures
        i < at.rets.len(),
        i < QUEUE_CAPACITY,
        holds_type(s.types.get(rets[i].vreg), spec_abi_param_to_isatype(at.rets[i])),
{
    passed_at(s, at, rets, at.rets, 0, i);
}

/// Once the types agree with a call, every operand that it passes and every one
/// that it returns has the type that the callee's signature gives to its place.
pub proof fn called_values_have_the_types_of_the_signature(
    s: Known,
    at: Site,
    link: Reg,
    rets: Seq<ArgPair>,
    args: Seq<ArgPair>,
    sig: SignatureView,
    i: int,
)
    requires
        s.demands.len() == 0,
        infer(s, at, MInstOf::CallArgs { link, rets, args, sig }) == Some(s),
    ensures
        0 <= i < args.len() ==> i < sig.params.len() && holds_type(
            s.types.get(args[i].vreg),
            spec_abi_param_to_isatype(sig.params[i]),
        ),
        0 <= i < rets.len() ==> i < sig.rets.len() && holds_type(
            s.types.get(rets[i].vreg),
            spec_abi_param_to_isatype(sig.rets[i]),
        ),
{
    reveal(infer_call);
    let t = infer_results(s, rets, sig.rets, 0)->Some_0;
    results_progress(s, rets, sig.rets, 0);
    passed_progresses(t, at, args, sig.params, 0);
    unchanged(s, t, s);
    if 0 <= i < args.len() {
        passed_at(s, at, args, sig.params, 0, i);
    }
    if 0 <= i < rets.len() {
        results_at(s, rets, sig.rets, 0, i);
    }
}

proof fn echo_progresses(s: Known, at: Site, rds: Seq<Reg>, rss: Seq<Reg>, k: int)
    ensures
        infer_echo(s, at, rds, rss, k) matches Some(t) ==> at_least(t, s) && t.demands.len()
            >= s.demands.len(),
    decreases rss.len() - k,
{
    broadcast use assign_progresses;

    if k < rss.len() {
        if let Some(t) = infer_echo_one(s, at, k as usize, rds[k], rss[k]) {
            echo_progresses(t, at, rds, rss, k + 1);
        }
    }
}

proof fn echo_at(s: Known, at: Site, rds: Seq<Reg>, rss: Seq<Reg>, k: int, i: int)
    requires
        s.demands.len() == 0,
        infer_echo(s, at, rds, rss, k) == Some(s),
        0 <= k <= i < rss.len(),
    ensures
        s.types.get(rds[i]) == s.types.get(rss[i]),
    decreases rss.len() - k,
{
    broadcast use assign_progresses;

    let u = infer_echo_one(s, at, k as usize, rds[k], rss[k])->Some_0;
    echo_progresses(u, at, rds, rss, k + 1);
    assert(at_least(u, s));
    unchanged(s, u, s);
    if k < i {
        echo_at(s, at, rds, rss, k + 1, i);
    } else if s.types.get(rss[k]).spec_refine(s.types.get(rds[k])) is Some {
        same_pair(s, rss[k], rds[k]);
    } else {
        assert(u.demands.len() == 1);
    }
}

/// Once the types agree with an echo, every operand keeps its type.
pub proof fn echoed_values_keep_their_type(s: Known, at: Site, rds: Seq<Reg>, rss: Seq<Reg>, i: int)
    requires
        s.demands.len() == 0,
        infer(s, at, MInstOf::Echo { rds, rss }) == Some(s),
        0 <= i < rss.len(),
    ensures
        rds.len() == rss.len(),
        s.types.get(rds[i]) == s.types.get(rss[i]),
{
    echo_at(s, at, rds, rss, 0, i);
}

/// The first parameters arrive as operands, by their number; the others on the
/// stack, in order and apart, each at a multiple of its size.
pub proof fn parameters_have_places_of_their_own(params: Seq<AbiParam>, i: int, j: int)
    requires
        0 <= i < j < params.len(),
        forall|k: int|
            0 <= k < params.len() ==> is_machine_int((#[trigger] params[k]).value_type),
        value_offset(stack_passed(params), j - QUEUE_CAPACITY) <= i64::MAX,
    ensures
        i < QUEUE_CAPACITY ==> (arg_slot(params, ArgsOrRets::Args, i) matches ABIArgSlot::Reg {
            reg,
            ty,
            extension,
        } && reg == Reg::Real(i as u8) && ty == params[i].value_type && extension
            == params[i].extension),
        j >= QUEUE_CAPACITY ==> (arg_slot(params, ArgsOrRets::Args, j) matches ABIArgSlot::Stack {
            offset,
            ty,
            extension,
        } && ty == params[j].value_type && extension == params[j].extension && offset >= 0 && offset
            % (ty.spec_bytes() as i64) == 0),
        i >= QUEUE_CAPACITY ==> arg_slot(params, ArgsOrRets::Args, i)->Stack_offset
            + params[i].value_type.spec_bytes() <= arg_slot(
            params,
            ArgsOrRets::Args,
            j,
        )->Stack_offset,
{
    let values = stack_passed(params);
    if j >= QUEUE_CAPACITY {
        let b = j - QUEUE_CAPACITY;
        assert forall|k: int| 0 <= k < values.len() implies (
        #[trigger] values[k]).value_type.spec_bytes() > 0 by {
            assert(values[k] == params[k + QUEUE_CAPACITY]);
        }
        assert(values[b] == params[j]);
        crate::abi::round_up_is_least_multiple(
            crate::abi::area_end(values, b),
            values[b].value_type.spec_bytes(),
        );
        crate::abi::area_end_grows(values, 0, b);
        if i >= QUEUE_CAPACITY {
            let a = i - QUEUE_CAPACITY;
            assert(values[a] == params[i]);
            stack_values_are_disjoint(values, a, b);
            crate::abi::area_end_grows(values, 0, a);
            crate::abi::round_up_is_least_multiple(
                crate::abi::area_end(values, a),
                values[a].value_type.spec_bytes(),
            );
        }
    }
}

proof fn refinement_keeps(a: IsaType, b: IsaType, want: IsaType)
    requires
        holds_type(a, want),
        a.spec_refine(b) is Some,
    ensures
        holds_type(a.spec_refine(b)->Some_0, want),
{
}

proof fn refined_holds(a: IsaType, b: IsaType)
    requires
        a.spec_refine(b) is Some,
    ensures
        holds_type(a.spec_refine(b)->Some_0, b),
{
}

proof fn seeding_keeps(
    types: TypesView,
    regs: Seq<Reg>,
    params: Seq<AbiParam>,
    k: int,
    r: Reg,
    want: IsaType,
)
    requires
        holds_type(types.get(r), want),
        seeded_params(types, regs, params, k) is Some,
    ensures
        holds_type(seeded_params(types, regs, params, k)->Some_0.get(r), want),
    decreases regs.len() - k,
{
    if k < regs.len() && k < params.len() {
        let ty = spec_abi_param_to_isatype(params[k]);
        let t = types.get(regs[k]).spec_refine(ty)->Some_0;
        set_changes_one(types, regs[k], t, r);
        set_changes_one(types, regs[k], t, regs[k]);
        if regs[k] == r {
            refinement_keeps(types.get(r), ty, want);
        }
        seeding_keeps(types.set(regs[k], t), regs, params, k + 1, r, want);
    }
}

proof fn seeded_at(types: TypesView, regs: Seq<Reg>, params: Seq<AbiParam>, k: int, i: int)
    requires
        0 <= k <= i < regs.len(),
        i < params.len(),
        seeded_params(types, regs, params, k) is Some,
    ensures
        holds_type(
            seeded_params(types, regs, params, k)->Some_0.get(regs[i]),
            spec_abi_param_to_isatype(params[i]),
        ),
    decreases regs.len() - k,
{
    let ty = spec_abi_param_to_isatype(params[k]);
    let t = types.get(regs[k]).spec_refine(ty)->Some_0;
    let next = types.set(regs[k], t);
    set_changes_one(types, regs[k], t, regs[k]);
    if k < i {
        seeded_at(next, regs, params, k + 1, i);
    } else {
        refined_holds(types.get(regs[k]), ty);
        seeding_keeps(next, regs, params, k + 1, regs[k], ty);
    }
}

proof fn loads_keep(
    types: TypesView,
    sig: SignatureView,
    insts: Seq<MInstView>,
    i: int,
    r: Reg,
    want: IsaType,
)
    requires
        holds_type(types.get(r), want),
        seeded_loads(types, sig, insts, i) is Some,
    ensures
        holds_type(seeded_loads(types, sig, insts, i)->Some_0.get(r), want),
    decreases insts.len() - i,
{
    if i < insts.len() {
        let t = seeded_load(types, sig, insts[i])->Some_0;
        if let MInstOf::LoadStack { ty: IsaType::Integer(s), rd, idx } = insts[i] {
            let place = (idx * crate::lower::scale_of_pow2(s as int)) % 0x1_0000_0000;
            let k = crate::passes::resolve::param_at(
                sig.params,
                place - crate::abi::spec_arg_area_base(sig),
                0,
            );
            let ty = spec_abi_param_to_isatype(sig.params[QUEUE_CAPACITY + k]);
            let x = types.get(rd).spec_refine(ty)->Some_0;
            set_changes_one(types, rd, x, r);
            set_changes_one(types, rd, x, rd);
            if rd == r {
                refinement_keeps(types.get(r), ty, want);
            }
        }
        loads_keep(t, sig, insts, i + 1, r, want);
    }
}

/// The analysis starts from the signature: every operand parameter of the entry has
/// the type that the signature gives to its place.
pub proof fn parameters_start_with_the_types_of_the_signature(
    types: TypesView,
    sig: SignatureView,
    entry: BBView,
    i: int,
)
    requires
        seeded(types, sig, entry) is Some,
        0 <= i < entry.params.len(),
        i < sig.params.len(),
    ensures
        holds_type(
            seeded(types, sig, entry)->Some_0.get(entry.params[i]),
            spec_abi_param_to_isatype(sig.params[i]),
        ),
{
    seeded_at(types, entry.params, sig.params, 0, i);
    let t = seeded_params(types, entry.params, sig.params, 0)->Some_0;
    loads_keep(
        t,
        sig,
        entry.inst,
        0,
        entry.params[i],
        spec_abi_param_to_isatype(sig.params[i]),
    );
}

proof fn load_seeds(
    types: TypesView,
    sig: SignatureView,
    insts: Seq<MInstView>,
    w: int,
    i: int,
) -> (k: int)
    requires
        0 <= w <= i < insts.len(),
        seeded_loads(types, sig, insts, w) is Some,
        insts[i] is LoadStack,
        insts[i]->LoadStack_ty is Integer,
    ensures
        ({
            let s = insts[i]->LoadStack_ty->Integer_0;
            let place = (insts[i]->LoadStack_idx * pow2(s as nat)) % 0x1_0000_0000;
            &&& 0 <= k < stack_passed(sig.params).len()
            &&& crate::abi::spec_arg_area_base(sig) + value_offset(stack_passed(sig.params), k)
                == place
            &&& holds_type(
                seeded_loads(types, sig, insts, w)->Some_0.get(insts[i]->LoadStack_rd),
                spec_abi_param_to_isatype(sig.params[QUEUE_CAPACITY + k]),
            )
        }),
    decreases i - w,
{
    let t = seeded_load(types, sig, insts[w])->Some_0;
    if w < i {
        load_seeds(t, sig, insts, w + 1, i)
    } else {
        let s = insts[i]->LoadStack_ty->Integer_0;
        let rd = insts[i]->LoadStack_rd;
        crate::laws::stack::scale_is_power(s as int);
        let place = (insts[i]->LoadStack_idx * crate::lower::scale_of_pow2(s as int))
            % 0x1_0000_0000;
        let offset = place - crate::abi::spec_arg_area_base(sig);
        let k = crate::passes::resolve::param_at(sig.params, offset, 0);
        param_is_there(sig.params, offset, 0);
        let ty = spec_abi_param_to_isatype(sig.params[QUEUE_CAPACITY + k]);
        let x = types.get(rd).spec_refine(ty)->Some_0;
        set_changes_one(types, rd, x, rd);
        refined_holds(types.get(rd), ty);
        loads_keep(t, sig, insts, w + 1, rd, ty);
        k
    }
}

proof fn param_is_there(params: Seq<AbiParam>, offset: int, k: int)
    requires
        0 <= k <= stack_passed(params).len(),
    ensures
        k <= crate::passes::resolve::param_at(params, offset, k) <= stack_passed(params).len(),
        crate::passes::resolve::param_at(params, offset, k) < stack_passed(params).len()
            ==> value_offset(
            stack_passed(params),
            crate::passes::resolve::param_at(params, offset, k),
        ) == offset,
    decreases stack_passed(params).len() - k,
{
    if k < stack_passed(params).len() && value_offset(stack_passed(params), k) != offset {
        param_is_there(params, offset, k + 1);
    }
}

/// A loaded stack-passed parameter has the type that the signature gives to the
/// parameter at the loaded place.
pub proof fn loaded_parameters_start_with_the_types_of_the_signature(
    types: TypesView,
    sig: SignatureView,
    entry: BBView,
    i: int,
)
    requires
        seeded(types, sig, entry) is Some,
        0 <= i < entry.inst.len(),
        entry.inst[i] is LoadStack,
        entry.inst[i]->LoadStack_ty is Integer,
    ensures
        ({
            let s = entry.inst[i]->LoadStack_ty->Integer_0;
            let place = (entry.inst[i]->LoadStack_idx * pow2(s as nat)) % 0x1_0000_0000;
            exists|k: int|
                {
                    &&& 0 <= k < stack_passed(sig.params).len()
                    &&& crate::abi::spec_arg_area_base(sig) + #[trigger] value_offset(
                        stack_passed(sig.params),
                        k,
                    ) == place
                    &&& holds_type(
                        seeded(types, sig, entry)->Some_0.get(entry.inst[i]->LoadStack_rd),
                        spec_abi_param_to_isatype(sig.params[QUEUE_CAPACITY + k]),
                    )
                }
        }),
{
    let t = seeded_params(types, entry.params, sig.params, 0)->Some_0;
    let k = load_seeds(t, sig, entry.inst, 0, i);
    assert(value_offset(stack_passed(sig.params), k) == value_offset(stack_passed(sig.params), k));
}

/// Once the types agree with a wrapping operation on known operands, its result
/// carries the type that the machine gives it: signed if both operands are, unsigned
/// otherwise.
pub proof fn wrapped_results_have_the_effective_sign(
    s: Known,
    at: Site,
    op: crate::inst::BinaryAluOp,
    rd: Reg,
    rs1: Reg,
    rs2: Reg,
)
    requires
        s.demands.len() == 0,
        at.soft,
        infer(s, at, MInstOf::BinaryAlu { op, rd, rs1, rs2 }) == Some(s),
        s.types.get(rs1) is Known,
        s.types.get(rs2) is Known,
    ensures
        s.types.get(rd) is Known,
        s.types.get(rd).spec_size_pow2() == s.types.get(rs1).spec_size_pow2(),
        s.types.get(rd).spec_is_signed_int() <==> s.types.get(rs1).spec_is_signed_int()
            && s.types.get(rs2).spec_is_signed_int(),
{
    broadcast use assign_progresses;

    reveal(crate::passes::infer::infer_binary);
    let t1 = s.types.get(rs1);
    let t2 = s.types.get(rs2);
    let td = s.types.get(rd);
    match crate::passes::infer::merge(t1.spec_refine(t2), td) {
        Some(t) => {
            let u = assign(s, rs1, t)->Some_0;
            let v = assign(u, rs2, t)->Some_0;
            assert(at_least(s, v) && at_least(v, u) && at_least(u, s));
            assert(u == s && v == s);
            assigned_holds(s, rs1, t);
            assigned_holds(s, rs2, t);
            assigned_holds(s, rd, t);
        },
        None => {
            let sign = crate::passes::infer::effective_sign(t1, t2)->Some_0;
            let want = crate::isatype::known_int(t1.spec_size_pow2(), sign);
            match td.spec_refine(want) {
                Some(t) => {
                    assigned_holds(s, rd, t);
                },
                None => {
                    let u = crate::passes::infer::demand(s, at, 0, rd, td);
                    assert(u.demands.len() == 1);
                },
            }
        },
    }
}

/// Once the types agree with a reduction of known values, both ends have the same
/// signedness.
pub proof fn reduced_values_keep_their_sign(s: Known, at: Site, rd: Reg, rs: Reg)
    requires
        infer(
            s,
            at,
            MInstOf::Resize { var: crate::inst::ResizeVariant::Reduce, rd, rs },
        ) == Some(s),
        s.types.get(rs) is Known || s.types.get(rd) is Known,
        s.types.get(rs).spec_is_int(),
        s.types.get(rd).spec_is_int(),
    ensures
        s.types.get(rs).spec_is_signed_int() <==> s.types.get(rd).spec_is_signed_int(),
{
    broadcast use assign_progresses;

    reveal(crate::passes::infer::infer_reduce);
    let rs_t = s.types.get(rs);
    let rd_t = s.types.get(rd);
    if !(rs_t is Known && rd_t is Known) {
        let sign = rs_t.spec_is_signed_int() || rd_t.spec_is_signed_int();
        let a = crate::isatype::known_int(rs_t.spec_size_pow2(), sign);
        let b = crate::isatype::known_int(rd_t.spec_size_pow2(), sign);
        let u = assign(s, rs, a)->Some_0;
        assert(at_least(s, u) && at_least(u, s));
        assert(u == s);
        assigned_holds(s, rs, a);
        assigned_holds(s, rd, b);
    }
}

proof fn shared_knows(
    types: TypesView,
    flows: Seq<FlowEdge>,
    r: Reg,
    acc: IsaType,
    k: int,
    want: IsaType,
)
    requires
        shared_type(types, flows, r, acc, k) is Some,
        holds_type(acc, want),
    ensures
        holds_type(shared_type(types, flows, r, acc, k)->Some_0, want),
    decreases flows.len() - k,
{
    if k < flows.len() {
        if flows[k].out == r || flows[k].into == r {
            let a = acc.spec_refine(types.get(flows[k].out))->Some_0;
            refinement_keeps(acc, types.get(flows[k].out), want);
            refinement_keeps(a, types.get(flows[k].into), want);
            let t = a.spec_refine(types.get(flows[k].into))->Some_0;
            shared_knows(types, flows, r, t, k + 1, want);
        } else {
            shared_knows(types, flows, r, acc, k + 1, want);
        }
    }
}

proof fn shared_knows_flow(
    types: TypesView,
    flows: Seq<FlowEdge>,
    r: Reg,
    acc: IsaType,
    k: int,
    f: int,
)
    requires
        0 <= k <= f < flows.len(),
        shared_type(types, flows, r, acc, k) is Some,
        flows[f].out == r || flows[f].into == r,
    ensures
        holds_type(shared_type(types, flows, r, acc, k)->Some_0, types.get(flows[f].out)),
        holds_type(shared_type(types, flows, r, acc, k)->Some_0, types.get(flows[f].into)),
    decreases flows.len() - k,
{
    if flows[k].out == r || flows[k].into == r {
        let o = types.get(flows[k].out);
        let i = types.get(flows[k].into);
        let a = acc.spec_refine(o)->Some_0;
        let t = a.spec_refine(i)->Some_0;
        refined_holds(acc, o);
        refinement_keeps(a, i, o);
        refined_holds(a, i);
        if k < f {
            shared_knows_flow(types, flows, r, t, k + 1, f);
        } else {
            shared_knows(types, flows, r, t, k + 1, o);
            shared_knows(types, flows, r, t, k + 1, i);
        }
    } else {
        shared_knows_flow(types, flows, r, acc, k + 1, f);
    }
}

proof fn spread_progresses(s: Known, flows: Seq<FlowEdge>, r: Reg, ty: IsaType, k: int)
    ensures
        spread_type(s, flows, r, ty, k) matches Some(t) ==> at_least(t, s) && t.demands == s.demands,
    decreases flows.len() - k,
{
    broadcast use assign_progresses;

    if k < flows.len() {
        if flows[k].out == r || flows[k].into == r {
            if let Some(t) = assign2(s, flows[k].out, flows[k].into, ty) {
                spread_progresses(t, flows, r, ty, k + 1);
            }
        } else {
            spread_progresses(s, flows, r, ty, k + 1);
        }
    }
}

proof fn spread_at(s: Known, flows: Seq<FlowEdge>, r: Reg, ty: IsaType, k: int, f: int)
    requires
        0 <= k <= f < flows.len(),
        spread_type(s, flows, r, ty, k) == Some(s),
        flows[f].out == r || flows[f].into == r,
    ensures
        holds_type(s.types.get(flows[f].out), ty),
        holds_type(s.types.get(flows[f].into), ty),
    decreases flows.len() - k,
{
    broadcast use assign_progresses;

    if flows[k].out == r || flows[k].into == r {
        let u = assign(s, flows[k].out, ty)->Some_0;
        let t = assign(u, flows[k].into, ty)->Some_0;
        spread_progresses(t, flows, r, ty, k + 1);
        assert(at_least(s, t) && at_least(t, u) && at_least(u, s));
        assert(u == s && t == s);
        assigned_holds(s, flows[k].out, ty);
        assigned_holds(s, flows[k].into, ty);
        if k < f {
            spread_at(s, flows, r, ty, k + 1, f);
        }
    } else {
        spread_at(s, flows, r, ty, k + 1, f);
    }
}

proof fn flow_progresses(s: Known, at: Site, args: Seq<Reg>, k: int)
    ensures
        infer_trigger(s, at, args, k) matches Some(t) ==> at_least(t, s) && t.demands == s.demands,
    decreases args.len() - k,
{
    broadcast use assign_progresses;

    if k < args.len() {
        if let Some(t) = infer_flow(s, at, args[k]) {
            let ty = shared_type(s.types, at.flows, args[k], s.types.get(args[k]), 0)->Some_0;
            let u = assign(s, args[k], ty)->Some_0;
            spread_progresses(u, at.flows, args[k], ty, 0);
            flow_progresses(t, at, args, k + 1);
        }
    }
}

proof fn trigger_at(s: Known, at: Site, args: Seq<Reg>, k: int, i: int, f: int)
    requires
        0 <= k <= i < args.len(),
        infer_trigger(s, at, args, k) == Some(s),
        0 <= f < at.flows.len(),
        at.flows[f].out == args[i] || at.flows[f].into == args[i],
    ensures
        s.types.get(at.flows[f].out) == s.types.get(at.flows[f].into),
    decreases args.len() - k,
{
    broadcast use assign_progresses;

    let r = args[k];
    let ty = shared_type(s.types, at.flows, r, s.types.get(r), 0)->Some_0;
    let u = assign(s, r, ty)->Some_0;
    let t = spread_type(u, at.flows, r, ty, 0)->Some_0;
    spread_progresses(u, at.flows, r, ty, 0);
    flow_progresses(t, at, args, k + 1);
    assert(at_least(s, t) && at_least(t, u) && at_least(u, s));
    assert(u == s && t == s);
    if k < i {
        trigger_at(s, at, args, k + 1, i, f);
    } else {
        spread_at(s, at.flows, r, ty, 0, f);
        shared_knows_flow(s.types, at.flows, r, s.types.get(r), 0, f);
    }
}

/// Once the types agree with a trigger, every passed value has the type of the
/// parameter that it flows to.
pub proof fn passed_values_have_the_types_of_their_parameters(
    s: Known,
    at: Site,
    link: Reg,
    args: Seq<Reg>,
    i: int,
    f: int,
)
    requires
        infer(s, at, MInstOf::JumpTrigger { link, args }) == Some(s),
        0 <= i < args.len(),
        0 <= f < at.flows.len(),
        at.flows[f].out == args[i],
    ensures
        s.types.get(at.flows[f].into) == s.types.get(args[i]),
{
    trigger_at(s, at, args, 0, i, f);
}

} // verus!
