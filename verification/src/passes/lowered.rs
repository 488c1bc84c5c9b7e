//! What is left once the stack-passed values are resolved: no argument stores, and
//! no more operands at a return or a call than a queue holds.
use crate::abi::{
    area_end, area_end_grows, area_size, areas_fit, round_up_is_least_multiple,
    spec_stack_area_size, stack_passed,
};
use crate::bb::{first_from, BBView};
use crate::inst::{MInstOf, MInstView, OperandKind, QUEUE_CAPACITY};
use crate::ir::{AbiParam, SignatureView};
use crate::lower::{scale_of_pow2, stack_access, StackAccess};
use crate::passes::frame::{adjustments, spliced};
use crate::passes::stack_args::{
    arg_stores, block_lowered, call_lowered, call_reserved, calls_lowered, first_rets, has_area,
    loads_shifted, operand_pairs, ret_loads, ret_stores, rets_lowered, rets_received,
    stack_args_lowered,
};
use crate::reg::{vregs_of, ArgPair, Reg};
use crate::rename::renamed_each;
use vstd::prelude::*;

verus! {

/// Whether `k` is the position of an argument store of the call triggered at `t`:
/// the stores stand in a row before the call.
pub open spec fn store_of_call(insts: Seq<MInstView>, t: int, k: int) -> bool {
    &&& 0 < t < insts.len()
    &&& insts[t - 1] is Call
    &&& insts[t] matches MInstOf::CallArgs { sig, .. }
    &&& 0 <= t - 1 - stack_passed(sig.params).len() <= k < t - 1
    &&& forall|m: int|
        t - 1 - stack_passed(sig.params).len() <= m < t - 1 ==> (#[trigger] insts[m]) is StoreStackArg
}

/// Whether argument stores, calls and returns are as lowering leaves them: each
/// argument store belongs to a call, a call whose callee has no stack area has no
/// more results than a queue holds, and neither has a return but the first.
pub open spec fn stack_args_wf(insts: Seq<MInstView>) -> bool {
    &&& forall|k: int|
        0 <= k < insts.len() && (#[trigger] insts[k]) is StoreStackArg ==> exists|t: int|
            store_of_call(insts, t, k)
    &&& forall|k: int|
        0 <= k < insts.len() && !has_area(insts[k]) ==> ((
        #[trigger] insts[k]) matches MInstOf::CallArgs { rets, .. } ==> rets.len()
            <= QUEUE_CAPACITY)
    &&& forall|k: int|
        0 <= k < insts.len() && k != first_rets(insts) ==> ((
        #[trigger] insts[k]) matches MInstOf::Rets { rets } ==> rets.len() <= QUEUE_CAPACITY)
}

/// Whether an instruction is no argument store, and no return or call with more
/// operands than a queue holds.
pub open spec fn stack_args_done(inst: MInstView) -> bool {
    match inst {
        MInstOf::StoreStackArg { .. } => false,
        MInstOf::Rets { rets } => rets.len() <= QUEUE_CAPACITY,
        MInstOf::CallArgs { rets, .. } => rets.len() <= QUEUE_CAPACITY,
        _ => true,
    }
}

/// Whether an instruction has no part in passing values on the stack.
spec fn plain(inst: MInstView) -> bool {
    !(inst is StoreStackArg) && !(inst is Rets) && !(inst is CallArgs)
}

/// Whether all instructions are plain.
spec fn all_plain(insts: Seq<MInstView>) -> bool {
    forall|i: int| 0 <= i < insts.len() ==> plain(#[trigger] insts[i])
}

/// Whether two instructions have the same part in passing values.
spec fn alike(a: MInstView, b: MInstView) -> bool {
    match b {
        MInstOf::StoreStackArg { .. } => a is StoreStackArg,
        MInstOf::Call { .. } => a is Call,
        MInstOf::Rets { rets } => a matches MInstOf::Rets { rets: r } && r.len() == rets.len(),
        MInstOf::CallArgs { rets, sig, .. } => a matches MInstOf::CallArgs { rets: r, sig: s, .. }
            && r.len() == rets.len() && s == sig,
        _ => plain(a) && !(a is Call),
    }
}

proof fn with_uses_alike(inst: MInstView, us: Seq<Reg>)
    ensures
        alike(inst.with_uses(us), inst),
{
}

proof fn renamed_each_alike(bb: BBView, regs: Seq<Reg>, next: int, k: int)
    ensures
        renamed_each(bb, regs, next, k).inst.len() == bb.inst.len(),
        forall|i: int|
            0 <= i < bb.inst.len() ==> alike(
                #[trigger] renamed_each(bb, regs, next, k).inst[i],
                bb.inst[i],
            ),
    decreases k,
{
    if k > 0 {
        renamed_each_alike(bb, regs, next, k - 1);
        let before = renamed_each(bb, regs, next, k - 1);
        let after = renamed_each(bb, regs, next, k);
        assert forall|i: int| 0 <= i < bb.inst.len() implies alike(
            #[trigger] after.inst[i],
            bb.inst[i],
        ) by {
            let us = crate::rename::replace_each(
                before.inst[i].uses(),
                regs[k - 1],
                crate::reg::vreg(next + k - 1),
            );
            assert(after.inst[i] == before.inst[i].with_uses(us));
            with_uses_alike(before.inst[i], us);
            assert(alike(before.inst[i], bb.inst[i]));
        }
    }
}

proof fn stack_access_plain(offset: int, scale: int, access: StackAccess, next: int)
    ensures
        all_plain(stack_access(offset, scale, access, next).0),
{
}

proof fn adjustments_plain(amount: int, reserve: bool, private: bool)
    ensures
        all_plain(adjustments(amount, reserve, private)),
{
}

proof fn plain_add(a: Seq<MInstView>, b: Seq<MInstView>)
    requires
        all_plain(a),
        all_plain(b),
    ensures
        all_plain(a + b),
{
    assert forall|i: int| 0 <= i < (a + b).len() implies plain(#[trigger] (a + b)[i]) by {
        if i < a.len() {
            assert((a + b)[i] == a[i]);
        } else {
            assert((a + b)[i] == b[i - a.len()]);
        }
    }
}

proof fn ret_stores_plain(rets: Seq<ArgPair>, values: Seq<AbiParam>, k: int, next: int)
    ensures
        all_plain(ret_stores(rets, values, k, next).0),
    decreases rets.len() - k,
{
    if k >= QUEUE_CAPACITY && k < rets.len() {
        let offset = crate::abi::value_offset(stack_passed(values), k - QUEUE_CAPACITY);
        let scale = values[k].value_type.spec_bytes();
        let access = StackAccess::Store(rets[k].vreg);
        let (first, n) = stack_access(offset, scale, access, next);
        stack_access_plain(offset, scale, access, next);
        ret_stores_plain(rets, values, k + 1, n);
        plain_add(first, ret_stores(rets, values, k + 1, n).0);
    }
}

proof fn arg_stores_plain(insts: Seq<MInstView>, i: int, end: int, base: int, next: int)
    ensures
        arg_stores(insts, i, end, base, next) matches Some((stores, _)) ==> all_plain(stores),
        arg_stores(insts, i, end, base, next) is Some ==> forall|m: int|
            i <= m < end ==> (#[trigger] insts[m]) is StoreStackArg,
    decreases end - i,
{
    if i < end {
        if let MInstOf::StoreStackArg { rs, offset, scale_pow2 } = insts[i] {
            let scale = scale_of_pow2(scale_pow2 as int);
            let (first, n) = stack_access(base + offset, scale, StackAccess::Store(rs), next);
            stack_access_plain(base + offset, scale, StackAccess::Store(rs), next);
            arg_stores_plain(insts, i + 1, end, base, n);
            if let Some((rest, _)) = arg_stores(insts, i + 1, end, base, n) {
                plain_add(first, rest);
            }
        }
    }
}

proof fn ret_loads_plain(
    insts: Seq<MInstView>,
    rets: Seq<ArgPair>,
    values: Seq<AbiParam>,
    base: int,
    k: int,
    next: int,
)
    ensures
        ret_loads(insts, rets, values, base, k, next) matches Some((loads, _)) ==> all_plain(loads),
    decreases rets.len() - k,
{
    if k >= QUEUE_CAPACITY && k < rets.len() {
        if crate::bb::op_count(insts, rets[k].vreg, OperandKind::Use) == 0 {
            ret_loads_plain(insts, rets, values, base, k + 1, next);
        } else {
            let offset = base + crate::abi::value_offset(
                stack_passed(values),
                k - QUEUE_CAPACITY,
            );
            let scale = values[k].value_type.spec_bytes();
            let access = StackAccess::Load(rets[k].vreg);
            let (first, n) = stack_access(offset, scale, access, next);
            stack_access_plain(offset, scale, access, next);
            ret_loads_plain(insts, rets, values, base, k + 1, n);
            if let Some((rest, _)) = ret_loads(insts, rets, values, base, k + 1, n) {
                plain_add(first, rest);
            }
        }
    }
}

/// Whether the calls before `t` are done, and all argument stores belong to calls
/// from `t` on.
spec fn calls_done_below(insts: Seq<MInstView>, t: int) -> bool {
    &&& forall|k: int|
        0 <= k < insts.len() && (#[trigger] insts[k]) is StoreStackArg ==> exists|u: int|
            t <= u && store_of_call(insts, u, k)
    &&& forall|k: int|
        0 <= k < insts.len() && !(k >= t && has_area(insts[k])) ==> ((
        #[trigger] insts[k]) matches MInstOf::CallArgs { rets, .. } ==> rets.len()
            <= QUEUE_CAPACITY)
    &&& forall|k: int|
        0 <= k < insts.len() ==> ((#[trigger] insts[k]) matches MInstOf::Rets { rets }
            ==> rets.len() <= QUEUE_CAPACITY)
}

/// What lowering a call makes of the instructions: those behind it stay alike;
/// before them, those before the call's site stay alike, and the others are plain
/// but for the call's own trigger.
proof fn call_lowered_parts(bb: BBView, t: int, private_size: int, next: int)
    requires
        0 <= t < bb.inst.len(),
        call_lowered(bb, t, private_size, next) is Some,
    ensures
        ({
            let after = call_lowered(bb, t, private_size, next)->Some_0.0.inst;
            let start = after.len() - (bb.inst.len() - t - 1);
            let first = t - 1 - stack_passed(bb.inst[t]->CallArgs_sig.params).len();
            &&& bb.inst[t] is CallArgs
            &&& 0 <= first < t
            &&& first <= start
            &&& forall|k: int|
                0 <= k < first ==> alike(#[trigger] after[k], bb.inst[k])
            &&& forall|k: int|
                first <= k < start ==> plain(#[trigger] after[k]) || (
                after[k] matches MInstOf::CallArgs { rets, .. } && rets.len() <= QUEUE_CAPACITY)
            &&& forall|j: int|
                t < j < bb.inst.len() ==> alike(after[start + (j - t - 1)], #[trigger] bb.inst[j])
        }),
{
    if let MInstOf::CallArgs { link, rets, args, sig } = bb.inst[t] {
        let first = t - 1 - stack_passed(sig.params).len();
        let base = private_size + crate::abi::spec_arg_area_base(sig);
        let area = spec_stack_area_size(sig);
        let (b1, pos1, n1) = call_reserved(bb, t, private_size, next)->Some_0;
        let (stores, n0) = arg_stores(bb.inst, first, t - 1, base, next)->Some_0;
        arg_stores_plain(bb.inst, first, t - 1, base, next);
        adjustments_plain(area, true, false);
        plain_add(adjustments(area, true, false), stores);
        let head = adjustments(area, true, false) + stores;
        let trigger: MInstView = MInstOf::CallArgs { link, rets: operand_pairs(rets), args, sig };
        let site = head + seq![bb.inst[t - 1], trigger];
        assert(b1.inst == bb.inst.take(first) + site + bb.inst.skip(t + 1));
        assert forall|k: int| first <= k < pos1 implies plain(#[trigger] b1.inst[k]) || (
        b1.inst[k] matches MInstOf::CallArgs { rets: r, .. } && r.len() <= QUEUE_CAPACITY) by {
            assert(b1.inst[k] == site[k - first]);
            if k - first < head.len() {
                assert(site[k - first] == head[k - first]);
            } else if k - first == head.len() {
                assert(site[k - first] == bb.inst[t - 1]);
            } else {
                assert(site[k - first] == trigger);
            }
        }
        assert forall|j: int| t < j < bb.inst.len() implies b1.inst[pos1 + (j - t - 1)]
            == #[trigger] bb.inst[j] by {
            assert(bb.inst.skip(t + 1)[j - t - 1] == bb.inst[j]);
        }
        let regs = vregs_of(operand_pairs(rets));
        let (b2, pos2, n2) = rets_received(b1, pos1, regs, n1);
        let named = renamed_each(b1, regs, n1, regs.len() as int);
        renamed_each_alike(b1, regs, n1, regs.len() as int);
        let (loads, n3) = ret_loads(
            b2.inst,
            rets,
            sig.rets,
            private_size,
            QUEUE_CAPACITY as int,
            n2,
        )->Some_0;
        ret_loads_plain(b2.inst, rets, sig.rets, private_size, QUEUE_CAPACITY as int, n2);
        adjustments_plain(area, false, false);
        plain_add(loads, adjustments(area, false, false));
        let tail = loads + adjustments(area, false, false);
        let after = call_lowered(bb, t, private_size, next)->Some_0.0.inst;
        assert(after == spliced(b2.inst, pos2, tail));
        let start = pos2 + tail.len();
        assert(start == after.len() - (bb.inst.len() - t - 1));
        assert forall|k: int| 0 <= k < pos1 implies alike(#[trigger] b2.inst[k], b1.inst[k]) by {
            if regs.len() > 0 {
                assert(b2.inst[k] == named.inst[k]);
            }
        }
        assert forall|k: int| 0 <= k < first implies alike(#[trigger] after[k], bb.inst[k]) by {
            assert(after[k] == b2.inst[k]);
            assert(b1.inst[k] == bb.inst[k]);
        }
        assert forall|k: int| first <= k < start implies plain(#[trigger] after[k]) || (
        after[k] matches MInstOf::CallArgs { rets: r, .. } && r.len() <= QUEUE_CAPACITY) by {
            if k < pos1 {
                assert(after[k] == b2.inst[k]);
                assert(alike(b2.inst[k], b1.inst[k]));
                assert(plain(b1.inst[k]) || b1.inst[k] is CallArgs);
            } else if k < pos2 {
                assert(after[k] == b2.inst[k]);
            } else {
                assert(after[k] == tail[k - pos2]);
            }
        }
        assert forall|j: int| t < j < bb.inst.len() implies alike(
            after[start + (j - t - 1)],
            #[trigger] bb.inst[j],
        ) by {
            let i = j - t - 1;
            assert(after[start + i] == b2.inst[pos2 + i]);
            assert(b1.inst[pos1 + i] == bb.inst[j]);
            if regs.len() > 0 {
                assert(b2.inst[pos2 + i] == named.inst[pos1 + i]);
            }
        }
    }
}

/// Lowering a call leaves the later calls to be done.
proof fn call_lowered_done(bb: BBView, t: int, private_size: int, next: int)
    requires
        0 <= t < bb.inst.len(),
        call_lowered(bb, t, private_size, next) is Some,
        calls_done_below(bb.inst, t),
    ensures
        ({
            let after = call_lowered(bb, t, private_size, next)->Some_0.0.inst;
            calls_done_below(after, after.len() - (bb.inst.len() - t - 1))
        }),
{
    call_lowered_parts(bb, t, private_size, next);
    let insts = bb.inst;
    let after = call_lowered(bb, t, private_size, next)->Some_0.0.inst;
    let start = after.len() - (insts.len() - t - 1);
    let first = t - 1 - stack_passed(insts[t]->CallArgs_sig.params).len();
    assert forall|k: int| 0 <= k < after.len() && (#[trigger] after[k]) is StoreStackArg implies exists|
        u: int,
    |
        start <= u && store_of_call(after, u, k) by {
        if k < first {
            assert(insts[k] is StoreStackArg);
            let u = choose|u: int| t <= u && store_of_call(insts, u, k);
            assert(u > t);
            assert(insts[t] is CallArgs && insts[u - 1] is Call);
            assert(insts[t] is StoreStackArg);
        } else if k >= start {
            let j = k - start + t + 1;
            assert(alike(after[start + (j - t - 1)], insts[j]));
            assert(insts[j] is StoreStackArg);
            let u = choose|u: int| t <= u && store_of_call(insts, u, j);
            let first_u = u - 1 - stack_passed(insts[u]->CallArgs_sig.params).len();
            assert(first_u > t) by {
                if first_u <= t {
                    assert(insts[t] is StoreStackArg);
                }
            }
            let w = start + (u - t - 1);
            assert(alike(after[start + (u - t - 1)], insts[u]));
            assert(alike(after[start + ((u - 1) - t - 1)], insts[u - 1]));
            assert forall|m: int|
                w - 1 - stack_passed(insts[u]->CallArgs_sig.params).len() <= m < w - 1 implies (
            #[trigger] after[m]) is StoreStackArg by {
                let i = m - start + t + 1;
                assert(insts[i] is StoreStackArg);
                assert(alike(after[start + (i - t - 1)], insts[i]));
            }
            assert(store_of_call(after, w, k));
        } else {
            assert(plain(after[k]) || after[k] is CallArgs);
        }
    }
    assert forall|k: int| 0 <= k < after.len() implies {
        &&& !(k >= start && has_area(after[k])) ==> ((
        #[trigger] after[k]) matches MInstOf::CallArgs { rets, .. } ==> rets.len()
            <= QUEUE_CAPACITY)
        &&& (after[k] matches MInstOf::Rets { rets } ==> rets.len() <= QUEUE_CAPACITY)
    } by {
        if k < first {
            assert(alike(after[k], insts[k]));
        } else if k >= start {
            let j = k - start + t + 1;
            assert(alike(after[start + (j - t - 1)], insts[j]));
        } else {
            assert(plain(after[k]) || after[k] is CallArgs);
        }
    }
}

proof fn no_area_no_values(values: Seq<AbiParam>)
    requires
        area_size(values) == 0,
    ensures
        values.len() <= QUEUE_CAPACITY,
{
    let passed = stack_passed(values);
    if passed.len() > 0 {
        let n = passed.len() as int;
        area_end_grows(passed, n - 1, n - 1);
        round_up_is_least_multiple(
            area_end(passed, n - 1),
            passed[n - 1].value_type.spec_bytes(),
        );
    }
}

/// A call whose callee has no stack area stores no arguments.
proof fn no_area_done(sig: SignatureView)
    requires
        areas_fit(sig),
        spec_stack_area_size(sig) == 0,
    ensures
        stack_passed(sig.params).len() == 0,
{
    crate::abi::areas_fit_parts(sig);
    no_area_no_values(sig.params);
}

proof fn calls_lowered_done(bb: BBView, rem: int, private_size: int, next: int)
    requires
        0 <= rem <= bb.inst.len(),
        calls_lowered(bb, rem, private_size, next) is Some,
        calls_done_below(bb.inst, bb.inst.len() - rem),
    ensures
        ({
            let after = calls_lowered(bb, rem, private_size, next)->Some_0.0.inst;
            calls_done_below(after, after.len() as int)
        }),
    decreases rem,
{
    if rem > 0 {
        let t = bb.inst.len() - rem;
        if has_area(bb.inst[t]) {
            call_lowered_done(bb, t, private_size, next);
            call_lowered_parts(bb, t, private_size, next);
            let (b, n) = call_lowered(bb, t, private_size, next)->Some_0;
            calls_lowered_done(b, rem - 1, private_size, n);
        } else {
            let insts = bb.inst;
            if let MInstOf::CallArgs { sig, .. } = insts[t] {
                no_area_done(sig);
            }
            assert forall|k: int| 0 <= k < insts.len() && (#[trigger] insts[k]) is StoreStackArg implies exists|
                u: int,
            |
                t + 1 <= u && store_of_call(insts, u, k) by {
                let u = choose|u: int| t <= u && store_of_call(insts, u, k);
                assert(u != t);
                assert(t + 1 <= u && store_of_call(insts, u, k));
            }
            calls_lowered_done(bb, rem - 1, private_size, next);
        }
    }
}

proof fn loads_shifted_alike(insts: Seq<MInstView>, base: int, i: int)
    requires
        0 <= i <= insts.len(),
    ensures
        loads_shifted(insts, base, i) matches Some(r) ==> r.len() == insts.len() - i && forall|k: int|
            0 <= k < r.len() ==> alike(#[trigger] r[k], insts[i + k]),
    decreases insts.len() - i,
{
    if i < insts.len() {
        loads_shifted_alike(insts, base, i + 1);
        if let Some(rest) = loads_shifted(insts, base, i + 1) {
            if let Some(r) = loads_shifted(insts, base, i) {
                assert forall|k: int| 0 <= k < r.len() implies alike(
                    #[trigger] r[k],
                    insts[i + k],
                ) by {
                    if k > 0 {
                        assert(r[k] == rest[k - 1]);
                        assert(alike(rest[k - 1], insts[(i + 1) + (k - 1)]));
                    }
                }
            }
        }
    }
}

proof fn first_rets_alike(a: Seq<MInstView>, b: Seq<MInstView>, i: int)
    requires
        0 <= i,
        a.len() == b.len(),
        forall|k: int| 0 <= k < a.len() ==> alike(#[trigger] a[k], b[k]),
    ensures
        first_from(|k: int| a[k] is Rets, i, a.len() as int) == first_from(
            |k: int| b[k] is Rets,
            i,
            b.len() as int,
        ),
    decreases a.len() - i,
{
    if i < a.len() {
        assert(alike(a[i], b[i]));
        first_rets_alike(a, b, i + 1);
    }
}

proof fn wf_alike(a: Seq<MInstView>, b: Seq<MInstView>)
    requires
        a.len() == b.len(),
        forall|k: int| 0 <= k < a.len() ==> alike(#[trigger] a[k], b[k]),
        stack_args_wf(b),
    ensures
        stack_args_wf(a),
{
    assert forall|k: int| 0 <= k < a.len() && (#[trigger] a[k]) is StoreStackArg implies exists|
        t: int,
    |
        store_of_call(a, t, k) by {
        assert(b[k] is StoreStackArg);
        let t = choose|t: int| store_of_call(b, t, k);
        assert(alike(a[t], b[t]) && alike(a[t - 1], b[t - 1]));
        assert forall|m: int|
            t - 1 - stack_passed(b[t]->CallArgs_sig.params).len() <= m < t - 1 implies (
        #[trigger] a[m]) is StoreStackArg by {
            assert(b[m] is StoreStackArg);
        }
        assert(store_of_call(a, t, k));
    }
    first_rets_alike(a, b, 0);
    assert forall|k: int| 0 <= k < a.len() implies {
        &&& !has_area(a[k]) ==> ((#[trigger] a[k]) matches MInstOf::CallArgs { rets, .. }
            ==> rets.len() <= QUEUE_CAPACITY)
        &&& k != first_rets(a) ==> (a[k] matches MInstOf::Rets { rets } ==> rets.len()
            <= QUEUE_CAPACITY)
    } by {
        assert(alike(a[k], b[k]));
    }
}

/// Lowering the return leaves the calls to be done.
proof fn rets_lowered_done(insts: Seq<MInstView>, values: Seq<AbiParam>, next: int)
    requires
        stack_args_wf(insts),
        rets_lowered(insts, values, next) is Some,
    ensures
        calls_done_below(rets_lowered(insts, values, next)->Some_0.0, 0),
{
    let t = first_rets(insts);
    let after = rets_lowered(insts, values, next)->Some_0.0;
    first_rets_bounds(insts, 0);
    if t >= insts.len() || insts[t]->Rets_rets.len() <= QUEUE_CAPACITY {
        assert forall|k: int| 0 <= k < insts.len() && (#[trigger] insts[k]) is StoreStackArg implies exists|
            u: int,
        |
            0 <= u && store_of_call(insts, u, k) by {
            let u = choose|u: int| store_of_call(insts, u, k);
            assert(0 <= u && store_of_call(insts, u, k));
        }
    } else {
        let rets = insts[t]->Rets_rets;
        let (stores, n) = ret_stores(rets, values, QUEUE_CAPACITY as int, next);
        ret_stores_plain(rets, values, QUEUE_CAPACITY as int, next);
        let small: MInstView = MInstOf::Rets { rets: operand_pairs(rets) };
        let mid = insts.update(t, small);
        let len = stores.len() as int;
        assert(after == spliced(mid, t - 1, stores));
        assert forall|k: int| 0 <= k < insts.len() implies after[(if k < t - 1 {
            k
        } else {
            k + len
        })] == #[trigger] mid[k] by {}
        assert forall|k: int| 0 <= k < after.len() && (#[trigger] after[k]) is StoreStackArg implies exists|
            u: int,
        |
            0 <= u && store_of_call(after, u, k) by {
            if t - 1 <= k < t - 1 + len {
                assert(after[k] == stores[k - (t - 1)]);
            } else {
                let j = if k < t - 1 {
                    k
                } else {
                    k - len
                };
                assert(mid[j] == after[k]);
                assert(insts[j] is StoreStackArg);
                let u = choose|u: int| store_of_call(insts, u, j);
                let num = stack_passed(insts[u]->CallArgs_sig.params).len();
                // The return's issue stands in no call's site.
                assert(j < t - 1 ==> u < t - 1) by {
                    if j < t - 1 && u >= t - 1 {
                        assert(insts[t - 1] is Ret);
                        if t - 1 < u - 1 {
                            assert(insts[t - 1] is StoreStackArg);
                        }
                    }
                }
                assert(j >= t - 1 ==> u - 1 - num >= t) by {
                    if j >= t - 1 && u - 1 - num < t {
                        assert(insts[t] is Rets && insts[t - 1] is Ret);
                        assert(j != t - 1 && j != t);
                        assert(insts[t] is StoreStackArg);
                    }
                }
                let w = if j < t - 1 {
                    u
                } else {
                    u + len
                };
                assert(mid[u] == insts[u] && mid[u - 1] == insts[u - 1]);
                assert(after[w] == mid[u]);
                assert(after[w - 1] == mid[u - 1]);
                assert forall|m: int| w - 1 - num <= m < w - 1 implies (
                #[trigger] after[m]) is StoreStackArg by {
                    let i = if j < t - 1 {
                        m
                    } else {
                        m - len
                    };
                    assert(insts[i] is StoreStackArg);
                    assert(mid[i] == insts[i]);
                }
                assert(store_of_call(after, w, k));
            }
        }
        assert forall|k: int| 0 <= k < after.len() implies {
            &&& !has_area(after[k]) ==> ((#[trigger] after[k]) matches MInstOf::CallArgs { rets, .. }
                ==> rets.len() <= QUEUE_CAPACITY)
            &&& (after[k] matches MInstOf::Rets { rets } ==> rets.len() <= QUEUE_CAPACITY)
        } by {
            if t - 1 <= k < t - 1 + len {
                assert(after[k] == stores[k - (t - 1)]);
            } else {
                let j = if k < t - 1 {
                    k
                } else {
                    k - len
                };
                assert(mid[j] == after[k]);
                if j != t {
                    assert(mid[j] == insts[j]);
                }
            }
        }
    }
}

proof fn first_rets_bounds(insts: Seq<MInstView>, i: int)
    requires
        0 <= i <= insts.len(),
    ensures
        ({
            let t = first_from(|k: int| insts[k] is Rets, i, insts.len() as int);
            i <= t <= insts.len() && (t < insts.len() ==> insts[t] is Rets)
        }),
    decreases insts.len() - i,
{
    if i < insts.len() && !(insts[i] is Rets) {
        first_rets_bounds(insts, i + 1);
    }
}

proof fn block_lowered_done(
    bb: BBView,
    entry: bool,
    sig: SignatureView,
    private_size: int,
    next: int,
    k: int,
)
    requires
        stack_args_wf(bb.inst),
        block_lowered(bb, entry, sig, private_size, next) is Some,
        0 <= k < block_lowered(bb, entry, sig, private_size, next)->Some_0.0.inst.len(),
    ensures
        stack_args_done(block_lowered(bb, entry, sig, private_size, next)->Some_0.0.inst[k]),
{
    let base = crate::abi::spec_arg_area_base(sig);
    let inst = if entry && base > 0 {
        loads_shifted_alike(bb.inst, base, 0);
        let r = loads_shifted(bb.inst, base, 0)->Some_0;
        assert forall|i: int| 0 <= i < r.len() implies alike(#[trigger] r[i], bb.inst[i]) by {
            assert(alike(r[i], bb.inst[0 + i]));
        }
        wf_alike(r, bb.inst);
        r
    } else {
        bb.inst
    };
    rets_lowered_done(inst, sig.rets, next);
    let (mid, n) = rets_lowered(inst, sig.rets, next)->Some_0;
    calls_lowered_done(BBView { inst: mid, ..bb }, mid.len() as int, private_size, n);
    let after = block_lowered(bb, entry, sig, private_size, next)->Some_0.0.inst;
    assert(calls_done_below(after, after.len() as int));
    if after[k] is StoreStackArg {
        let u = choose|u: int| after.len() <= u && store_of_call(after, u, k);
        assert(false);
    }
}

proof fn lowered_len(
    bbs: Seq<BBView>,
    root: int,
    sig: SignatureView,
    private_size: int,
    v: int,
    next: int,
)
    requires
        0 <= v <= bbs.len(),
    ensures
        stack_args_lowered(bbs, root, sig, private_size, v, next) matches Some((r, _)) ==> r.len()
            == bbs.len() - v,
    decreases bbs.len() - v,
{
    if v < bbs.len() {
        if let Some((_, n)) = block_lowered(bbs[v], v == root, sig, private_size, next) {
            lowered_len(bbs, root, sig, private_size, v + 1, n);
        }
    }
}

proof fn lowered_at(
    bbs: Seq<BBView>,
    root: int,
    sig: SignatureView,
    private_size: int,
    w: int,
    next: int,
    v: int,
    k: int,
)
    requires
        0 <= w <= v < bbs.len(),
        stack_args_wf(bbs[v].inst),
        stack_args_lowered(bbs, root, sig, private_size, w, next) is Some,
        0 <= k < stack_args_lowered(bbs, root, sig, private_size, w, next)->Some_0.0[v
            - w].inst.len(),
    ensures
        stack_args_done(
            stack_args_lowered(bbs, root, sig, private_size, w, next)->Some_0.0[v - w].inst[k],
        ),
    decreases v - w,
{
    let (b, n) = block_lowered(bbs[w], w == root, sig, private_size, next)->Some_0;
    let all = stack_args_lowered(bbs, root, sig, private_size, w, next)->Some_0.0;
    let rest = stack_args_lowered(bbs, root, sig, private_size, w + 1, n)->Some_0.0;
    assert(all == seq![b] + rest);
    lowered_len(bbs, root, sig, private_size, w + 1, n);
    if w < v {
        assert(all[v - w] == rest[v - (w + 1)]);
        lowered_at(bbs, root, sig, private_size, w + 1, n, v, k);
    } else {
        block_lowered_done(bbs[w], w == root, sig, private_size, next, k);
    }
}

/// Once the stack-passed values are resolved, no argument store is left, and
/// returns and calls keep at most as many operands as a queue holds.
pub proof fn no_stack_passed_value_is_left(
    bbs: Seq<BBView>,
    root: int,
    sig: SignatureView,
    private_size: int,
    next: int,
    v: int,
    k: int,
)
    requires
        stack_args_lowered(bbs, root, sig, private_size, 0, next) is Some,
        0 <= v < bbs.len(),
        stack_args_wf(bbs[v].inst),
        0 <= k < stack_args_lowered(bbs, root, sig, private_size, 0, next)->Some_0.0[v].inst.len(),
    ensures
        stack_args_done(
            stack_args_lowered(bbs, root, sig, private_size, 0, next)->Some_0.0[v].inst[k],
        ),
{
    lowered_at(bbs, root, sig, private_size, 0, next, v, k);
}

} // verus!
