//! Resolution of arguments and return values that are passed on the stack.
use crate::abi::{
    arg_area_base, areas_fit, areas_fit_parts, check_areas_fit, spec_arg_area_base,
    spec_stack_area_size, stack_area_size, stack_passed, stack_values_layout, value_offset,
};
use crate::bb::{replace_range, first_from, op_count, BBView, VCodeBB};
use crate::cfg::{run_pass, BlockPass, VCodeCFG};
use crate::inst::{views, MInst, MInstOf, MInstView, OperandKind, QUEUE_CAPACITY};
use crate::ir::{AbiParam, Signature, SignatureView};
use crate::isatype::IsaType;
use crate::lower::{
    scale_for, scale_of_pow2, stack_access, stack_access_insts, StackAccess,
};
use crate::pass::refused;
use crate::passes::frame::{adjust_chunks, adjustments, splice, spliced};
use crate::reg::{
    copy_pairs, ran_out, vregs_of, ArgPair, CodegenError, Reg, VRegAllocator, VREG_LIMIT,
};
use crate::rename::{fresh_regs, renamed_each, renamed_each_keeps};
use vstd::prelude::*;

verus! {

broadcast use {crate::inst::views_push, crate::inst::views_add, crate::inst::views_insert};

/// An argument load of the entry block shifted up by the base of the argument
/// area; `None` where it would leave the range of the index. Only argument loads
/// have a type of unknown signedness.
pub open spec fn load_shifted(inst: MInstView, base: int) -> Option<MInstView> {
    match inst {
        MInstOf::LoadStack { ty: IsaType::Integer(s), rd, idx } => {
            let shifted = base / scale_of_pow2(s as int) + idx;
            if s <= 31 && shifted <= 31 {
                Some(MInstOf::LoadStack { ty: IsaType::Integer(s), rd, idx: shifted as u16 })
            } else {
                None
            }
        },
        _ => Some(inst),
    }
}

/// The argument loads from position `i` on shifted.
pub open spec fn loads_shifted(insts: Seq<MInstView>, base: int, i: int) -> Option<Seq<MInstView>>
    decreases insts.len() - i,
{
    if i >= insts.len() {
        Some(Seq::empty())
    } else {
        match (load_shifted(insts[i], base), loads_shifted(insts, base, i + 1)) {
            (Some(first), Some(rest)) => Some(seq![first] + rest),
            _ => None,
        }
    }
}

/// The stores of the stack-passed return values from the `k`th on into the
/// return area, and the index of the next register.
pub open spec fn ret_stores(rets: Seq<ArgPair>, values: Seq<AbiParam>, k: int, next: int) -> (
    Seq<MInstView>,
    int,
)
    decreases rets.len() - k,
{
    if k < QUEUE_CAPACITY || k >= rets.len() {
        (Seq::empty(), next)
    } else {
        let (first, n) = stack_access(
            value_offset(stack_passed(values), k - QUEUE_CAPACITY),
            values[k].value_type.spec_bytes(),
            StackAccess::Store(rets[k].vreg),
            next,
        );
        let (rest, m) = ret_stores(rets, values, k + 1, n);
        (first + rest, m)
    }
}

/// The position of the first return trigger.
pub open spec fn first_rets(insts: Seq<MInstView>) -> int {
    first_from(|i: int| insts[i] is Rets, 0, insts.len() as int)
}

/// The pairs that are passed as operands.
pub open spec fn operand_pairs(pairs: Seq<ArgPair>) -> Seq<ArgPair> {
    if pairs.len() > QUEUE_CAPACITY {
        pairs.take(QUEUE_CAPACITY as int)
    } else {
        pairs
    }
}

/// The instructions with the stack-passed return values stored before the return
/// issue, and only the operand values left at the trigger.
pub open spec fn rets_lowered(insts: Seq<MInstView>, values: Seq<AbiParam>, next: int) -> Option<
    (Seq<MInstView>, int),
> {
    let t = first_rets(insts);
    if t >= insts.len() {
        Some((insts, next))
    } else {
        match insts[t] {
            MInstOf::Rets { rets } => if rets.len() <= QUEUE_CAPACITY {
                Some((insts, next))
            } else if t < 1 || !(insts[t - 1] is Ret) || rets.len() > values.len() {
                None
            } else {
                let (stores, n) = ret_stores(rets, values, QUEUE_CAPACITY as int, next);
                Some(
                    (
                        spliced(
                            insts.update(t, MInstOf::Rets { rets: operand_pairs(rets) }),
                            t - 1,
                            stores,
                        ),
                        n,
                    ),
                )
            },
            _ => None,
        }
    }
}

/// The argument stores from position `i` below `end` resolved to accesses from
/// `base` on; `None` where one is no argument store or out of reach.
pub open spec fn arg_stores(insts: Seq<MInstView>, i: int, end: int, base: int, next: int) -> Option<
    (Seq<MInstView>, int),
>
    decreases end - i,
{
    if i >= end {
        Some((Seq::empty(), next))
    } else {
        match insts[i] {
            MInstOf::StoreStackArg { rs, offset, scale_pow2 } => if scale_pow2 > 31 || base
                + offset > u32::MAX {
                None
            } else {
                let (first, n) = stack_access(
                    base + offset,
                    scale_of_pow2(scale_pow2 as int),
                    StackAccess::Store(rs),
                    next,
                );
                match arg_stores(insts, i + 1, end, base, n) {
                    Some((rest, m)) => Some((first + rest, m)),
                    None => None,
                }
            },
            _ => None,
        }
    }
}

/// The loads of the used stack-passed return values from the `k`th on; `None` where
/// the signature has no place for one.
pub open spec fn ret_loads(
    insts: Seq<MInstView>,
    rets: Seq<ArgPair>,
    values: Seq<AbiParam>,
    base: int,
    k: int,
    next: int,
) -> Option<(Seq<MInstView>, int)>
    decreases rets.len() - k,
{
    if k < QUEUE_CAPACITY || k >= rets.len() {
        Some((Seq::empty(), next))
    } else if op_count(insts, rets[k].vreg, OperandKind::Use) == 0 {
        ret_loads(insts, rets, values, base, k + 1, next)
    } else if k >= values.len() {
        None
    } else {
        let (first, n) = stack_access(
            base + value_offset(stack_passed(values), k - QUEUE_CAPACITY),
            values[k].value_type.spec_bytes(),
            StackAccess::Load(rets[k].vreg),
            next,
        );
        match ret_loads(insts, rets, values, base, k + 1, n) {
            Some((rest, m)) => Some((first + rest, m)),
            None => None,
        }
    }
}

/// A call's site: the reservation of the callee's area, of which the low 16 bits
/// are adjusted, the stores of its stack-passed arguments, and the call with its
/// operand return values.
pub open spec fn call_reserved(bb: BBView, t: int, private_size: int, next: int) -> Option<
    (BBView, int, int),
> {
    match bb.inst[t] {
        MInstOf::CallArgs { link, rets, args, sig } => {
            let area = spec_stack_area_size(sig);
            let num = stack_passed(sig.params).len();
            let first = t - 1 - num;
            let base = private_size + spec_arg_area_base(sig);
            if first < 0 || !(bb.inst[t - 1] is Call) || base > u32::MAX {
                None
            } else {
                match arg_stores(bb.inst, first, t - 1, base, next) {
                    None => None,
                    Some((stores, n)) => {
                        let trigger: MInstView = MInstOf::CallArgs {
                            link,
                            rets: operand_pairs(rets),
                            args,
                            sig,
                        };
                        let site = adjustments(area, true, false) + stores + seq![
                            bb.inst[t - 1],
                            trigger,
                        ];
                        Some(
                            (
                                BBView {
                                    inst: bb.inst.take(first) + site + bb.inst.skip(t + 1),
                                    ..bb
                                },
                                first + site.len(),
                                n,
                            ),
                        )
                    },
                }
            }
        },
        _ => None,
    }
}

/// The operand return values received by an echo at `pos`, behind the trigger,
/// which is the position afterwards.
pub open spec fn rets_received(bb: BBView, pos: int, regs: Seq<Reg>, next: int) -> (BBView, int, int) {
    if regs.len() == 0 {
        (bb, pos, next)
    } else {
        let b = renamed_each(bb, regs, next, regs.len() as int);
        (
            BBView {
                inst: b.inst.insert(
                    pos,
                    MInstOf::Echo { rds: fresh_regs(next, regs.len()), rss: regs },
                ),
                ..b
            },
            pos + 1,
            next + regs.len(),
        )
    }
}

/// A call whose callee has a stack area.
pub open spec fn call_lowered(bb: BBView, t: int, private_size: int, next: int) -> Option<
    (BBView, int),
> {
    match bb.inst[t] {
        MInstOf::CallArgs { rets, sig, .. } => match call_reserved(bb, t, private_size, next) {
            None => None,
            Some((b1, pos1, n1)) => {
                let (b2, pos2, n2) = rets_received(
                    b1,
                    pos1,
                    vregs_of(operand_pairs(rets)),
                    n1,
                );
                match ret_loads(
                    b2.inst,
                    rets,
                    sig.rets,
                    private_size,
                    QUEUE_CAPACITY as int,
                    n2,
                ) {
                    None => None,
                    Some((loads, n3)) => {
                        let tail = loads + adjustments(spec_stack_area_size(sig), false, false);
                        Some((BBView { inst: spliced(b2.inst, pos2, tail), ..b2 }, n3))
                    },
                }
            },
        },
        _ => None,
    }
}

/// Whether the instruction triggers a call whose callee has a stack area.
pub open spec fn has_area(inst: MInstView) -> bool {
    inst matches MInstOf::CallArgs { sig, .. } && !(areas_fit(sig) && spec_stack_area_size(sig) == 0)
}

/// The calls among the last `rem` instructions lowered in order; `None` where a
/// call's site is not as it must be.
pub open spec fn calls_lowered(bb: BBView, rem: int, private_size: int, next: int) -> Option<
    (BBView, int),
>
    decreases rem,
{
    if rem <= 0 {
        Some((bb, next))
    } else {
        let t = bb.inst.len() - rem;
        if has_area(bb.inst[t]) {
            if !(bb.inst[t] matches MInstOf::CallArgs { sig, .. } && areas_fit(sig) && private_size
                + spec_stack_area_size(sig) <= u32::MAX) {
                None
            } else {
                match call_lowered(bb, t, private_size, next) {
                    Some((b, n)) => calls_lowered(b, rem - 1, private_size, n),
                    None => None,
                }
            }
        } else {
            calls_lowered(bb, rem - 1, private_size, next)
        }
    }
}

/// A block with its stack-passed values resolved.
pub open spec fn block_lowered(
    bb: BBView,
    entry: bool,
    sig: SignatureView,
    private_size: int,
    next: int,
) -> Option<(BBView, int)> {
    let shifted = if entry && spec_arg_area_base(sig) > 0 {
        loads_shifted(bb.inst, spec_arg_area_base(sig), 0)
    } else {
        Some(bb.inst)
    };
    match shifted {
        None => None,
        Some(inst) => match rets_lowered(inst, sig.rets, next) {
            None => None,
            Some((inst, n)) => calls_lowered(
                BBView { inst, ..bb },
                inst.len() as int,
                private_size,
                n,
            ),
        },
    }
}

proof fn ret_stores_grow(rets: Seq<ArgPair>, values: Seq<AbiParam>, k: int, next: int)
    ensures
        ret_stores(rets, values, k, next).1 >= next,
    decreases rets.len() - k,
{
    if k >= QUEUE_CAPACITY && k < rets.len() {
        let n = stack_access(
            value_offset(stack_passed(values), k - QUEUE_CAPACITY),
            values[k].value_type.spec_bytes(),
            StackAccess::Store(rets[k].vreg),
            next,
        ).1;
        ret_stores_grow(rets, values, k + 1, n);
    }
}

proof fn arg_stores_grow(insts: Seq<MInstView>, i: int, end: int, base: int, next: int)
    ensures
        arg_stores(insts, i, end, base, next) matches Some((_, n)) ==> n >= next,
    decreases end - i,
{
    if i < end {
        if let MInstOf::StoreStackArg { rs, offset, scale_pow2 } = insts[i] {
            let n = stack_access(
                base + offset,
                scale_of_pow2(scale_pow2 as int),
                StackAccess::Store(rs),
                next,
            ).1;
            arg_stores_grow(insts, i + 1, end, base, n);
        }
    }
}

proof fn ret_loads_grow(
    insts: Seq<MInstView>,
    rets: Seq<ArgPair>,
    values: Seq<AbiParam>,
    base: int,
    k: int,
    next: int,
)
    ensures
        ret_loads(insts, rets, values, base, k, next) matches Some((_, n)) ==> n >= next,
    decreases rets.len() - k,
{
    if k >= QUEUE_CAPACITY && k < rets.len() {
        if op_count(insts, rets[k].vreg, OperandKind::Use) == 0 {
            ret_loads_grow(insts, rets, values, base, k + 1, next);
        } else {
            let n = stack_access(
                base + value_offset(stack_passed(values), k - QUEUE_CAPACITY),
                values[k].value_type.spec_bytes(),
                StackAccess::Load(rets[k].vreg),
                next,
            ).1;
            ret_loads_grow(insts, rets, values, base, k + 1, n);
        }
    }
}

/// Lowering a call takes registers and leaves the instructions behind it.
proof fn call_lowered_keeps(bb: BBView, t: int, private_size: int, next: int)
    requires
        0 <= t < bb.inst.len(),
    ensures
        call_lowered(bb, t, private_size, next) matches Some((b, n)) ==> {
            &&& n >= next
            &&& b.vcode_bb == bb.vcode_bb
            &&& b.inst.len() >= bb.inst.len() - t - 1
        },
{
    if let MInstOf::CallArgs { rets, sig, .. } = bb.inst[t] {
        if let Some((b1, pos1, n1)) = call_reserved(bb, t, private_size, next) {
            let first = t - 1 - stack_passed(sig.params).len();
            arg_stores_grow(
                bb.inst,
                first,
                t - 1,
                private_size + spec_arg_area_base(sig),
                next,
            );
            assert(b1.inst.len() == pos1 + (bb.inst.len() - t - 1));
            let regs = vregs_of(operand_pairs(rets));
            renamed_each_keeps(b1, regs, n1, regs.len() as int);
            let (b2, pos2, n2) = rets_received(b1, pos1, regs, n1);
            assert(b2.inst.len() == pos2 + (bb.inst.len() - t - 1));
            ret_loads_grow(b2.inst, rets, sig.rets, private_size, QUEUE_CAPACITY as int, n2);
        }
    }
}

proof fn calls_lowered_grow(bb: BBView, rem: int, private_size: int, next: int)
    requires
        rem <= bb.inst.len(),
    ensures
        calls_lowered(bb, rem, private_size, next) matches Some((b, n)) ==> n >= next && b.vcode_bb
            == bb.vcode_bb,
    decreases rem,
{
    if rem > 0 {
        let t = bb.inst.len() - rem;
        if has_area(bb.inst[t]) {
            call_lowered_keeps(bb, t, private_size, next);
            if let Some((b, n)) = call_lowered(bb, t, private_size, next) {
                calls_lowered_grow(b, rem - 1, private_size, n);
            }
        } else {
            calls_lowered_grow(bb, rem - 1, private_size, next);
        }
    }
}

/// Shifts the argument loads of the entry block.
fn shift_loads(insts: &Vec<MInst>, base: u32) -> (r: Option<Vec<MInst>>)
    ensures
        match r {
            Some(done) => loads_shifted(views(insts@), base as int, 0) == Some(views(done@)),
            None => loads_shifted(views(insts@), base as int, 0) is None,
        },
{
    let ghost all = views(insts@);
    let mut r: Vec<MInst> = Vec::new();
    for i in 0..insts.len()
        invariant
            all == views(insts@),
            loads_shifted(all, base as int, 0) == (match loads_shifted(all, base as int, i as int) {
                Some(rest) => Some(views(r@) + rest),
                None => None,
            }),
    {
        broadcast use crate::inst::views_push;

        assert(all[i as int] == insts@[i as int]@);
        let ghost before = views(r@);
        let one = match &insts[i] {
            MInst::LoadStack { ty: IsaType::Integer(s), rd, idx } => {
                if *s > 31 {
                    return None;
                }
                let scale: u32 = scale_for(*s as u16);
                let shifted: u64 = (base / scale) as u64 + *idx as u64;
                if shifted > 31 {
                    return None;
                }
                MInst::LoadStack { ty: IsaType::Integer(*s), rd: *rd, idx: shifted as u16 }
            },
            other => other.copy(),
        };
        r.push(one);
        proof {
            if let Some(rest) = loads_shifted(all, base as int, i as int + 1) {
                assert(before + (seq![one@] + rest) =~= views(r@) + rest);
            }
        }
    }
    assert(views(r@) + Seq::<MInstView>::empty() =~= views(r@));
    Some(r)
}

/// The pairs that are passed as operands.
fn operands_of(pairs: &Vec<ArgPair>) -> (r: Vec<ArgPair>)
    ensures
        r@ == operand_pairs(pairs@),
{
    let mut r = copy_pairs(pairs);
    r.truncate(QUEUE_CAPACITY);
    assert(r@ =~= operand_pairs(pairs@));
    r
}

/// The stores of the stack-passed return values.
fn store_rets(rets: &Vec<ArgPair>, values: &Vec<AbiParam>, vregs: &mut VRegAllocator) -> (r: Result<
    Vec<MInst>,
    CodegenError,
>)
    requires
        old(vregs).wf(),
        rets@.len() <= values@.len(),
        crate::abi::area_size(values@) <= u32::MAX,
    ensures
        final(vregs).wf(),
        ({
            let s = ret_stores(
                rets@,
                values@,
                QUEUE_CAPACITY as int,
                old(vregs).next as int,
            );
            match r {
                Ok(insts) => s == (views(insts@), final(vregs).next as int),
                Err(e) => s.1 > VREG_LIMIT && ran_out(e, final(vregs).next),
            }
        }),
{
    let ghost whole = ret_stores(rets@, values@, QUEUE_CAPACITY as int, vregs.next as int);
    let layout = stack_values_layout(values);
    let offsets = layout.0;
    let mut r: Vec<MInst> = Vec::new();
    let mut k: usize = QUEUE_CAPACITY;
    while k < rets.len()
        invariant
            QUEUE_CAPACITY <= k,
            vregs.wf(),
            rets@.len() <= values@.len(),
            offsets@.len() == stack_passed(values@).len(),
            forall|k: int|
                0 <= k < offsets@.len() ==> #[trigger] offsets@[k] == value_offset(
                    stack_passed(values@),
                    k,
                ),
            whole == ret_stores(
                rets@,
                values@,
                QUEUE_CAPACITY as int,
                old(vregs).next as int,
            ),
            whole.0 == views(r@) + ret_stores(rets@, values@, k as int, vregs.next as int).0,
            whole.1 == ret_stores(rets@, values@, k as int, vregs.next as int).1,
        decreases rets@.len() - k,
    {
        broadcast use crate::inst::views_add;

        let ghost before = views(r@);
        let ghost one = stack_access(
            value_offset(stack_passed(values@), k - QUEUE_CAPACITY),
            values@[k as int].value_type.spec_bytes(),
            StackAccess::Store(rets@[k as int].vreg),
            vregs.next as int,
        );
        proof {
            ret_stores_grow(rets@, values@, k + 1, one.1);
        }
        let offset: i64 = offsets[k - QUEUE_CAPACITY] as i64;
        match stack_access_insts(
            offset,
            values[k].value_type.bytes(),
            StackAccess::Store(rets[k].vreg),
            vregs,
        ) {
            Ok(mut insts) => {
                r.append(&mut insts);
            },
            Err(e) => {
                return Err(e);
            },
        }
        proof {
            let rest = ret_stores(rets@, values@, k + 1, vregs.next as int).0;
            assert(before + (one.0 + rest) =~= views(r@) + rest);
        }
        k = k + 1;
    }
    assert(views(r@) + Seq::<MInstView>::empty() =~= views(r@));
    Ok(r)
}

fn find_rets(insts: &Vec<MInst>) -> (r: usize)
    ensures
        r == first_rets(views(insts@)),
        r <= insts@.len(),
{
    let ghost all = views(insts@);
    let ghost p = |i: int| all[i] is Rets;
    for i in 0..insts.len()
        invariant
            all == views(insts@),
            p == (|i: int| all[i] is Rets),
            first_rets(all) == first_from(p, i as int, all.len() as int),
    {
        assert(all[i as int] == insts@[i as int]@);
        match &insts[i] {
            MInst::Rets { .. } => {
                assert(p(i as int));
                return i;
            },
            _ => {},
        }
    }
    insts.len()
}

/// Stores the stack-passed return values before the return.
fn lower_rets(insts: Vec<MInst>, values: &Vec<AbiParam>, vregs: &mut VRegAllocator) -> (r: Result<
    Vec<MInst>,
    CodegenError,
>)
    requires
        old(vregs).wf(),
        crate::abi::area_size(values@) <= u32::MAX,
    ensures
        final(vregs).wf(),
        match r {
            Ok(done) => rets_lowered(views(insts@), values@, old(vregs).next as int) == Some(
                (views(done@), final(vregs).next as int),
            ),
            Err(e) => refused(
                rets_lowered(views(insts@), values@, old(vregs).next as int),
                e,
                final(vregs).next,
            ),
        },
{
    let ghost all = views(insts@);
    let t: usize = find_rets(&insts);
    if t >= insts.len() {
        return Ok(insts);
    }
    assert(all[t as int] == insts@[t as int]@);
    let rets = match &insts[t] {
        MInst::Rets { rets } => copy_pairs(rets),
        _ => {
            return Err(CodegenError::Malformed);
        },
    };
    if rets.len() <= QUEUE_CAPACITY {
        return Ok(insts);
    }
    if t < 1 || rets.len() > values.len() {
        return Err(CodegenError::Malformed);
    }
    assert(all[t - 1] == insts@[t - 1]@);
    match &insts[t - 1] {
        MInst::Ret { .. } => {},
        _ => {
            return Err(CodegenError::Malformed);
        },
    }
    let stores = match store_rets(&rets, values, vregs) {
        Ok(stores) => stores,
        Err(e) => {
            return Err(e);
        },
    };
    let mut cut = insts;
    cut.set(t, MInst::Rets { rets: operands_of(&rets) });
    assert(views(cut@) =~= all.update(t as int, MInstOf::Rets { rets: operand_pairs(rets@) }));
    Ok(splice(&cut, t - 1, stores))
}

/// The stores of the stack-passed arguments of a call.
fn store_args(insts: &Vec<MInst>, first: usize, end: usize, base: u32, vregs: &mut VRegAllocator) -> (r: Result<
    Vec<MInst>,
    CodegenError,
>)
    requires
        old(vregs).wf(),
        first <= end <= insts@.len(),
    ensures
        final(vregs).wf(),
        ({
            let s = arg_stores(
                views(insts@),
                first as int,
                end as int,
                base as int,
                old(vregs).next as int,
            );
            match r {
                Ok(done) => s == Some((views(done@), final(vregs).next as int)),
                Err(e) => refused(s, e, final(vregs).next),
            }
        }),
{
    let ghost all = views(insts@);
    let ghost whole = arg_stores(all, first as int, end as int, base as int, vregs.next as int);
    let mut r: Vec<MInst> = Vec::new();
    for i in first..end
        invariant
            first <= end <= insts@.len(),
            all == views(insts@),
            vregs.wf(),
            whole == arg_stores(
                all,
                first as int,
                end as int,
                base as int,
                old(vregs).next as int,
            ),
            whole == (match arg_stores(
                all,
                i as int,
                end as int,
                base as int,
                vregs.next as int,
            ) {
                Some((rest, n)) => Some((views(r@) + rest, n)),
                None => None,
            }),
    {
        broadcast use crate::inst::views_add;

        assert(all[i as int] == insts@[i as int]@);
        let ghost before = views(r@);
        match &insts[i] {
            MInst::StoreStackArg { rs, offset, scale_pow2 } => {
                if *scale_pow2 > 31 {
                    return Err(CodegenError::Malformed);
                }
                let place: u64 = base as u64 + *offset as u64;
                if place > 0xffff_ffff {
                    return Err(CodegenError::Malformed);
                }
                let ghost one = stack_access(
                    base + *offset,
                    scale_of_pow2(*scale_pow2 as int),
                    StackAccess::Store(*rs),
                    vregs.next as int,
                );
                proof {
                    arg_stores_grow(all, i + 1, end as int, base as int, one.1);
                }
                match stack_access_insts(
                    place as i64,
                    scale_for(*scale_pow2),
                    StackAccess::Store(*rs),
                    vregs,
                ) {
                    Ok(mut done) => {
                        r.append(&mut done);
                    },
                    Err(e) => {
                        return Err(e);
                    },
                }
                proof {
                    if let Some((rest, n)) = arg_stores(
                        all,
                        i + 1,
                        end as int,
                        base as int,
                        vregs.next as int,
                    ) {
                        assert(before + (one.0 + rest) =~= views(r@) + rest);
                    }
                }
            },
            _ => {
                return Err(CodegenError::Malformed);
            },
        }
    }
    assert(views(r@) + Seq::<MInstView>::empty() =~= views(r@));
    Ok(r)
}

/// The loads of the used stack-passed return values of a call.
fn load_rets(
    b: &VCodeBB,
    rets: &Vec<ArgPair>,
    values: &Vec<AbiParam>,
    base: u32,
    vregs: &mut VRegAllocator,
) -> (r: Result<Vec<MInst>, CodegenError>)
    requires
        old(vregs).wf(),
        crate::abi::area_size(values@) <= u32::MAX,
    ensures
        final(vregs).wf(),
        ({
            let s = ret_loads(
                b@.inst,
                rets@,
                values@,
                base as int,
                QUEUE_CAPACITY as int,
                old(vregs).next as int,
            );
            match r {
                Ok(insts) => s == Some((views(insts@), final(vregs).next as int)),
                Err(e) => refused(s, e, final(vregs).next),
            }
        }),
{
    let ghost all = b@.inst;
    let ghost whole = ret_loads(
        all,
        rets@,
        values@,
        base as int,
        QUEUE_CAPACITY as int,
        vregs.next as int,
    );
    let layout = stack_values_layout(values);
    let offsets = layout.0;
    let mut r: Vec<MInst> = Vec::new();
    let mut k: usize = QUEUE_CAPACITY;
    while k < rets.len()
        invariant
            QUEUE_CAPACITY <= k,
            vregs.wf(),
            all == b@.inst,
            offsets@.len() == stack_passed(values@).len(),
            forall|k: int|
                0 <= k < offsets@.len() ==> #[trigger] offsets@[k] == value_offset(
                    stack_passed(values@),
                    k,
                ),
            whole == ret_loads(
                all,
                rets@,
                values@,
                base as int,
                QUEUE_CAPACITY as int,
                old(vregs).next as int,
            ),
            whole == (match ret_loads(
                all,
                rets@,
                values@,
                base as int,
                k as int,
                vregs.next as int,
            ) {
                Some((rest, n)) => Some((views(r@) + rest, n)),
                None => None,
            }),
        decreases rets@.len() - k,
    {
        broadcast use crate::inst::views_add;

        let ghost before = views(r@);
        let rd = rets[k].vreg;
        let uses = b.reg_uses(rd);
        if uses.len() > 0 {
            if k >= values.len() {
                return Err(CodegenError::Malformed);
            }
            let ghost one = stack_access(
                base + value_offset(stack_passed(values@), k - QUEUE_CAPACITY),
                values@[k as int].value_type.spec_bytes(),
                StackAccess::Load(rd),
                vregs.next as int,
            );
            proof {
                ret_loads_grow(all, rets@, values@, base as int, k + 1, one.1);
            }
            let offset: i64 = base as i64 + offsets[k - QUEUE_CAPACITY] as i64;
            match stack_access_insts(
                offset,
                values[k].value_type.bytes(),
                StackAccess::Load(rd),
                vregs,
            ) {
                Ok(mut insts) => {
                    r.append(&mut insts);
                },
                Err(e) => {
                    return Err(e);
                },
            }
            proof {
                if let Some((rest, _)) = ret_loads(
                    all,
                    rets@,
                    values@,
                    base as int,
                    k + 1,
                    vregs.next as int,
                ) {
                    assert(before + (one.0 + rest) =~= views(r@) + rest);
                }
            }
        }
        k = k + 1;
    }
    assert(views(r@) + Seq::<MInstView>::empty() =~= views(r@));
    Ok(r)
}

/// The parts of a call's trigger.
struct CallSite {
    link: Reg,
    rets: Vec<ArgPair>,
    args: Vec<ArgPair>,
    sig: Signature,
}

/// Reserves the callee's area and stores its stack-passed arguments. Returns the
/// position behind the trigger.
fn reserve_call(
    b: &mut VCodeBB,
    t: usize,
    site: &CallSite,
    private_size: u32,
    vregs: &mut VRegAllocator,
) -> (r: Result<usize, CodegenError>)
    requires
        old(vregs).wf(),
        t < old(b).inst@.len(),
        old(b)@.inst[t as int] == (MInstView::CallArgs {
            link: site.link,
            rets: site.rets@,
            args: site.args@,
            sig: site.sig@,
        }),
        areas_fit(site.sig@),
        private_size + spec_stack_area_size(site.sig@) <= u32::MAX,
    ensures
        final(vregs).wf(),
        ({
            let s = call_reserved(
                old(b)@,
                t as int,
                private_size as int,
                old(vregs).next as int,
            );
            match r {
                Ok(pos) => s == Some((final(b)@, pos as int, final(vregs).next as int)) && pos
                    <= final(b).inst@.len(),
                Err(e) => match s {
                    None => e is Malformed || ran_out(e, final(vregs).next),
                    Some((_, _, n)) => n > VREG_LIMIT && ran_out(e, final(vregs).next),
                },
            }
        }),
{
    let ghost all = b@.inst;
    let ghost before = b@;
    proof {
        areas_fit_parts(site.sig@);
    }
    let area: u32 = stack_area_size(&site.sig);
    let base: u32 = private_size + arg_area_base(&site.sig);
    let params: usize = site.sig.params.len();
    let num: usize = if params > QUEUE_CAPACITY {
        params - QUEUE_CAPACITY
    } else {
        0
    };
    assert(num == stack_passed(site.sig.params@).len());
    if t < 1 || t - 1 < num {
        return Err(CodegenError::Malformed);
    }
    let first: usize = t - 1 - num;
    assert(all[t - 1] == b.inst@[t - 1]@);
    match &b.inst[t - 1] {
        MInst::Call { .. } => {},
        _ => {
            return Err(CodegenError::Malformed);
        },
    }
    let mut stores = match store_args(&b.inst, first, t - 1, base, vregs) {
        Ok(stores) => stores,
        Err(e) => {
            return Err(e);
        },
    };
    let mut resolved = adjust_chunks(area, true, false);
    resolved.append(&mut stores);
    resolved.push(b.inst[t - 1].copy());
    resolved.push(
        MInst::CallArgs {
            link: site.link,
            rets: operands_of(&site.rets),
            args: copy_pairs(&site.args),
            sig: site.sig.copy(),
        },
    );
    let count: usize = resolved.len();
    let len: usize = b.inst.len();
    let ghost site_v = views(resolved@);
    b.inst = replace_range(&b.inst, first, t + 1, resolved);
    proof {
        let s = call_reserved(before, t as int, private_size as int, old(vregs).next as int);
        assert(s is Some);
        let stored = arg_stores(all, first as int, t - 1, base as int, old(vregs).next as int);
        let trigger: MInstView = MInstOf::CallArgs {
            link: site.link,
            rets: operand_pairs(site.rets@),
            args: site.args@,
            sig: site.sig@,
        };
        assert(site_v =~= adjustments(area as int, true, false) + stored->Some_0.0 + seq![
            all[t - 1],
            trigger,
        ]);
        assert(b@ =~= s->Some_0.0);
    }
    let total: usize = b.inst.len();
    assert(b@.inst.len() == b.inst@.len());
    assert(b@.inst.len() == first + site_v.len() + (all.len() - t - 1));
    assert(first + count <= total);
    Ok(first + count)
}

/// Receives the operand return values at `pos`. Returns the position behind.
fn receive_rets(b: &mut VCodeBB, pos: usize, rets: &Vec<ArgPair>, vregs: &mut VRegAllocator) -> (r: Result<
    usize,
    CodegenError,
>)
    requires
        old(vregs).wf(),
        pos <= old(b).inst@.len(),
    ensures
        final(vregs).wf(),
        ({
            let s = rets_received(
                old(b)@,
                pos as int,
                vregs_of(operand_pairs(rets@)),
                old(vregs).next as int,
            );
            match r {
                Ok(p) => s == (final(b)@, p as int, final(vregs).next as int) && p
                    <= final(b).inst@.len(),
                Err(e) => s.2 > VREG_LIMIT && ran_out(e, final(vregs).next),
            }
        }),
{
    let operands = operands_of(rets);
    let regs = crate::reg::pair_vregs(&operands);
    if regs.len() == 0 {
        return Ok(pos);
    }
    let ghost before = b@;
    let ghost next = vregs.next as int;
    let rds = match b.replace_by_fresh(&regs, vregs) {
        Ok(rds) => rds,
        Err(e) => {
            return Err(e);
        },
    };
    proof {
        renamed_each_keeps(before, regs@, next, regs@.len() as int);
        assert(b.inst@.len() == b@.inst.len());
        assert(before.inst.len() == old(b).inst@.len());
    }
    b.inst.insert(pos, MInst::Echo { rds, rss: regs });
    assert(b@ =~= rets_received(before, pos as int, regs@, next).0);
    let total: usize = b.inst.len();
    Ok(pos + 1)
}

/// Lowers a call whose callee has a stack area.
fn lower_call(b: &mut VCodeBB, t: usize, site: &CallSite, private_size: u32, vregs: &mut VRegAllocator) -> (r: Result<
    (),
    CodegenError,
>)
    requires
        old(vregs).wf(),
        t < old(b).inst@.len(),
        old(b)@.inst[t as int] == (MInstView::CallArgs {
            link: site.link,
            rets: site.rets@,
            args: site.args@,
            sig: site.sig@,
        }),
        areas_fit(site.sig@),
        private_size + spec_stack_area_size(site.sig@) <= u32::MAX,
    ensures
        final(vregs).wf(),
        match r {
            Ok(()) => call_lowered(
                old(b)@,
                t as int,
                private_size as int,
                old(vregs).next as int,
            ) == Some((final(b)@, final(vregs).next as int)),
            Err(e) => refused(
                call_lowered(old(b)@, t as int, private_size as int, old(vregs).next as int),
                e,
                final(vregs).next,
            ),
        },
{
    let ghost before = b@;
    let ghost next = vregs.next as int;
    proof {
        areas_fit_parts(site.sig@);
        if let Some((b1, pos1, n1)) = call_reserved(before, t as int, private_size as int, next) {
            let (b2, pos2, n2) = rets_received(
                b1,
                pos1,
                vregs_of(operand_pairs(site.rets@)),
                n1,
            );
            ret_loads_grow(
                b2.inst,
                site.rets@,
                site.sig@.rets,
                private_size as int,
                QUEUE_CAPACITY as int,
                n2,
            );
        }
    }
    let pos: usize = match reserve_call(b, t, site, private_size, vregs) {
        Ok(pos) => pos,
        Err(e) => {
            return Err(e);
        },
    };
    let pos: usize = match receive_rets(b, pos, &site.rets, vregs) {
        Ok(pos) => pos,
        Err(e) => {
            return Err(e);
        },
    };
    let ghost b2 = b@;
    let mut tail = match load_rets(b, &site.rets, &site.sig.rets, private_size, vregs) {
        Ok(loads) => loads,
        Err(e) => {
            return Err(e);
        },
    };
    let area: u32 = stack_area_size(&site.sig);
    let mut frees = adjust_chunks(area, false, false);
    tail.append(&mut frees);
    b.inst = splice(&b.inst, pos, tail);
    Ok(())
}

/// The site of a call whose callee has a stack area, if the instruction triggers
/// one, and whether it can be lowered.
fn find_site(inst: &MInst, private_size: u32) -> (r: Option<(CallSite, bool)>)
    ensures
        match r {
            Some((site, fits)) => {
                &&& has_area(inst@)
                &&& inst@ == (MInstView::CallArgs {
                    link: site.link,
                    rets: site.rets@,
                    args: site.args@,
                    sig: site.sig@,
                })
                &&& fits == (areas_fit(site.sig@) && private_size + spec_stack_area_size(site.sig@)
                    <= u32::MAX)
            },
            None => !has_area(inst@),
        },
{
    match inst {
        MInst::CallArgs { link, rets, args, sig } => {
            let mut fits: bool = check_areas_fit(sig);
            if fits {
                proof {
                    areas_fit_parts(sig@);
                }
                let area: u32 = stack_area_size(sig);
                if area == 0 {
                    return None;
                }
                fits = area <= 0xffff_ffff - private_size;
            }
            let site = CallSite {
                link: *link,
                rets: copy_pairs(rets),
                args: copy_pairs(args),
                sig: sig.copy(),
            };
            Some((site, fits))
        },
        _ => None,
    }
}

/// Lowers all calls of a block.
fn lower_calls(b: &mut VCodeBB, private_size: u32, vregs: &mut VRegAllocator) -> (r: Result<
    (),
    CodegenError,
>)
    requires
        old(vregs).wf(),
    ensures
        final(vregs).wf(),
        ({
            let s = calls_lowered(
                old(b)@,
                old(b)@.inst.len() as int,
                private_size as int,
                old(vregs).next as int,
            );
            match r {
                Ok(()) => s == Some((final(b)@, final(vregs).next as int)),
                Err(e) => refused(s, e, final(vregs).next),
            }
        }),
{
    let ghost whole = calls_lowered(
        b@,
        b@.inst.len() as int,
        private_size as int,
        vregs.next as int,
    );
    let mut rem: usize = b.inst.len();
    while rem > 0
        invariant
            vregs.wf(),
            rem <= b.inst@.len(),
            whole == calls_lowered(
                old(b)@,
                old(b)@.inst.len() as int,
                private_size as int,
                old(vregs).next as int,
            ),
            whole == calls_lowered(b@, rem as int, private_size as int, vregs.next as int),
        decreases rem,
    {
        let t: usize = b.inst.len() - rem;
        assert(b@.inst[t as int] == b.inst@[t as int]@);
        match find_site(&b.inst[t], private_size) {
            Some((site, fits)) => {
                if !fits {
                    return Err(CodegenError::Malformed);
                }
                proof {
                    call_lowered_keeps(b@, t as int, private_size as int, vregs.next as int);
                    if let Some((b1, n1)) = call_lowered(
                        b@,
                        t as int,
                        private_size as int,
                        vregs.next as int,
                    ) {
                        calls_lowered_grow(b1, rem - 1, private_size as int, n1);
                    }
                }
                match lower_call(b, t, &site, private_size, vregs) {
                    Ok(()) => {},
                    Err(e) => {
                        return Err(e);
                    },
                }
                assert(b.inst@.len() == b@.inst.len());
            },
            None => {},
        }
        rem = rem - 1;
    }
    Ok(())
}

/// Resolves the stack-passed values of a block.
pub struct LowerStackArgs {
    /// The position of the entry block.
    pub root: usize,
    /// The signature of the function.
    pub sig: Signature,
    /// The size of the function's private frame.
    pub private_size: u32,
}

impl BlockPass for LowerStackArgs {
    open spec fn ready(&self) -> bool {
        areas_fit(self.sig@)
    }

    open spec fn rewritten(&self, v: int, bb: BBView, next: int) -> Option<(BBView, int)> {
        block_lowered(bb, v == self.root, self.sig@, self.private_size as int, next)
    }

    proof fn grows(&self, v: int, bb: BBView, next: int) {
        let base = spec_arg_area_base(self.sig@);
        let shifted = if v == self.root && base > 0 {
            loads_shifted(bb.inst, base, 0)
        } else {
            Some(bb.inst)
        };
        if let Some(inst) = shifted {
            lowered_grows(inst, bb, self.sig@, self.private_size as int, next);
        }
    }

    fn run(&self, v: usize, bb: &VCodeBB, vregs: &mut VRegAllocator) -> Result<
        VCodeBB,
        CodegenError,
    > {
        proof {
            areas_fit_parts(self.sig@);
        }
        let base: u32 = arg_area_base(&self.sig);
        let mut b = bb.copy();
        if v == self.root && base > 0 {
            match shift_loads(&b.inst, base) {
                Some(inst) => {
                    b.inst = inst;
                },
                None => {
                    return Err(CodegenError::Malformed);
                },
            }
        }
        let ghost inst = b@.inst;
        proof {
            lowered_grows(inst, bb@, self.sig@, self.private_size as int, vregs.next as int);
        }
        let insts = crate::bb::copy_insts(&b.inst);
        match lower_rets(insts, &self.sig.rets, vregs) {
            Ok(inst) => {
                b.inst = inst;
            },
            Err(e) => {
                return Err(e);
            },
        }
        assert(b@ =~= BBView { inst: b@.inst, ..bb@ });
        match lower_calls(&mut b, self.private_size, vregs) {
            Ok(()) => Ok(b),
            Err(e) => Err(e),
        }
    }
}

proof fn lowered_grows(
    inst: Seq<MInstView>,
    bb: BBView,
    sig: SignatureView,
    private_size: int,
    next: int,
)
    ensures
        rets_lowered(inst, sig.rets, next) matches Some((i, n)) ==> {
            &&& n >= next
            &&& calls_lowered(
                BBView { inst: i, ..bb },
                i.len() as int,
                private_size,
                n,
            ) matches Some((b, m)) ==> m >= n && b.vcode_bb == bb.vcode_bb
        },
{
    let t = first_rets(inst);
    if t < inst.len() {
        if let MInstOf::Rets { rets } = inst[t] {
            ret_stores_grow(rets, sig.rets, QUEUE_CAPACITY as int, next);
        }
    }
    if let Some((i, n)) = rets_lowered(inst, sig.rets, next) {
        calls_lowered_grow(BBView { inst: i, ..bb }, i.len() as int, private_size, n);
    }
}

/// Resolves all stack-passed call arguments and return values.
///
/// On the callee side, this
/// 1. shifts the entry block's stack-argument loads up by the function's own
///    argument-area base, and
/// 2. splits every return down to its operand return values, storing the
///    stack-passed ones into the return area before the return issue.
///
/// On the caller side, for each call whose callee has a stack area, this
/// 1. reserves the callee's area on the shared frame,
/// 2. resolves each argument store into a concrete stack access (the shared
///    frame starts where the private frame ends),
/// 3. splits the call down to its operand return values and inserts the echo
///    receiving them,
/// 4. loads the used stack-passed return values from the returned area, and
/// 5. frees the area.
pub fn lower_stack_args(
    cfg: VCodeCFG,
    func_sig: &Signature,
    private_size: u32,
    vregs: &mut VRegAllocator,
) -> (r: Result<VCodeCFG, CodegenError>)
    requires
        old(vregs).wf(),
        cfg.wf(),
        areas_fit(func_sig@),
    ensures
        final(vregs).wf(),
        ({
            let whole = stack_args_lowered(
                cfg.bbs(),
                cfg.root as int,
                func_sig@,
                private_size as int,
                0,
                old(vregs).next as int,
            );
            match r {
                Ok(c) => {
                    &&& c.wf()
                    &&& c.graph == cfg.graph
                    &&& c.root == cfg.root
                    &&& whole == Some((c.bbs(), final(vregs).next as int))
                },
                Err(e) => refused(whole, e, final(vregs).next),
            }
        }),
{
    let pass = LowerStackArgs { root: cfg.root, sig: func_sig.copy(), private_size };
    proof {
        lower_pass(pass, cfg.bbs(), 0, vregs.next as int);
    }
    run_pass(&pass, cfg, vregs)
}

/// The blocks from `v` on with their stack-passed values resolved.
pub open spec fn stack_args_lowered(
    bbs: Seq<BBView>,
    root: int,
    sig: SignatureView,
    private_size: int,
    v: int,
    next: int,
) -> Option<(Seq<BBView>, int)>
    decreases bbs.len() - v,
{
    if v >= bbs.len() {
        Some((Seq::empty(), next))
    } else {
        match block_lowered(bbs[v], v == root, sig, private_size, next) {
            None => None,
            Some((b, n)) => match stack_args_lowered(bbs, root, sig, private_size, v + 1, n) {
                None => None,
                Some((rest, m)) => Some((seq![b] + rest, m)),
            },
        }
    }
}

/// Lowering block by block is lowering all blocks.
proof fn lower_pass(pass: LowerStackArgs, bbs: Seq<BBView>, v: int, next: int)
    ensures
        crate::cfg::rewritten_from(pass, bbs, v, next) == stack_args_lowered(
            bbs,
            pass.root as int,
            pass.sig@,
            pass.private_size as int,
            v,
            next,
        ),
    decreases bbs.len() - v,
{
    if v < bbs.len() {
        if let Some((b, n)) = pass.rewritten(v, bbs[v], next) {
            lower_pass(pass, bbs, v + 1, n);
        }
    }
}

/// Resolving stack-passed values takes registers and hands none back.
pub proof fn stack_args_grow(
    bbs: Seq<BBView>,
    root: int,
    sig: SignatureView,
    private_size: int,
    v: int,
    next: int,
)
    ensures
        stack_args_lowered(bbs, root, sig, private_size, v, next) matches Some((_, n)) ==> n
            >= next,
    decreases bbs.len() - v,
{
    if v < bbs.len() {
        let base = spec_arg_area_base(sig);
        let shifted = if v == root && base > 0 {
            loads_shifted(bbs[v].inst, base, 0)
        } else {
            Some(bbs[v].inst)
        };
        if let Some(inst) = shifted {
            lowered_grows(inst, bbs[v], sig, private_size, next);
        }
        if let Some((b, n)) = block_lowered(bbs[v], v == root, sig, private_size, next) {
            stack_args_grow(bbs, root, sig, private_size, v + 1, n);
        }
    }
}

} // verus!
