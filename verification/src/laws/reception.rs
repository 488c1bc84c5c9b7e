//! How blocks receive and pass on values.
use crate::bb::{count_of_zero, op_count, BBView};
use crate::inst::{MInstOf, MInstView, OperandKind, QUEUE_CAPACITY};
use crate::issues::{jump_issues, trigger_is_position};
use crate::operands::with_uses_sets_uses;
use crate::passes::params::{
    after_args, arguments_placed, discarded, entry_prepared, filled, group_end, leading_args,
    params_received, trigger_filled, unused_from,
};
use crate::reg::{vreg, ArgPair, Reg};
use crate::rename::{fresh_regs, renamed_each, replace_each};
use vstd::prelude::*;

verus! {

proof fn placed_keep(slots: Seq<Option<Reg>>, args: Seq<ArgPair>, k: int, e: int)
    requires
        0 <= k <= args.len(),
        arguments_placed(slots, args, k) is Some,
        0 <= e < slots.len(),
        forall|i: int| k <= i < args.len() ==> (#[trigger] args[i]).preg != Reg::Real(e as u8),
        slots.len() <= 256,
    ensures
        arguments_placed(slots, args, k)->Some_0.len() == slots.len(),
        arguments_placed(slots, args, k)->Some_0[e] == slots[e],
    decreases args.len() - k,
{
    if k < args.len() {
        if let Reg::Real(x) = args[k].preg {
            assert(args[k].preg != Reg::Real(e as u8));
            assert(x != e);
            placed_keep(slots.update(x as int, Some(args[k].vreg)), args, k + 1, e);
        }
    }
}

proof fn placed_at(slots: Seq<Option<Reg>>, args: Seq<ArgPair>, k: int, a: int, e: int)
    requires
        0 <= k <= a < args.len(),
        arguments_placed(slots, args, k) is Some,
        slots.len() <= 256,
        args[a].preg == Reg::Real(e as u8),
        0 <= e <= 255,
        forall|i: int| a < i < args.len() ==> (#[trigger] args[i]).preg != Reg::Real(e as u8),
    ensures
        e < slots.len(),
        arguments_placed(slots, args, k)->Some_0[e] == Some(args[a].vreg),
    decreases args.len() - k,
{
    if let Reg::Real(x) = args[k].preg {
        let s = slots.update(x as int, Some(args[k].vreg));
        if k < a {
            placed_at(s, args, k + 1, a, e);
        } else {
            assert(x == e);
            placed_keep(s, args, k + 1, e);
        }
    }
}

proof fn placed_len(slots: Seq<Option<Reg>>, args: Seq<ArgPair>, k: int)
    requires
        arguments_placed(slots, args, k) is Some,
    ensures
        arguments_placed(slots, args, k)->Some_0.len() == slots.len(),
    decreases args.len() - k,
{
    if k < args.len() {
        if let Reg::Real(x) = args[k].preg {
            placed_len(slots.update(x as int, Some(args[k].vreg)), args, k + 1);
        }
    }
}

proof fn filled_at(order: Seq<Option<Reg>>, i: int, next: int, e: int)
    requires
        0 <= i <= order.len(),
    ensures
        filled(order, i, next).0.len() == order.len() - i,
        filled(order, i, next).1 >= next,
        filled(order, i, next).1 <= next + (order.len() - i),
        i <= e < order.len() ==> match order[e] {
            Some(r) => filled(order, i, next).0[e - i] == r,
            None => exists|x: int|
                next <= x < filled(order, i, next).1 && filled(order, i, next).0[e - i] == #[trigger] vreg(
                    x,
                ),
        },
    decreases order.len() - i,
{
    if i < order.len() {
        let (first, n) = match order[i] {
            Some(r) => (r, next),
            None => (vreg(next), next + 1),
        };
        filled_at(order, i + 1, n, e);
        let (rest, m) = filled(order, i + 1, n);
        if i < e < order.len() {
            assert((seq![first] + rest)[e - i] == rest[e - (i + 1)]);
            if order[e] is None {
                let x = choose|x: int| n <= x < m && rest[e - (i + 1)] == #[trigger] vreg(x);
                assert(filled(order, i, next).0[e - i] == vreg(x));
            }
        } else if e == i {
            assert((seq![first] + rest)[0] == first);
            if order[e] is None {
                assert(filled(order, i, next).0[e - i] == vreg(next));
            }
        }
    }
}

/// The entry's parameters are its operands by their encoded positions: an argument
/// is the parameter in its position, and a position without one gets a fresh
/// register. The block starts with all of them, and goes on as before.
pub proof fn entry_parameters_have_their_positions(bb: BBView, params: int, next: int, a: int, e: int)
    requires
        0 <= params,
        entry_prepared(bb, params, next) is Some,
    ensures
        ({
            let (b, n) = entry_prepared(bb, params, next)->Some_0;
            let args = leading_args(bb.inst);
            &&& b.params.len() == (if params < QUEUE_CAPACITY {
                params
            } else {
                QUEUE_CAPACITY as int
            })
            &&& b.inst.len() > 0
            &&& b.inst[0] matches MInstOf::Args { args: all } && all.len() == b.params.len()
            &&& 0 <= e < b.params.len() ==> {
                &&& b.inst[0]->Args_args[e].vreg == b.params[e]
                &&& b.param_order[e] == Some(b.params[e])
            }
            &&& b.inst.skip(1) == after_args(bb.inst)
            &&& 0 <= a < args.len() && 0 <= e <= 255 && args[a].preg == Reg::Real(e as u8) && (
            forall|i: int| a < i < args.len() ==> (#[trigger] args[i]).preg != Reg::Real(e as u8))
                ==> e < b.params.len() && b.params[e] == args[a].vreg
            &&& 0 <= e < b.params.len() && (forall|i: int|
                0 <= i < args.len() ==> (#[trigger] args[i]).preg != Reg::Real(e as u8))
                ==> exists|x: int| next <= x < n && b.params[e] == #[trigger] vreg(x)
            &&& b.branch_params == bb.branch_params
            &&& b.vcode_bb == bb.vcode_bb
        }),
{
    let args = leading_args(bb.inst);
    let count = crate::passes::params::operand_params(params);
    let open: Seq<Option<Reg>> = Seq::new(count as nat, |i: int| None);
    let slots = arguments_placed(open, args, 0)->Some_0;
    placed_len(open, args, 0);
    filled_at(slots, 0, next, e);
    let (b, n) = entry_prepared(bb, params, next)->Some_0;
    assert(b.inst.skip(1) =~= after_args(bb.inst));
    if 0 <= a < args.len() && 0 <= e <= 255 && args[a].preg == Reg::Real(e as u8) && (forall|i: int|
        a < i < args.len() ==> (#[trigger] args[i]).preg != Reg::Real(e as u8)) {
        placed_at(open, args, 0, a, e);
    }
    if 0 <= e < b.params.len() && (forall|i: int|
        0 <= i < args.len() ==> (#[trigger] args[i]).preg != Reg::Real(e as u8)) {
        placed_keep(open, args, 0, e);
    }
}

/// Whether a register was there before the one with the given index was taken.
pub open spec fn is_older(r: Reg, next: int) -> bool {
    r matches Reg::Virtual(x) ==> x < next
}

/// The name of a register once those listed are received under the registers from
/// `next` on.
pub open spec fn received_as(regs: Seq<Reg>, next: int, r: Reg, now: Reg) -> bool {
    if regs.contains(r) {
        exists|p: int| 0 <= p < regs.len() && #[trigger] regs[p] == r && now == vreg(next + p)
    } else {
        now == r
    }
}

proof fn renamed_uses(bb: BBView, regs: Seq<Reg>, next: int, k: int, i: int, u: int)
    requires
        0 <= k <= regs.len(),
        regs.no_duplicates(),
        0 <= next,
        next + regs.len() <= u32::MAX,
        forall|p: int| 0 <= p < regs.len() ==> is_older(#[trigger] regs[p], next),
        0 <= i < bb.inst.len(),
        0 <= u < bb.inst[i].uses().len(),
        is_older(bb.inst[i].uses()[u], next),
    ensures
        ({
            let b = renamed_each(bb, regs, next, k);
            let old = bb.inst[i].uses()[u];
            &&& b.inst.len() == bb.inst.len()
            &&& b.inst[i].uses().len() == bb.inst[i].uses().len()
            &&& b.inst[i] == bb.inst[i].with_uses(b.inst[i].uses())
            &&& b.inst[i].defs() == bb.inst[i].defs()
            &&& forall|p: int|
                0 <= p < k && #[trigger] regs[p] == old ==> b.inst[i].uses()[u] == vreg(next + p)
            &&& (forall|p: int| 0 <= p < k ==> #[trigger] regs[p] != old) ==> b.inst[i].uses()[u]
                == old
        }),
    decreases k,
{
    let inst = bb.inst[i];
    assert(inst.with_uses(inst.uses()) =~= inst);
    if k > 0 {
        renamed_uses(bb, regs, next, k - 1, i, u);
        let prev = renamed_each(bb, regs, next, k - 1);
        let b = renamed_each(bb, regs, next, k);
        let us = replace_each(prev.inst[i].uses(), regs[k - 1], vreg(next + k - 1));
        with_uses_sets_uses(prev.inst[i], us);
        assert(inst.with_uses(prev.inst[i].uses()).with_uses(us) =~= inst.with_uses(us));
        let old = inst.uses()[u];
        assert(is_older(regs[k - 1], next));
        assert forall|p: int| 0 <= p < k && #[trigger] regs[p] == old implies b.inst[i].uses()[u]
            == vreg(next + p) by {
            if p < k - 1 {
                assert(prev.inst[i].uses()[u] == vreg(next + p));
                assert(vreg(next + p) != regs[k - 1]);
            } else {
                assert forall|q: int| 0 <= q < k - 1 implies #[trigger] regs[q] != old by {
                    assert(regs[q] != regs[p]);
                }
            }
        }
    }
}

/// Received values are used under the registers that receive them, wherever they
/// are used; every other use stays.
pub proof fn received_values_are_used_under_their_names(
    bb: BBView,
    regs: Seq<Reg>,
    next: int,
    i: int,
    u: int,
)
    requires
        regs.no_duplicates(),
        0 <= next,
        next + regs.len() <= u32::MAX,
        forall|p: int| 0 <= p < regs.len() ==> is_older(#[trigger] regs[p], next),
        0 <= i < bb.inst.len(),
        0 <= u < bb.inst[i].uses().len(),
        is_older(bb.inst[i].uses()[u], next),
    ensures
        ({
            let b = renamed_each(bb, regs, next, regs.len() as int);
            &&& b.inst.len() == bb.inst.len()
            &&& b.inst[i] == bb.inst[i].with_uses(b.inst[i].uses())
            &&& b.inst[i].defs() == bb.inst[i].defs()
            &&& received_as(regs, next, bb.inst[i].uses()[u], b.inst[i].uses()[u])
        }),
{
    renamed_uses(bb, regs, next, regs.len() as int, i, u);
    let old = bb.inst[i].uses()[u];
    if regs.contains(old) {
        let p = choose|p: int| 0 <= p < regs.len() && regs[p] == old;
        assert(regs[p] == old);
    } else {
        assert forall|p: int| 0 <= p < regs.len() implies #[trigger] regs[p] != old by {}
    }
}

/// Whether instructions drop exactly the registers from the `k`th on, each at most
/// as many as one can take.
pub open spec fn drops(insts: Seq<MInstView>, regs: Seq<Reg>, k: int) -> bool {
    &&& forall|x: int|
        0 <= x < insts.len() ==> #[trigger] insts[x] is Discard && 1
            <= insts[x]->Discard_rss.len() <= QUEUE_CAPACITY
    &&& forall|j: int|
        k <= j < regs.len() ==> exists|x: int|
            0 <= x < insts.len() && (#[trigger] insts[x])->Discard_rss.contains(#[trigger] regs[j])
    &&& forall|x: int, y: int|
        0 <= x < insts.len() && 0 <= y < insts[x]->Discard_rss.len() ==> regs.contains(
            #[trigger] insts[x]->Discard_rss[y],
        )
}

proof fn discards_inserted(insts: Seq<MInstView>, regs: Seq<Reg>, k: int) -> (new: Seq<MInstView>)
    requires
        insts.len() >= 2,
        0 <= k,
    ensures
        discarded(insts, regs, k) == insts.take(2) + new + insts.skip(2),
        drops(new, regs, k),
    decreases regs.len() - k,
{
    if k >= regs.len() {
        let new = Seq::<MInstView>::empty();
        assert(insts =~= insts.take(2) + new + insts.skip(2));
        new
    } else {
        let end = group_end(regs, k);
        let rss = regs.subrange(k, end);
        let first: MInstView = MInstOf::Discard { rss };
        let with = insts.insert(2, first);
        let rest = discards_inserted(with, regs, end);
        let new = rest.push(first);
        assert(with.take(2) + rest + with.skip(2) =~= insts.take(2) + new + insts.skip(2));
        assert forall|j: int| k <= j < regs.len() implies exists|x: int|
            0 <= x < new.len() && (#[trigger] new[x])->Discard_rss.contains(#[trigger] regs[j]) by {
            if j < end {
                assert(rss[j - k] == regs[j]);
                assert(new[rest.len() as int]->Discard_rss.contains(regs[j]));
            } else {
                let x = choose|x: int|
                    0 <= x < rest.len() && (#[trigger] rest[x])->Discard_rss.contains(regs[j]);
                assert(new[x]->Discard_rss.contains(regs[j]));
            }
        }
        assert forall|x: int, y: int|
            0 <= x < new.len() && 0 <= y < new[x]->Discard_rss.len() implies regs.contains(
            #[trigger] new[x]->Discard_rss[y],
        ) by {
            if x < rest.len() {
                assert(new[x] == rest[x]);
                assert(regs.contains(rest[x]->Discard_rss[y]));
            } else {
                assert(new[x]->Discard_rss[y] == regs[k + y]);
            }
        }
        assert forall|x: int| 0 <= x < new.len() implies #[trigger] new[x] is Discard && 1
            <= new[x]->Discard_rss.len() <= QUEUE_CAPACITY by {
            if x < rest.len() {
                assert(new[x] == rest[x]);
            }
        }
        new
    }
}

proof fn unused_are(insts: Seq<MInstView>, regs: Seq<Reg>, k: int, r: Reg)
    requires
        0 <= k <= regs.len(),
    ensures
        unused_from(insts, regs, k).contains(r) <==> op_count(insts, r, OperandKind::Use) == 0
            && regs.skip(k).contains(r),
    decreases regs.len() - k,
{
    if k < regs.len() {
        unused_are(insts, regs, k + 1, r);
        let rest = unused_from(insts, regs, k + 1);
        if regs.skip(k + 1).contains(r) {
            let tail = regs.skip(k + 1);
            let i = choose|i: int| 0 <= i < tail.len() && tail[i] == r;
            assert(regs.skip(k)[i + 1] == r);
        }
        if regs.skip(k).contains(r) {
            let tail = regs.skip(k);
            let i = choose|i: int| 0 <= i < tail.len() && tail[i] == r;
            if i > 0 {
                assert(regs.skip(k + 1)[i - 1] == r);
            }
        }
        assert(regs.skip(k)[0] == regs[k]);
        if op_count(insts, regs[k], OperandKind::Use) == 0 {
            let all = seq![regs[k]] + rest;
            assert(all[0] == regs[k]);
            if rest.contains(r) {
                let i = choose|i: int| 0 <= i < rest.len() && rest[i] == r;
                assert(all[i + 1] == r);
            }
            if all.contains(r) {
                let i = choose|i: int| 0 <= i < all.len() && all[i] == r;
                if i > 0 {
                    assert(rest[i - 1] == r);
                }
            }
        }
    }
}

/// Whether one of the instructions from position `k` on reads a register.
pub open spec fn reads_from(insts: Seq<MInstView>, k: int, r: Reg) -> bool {
    exists|i: int|
        k <= i < insts.len() && (#[trigger] insts[i]).operands().contains((r, OperandKind::Use))
}

/// A register is counted among the uses exactly where something reads it.
pub proof fn counted_uses(insts: Seq<MInstView>, r: Reg)
    ensures
        op_count(insts, r, OperandKind::Use) > 0 <==> reads_from(insts, 0, r),
    decreases insts.len(),
{
    if insts.len() > 0 {
        let init = insts.drop_last();
        counted_uses(init, r);
        count_of_zero(insts.last().operands(), (r, OperandKind::Use));
        if reads_from(init, 0, r) {
            let i = choose|i: int|
                0 <= i < init.len() && (#[trigger] init[i]).operands().contains(
                    (r, OperandKind::Use),
                );
            assert(insts[i] == init[i]);
        }
        if reads_from(insts, 0, r) {
            let i = choose|i: int|
                0 <= i < insts.len() && (#[trigger] insts[i]).operands().contains(
                    (r, OperandKind::Use),
                );
            if i < init.len() {
                assert(init[i] == insts[i]);
            } else {
                assert(insts[i] == insts.last());
            }
        }
        assert(insts[insts.len() - 1] == insts.last());
    }
}

/// A block other than the entry that has parameters starts with them in the order
/// in which they arrive, and echoes each to a fresh register of its own; those that
/// nothing uses are dropped directly behind. What follows is the block as it was,
/// with the received values under their new names, and its trigger passes what the
/// block's output order says.
pub proof fn parameters_are_received_in_order(bb: BBView, next: int, e: int)
    requires
        params_received(bb, false, next) is Some,
        bb.param_order.len() > 0,
        bb.inst.len() < usize::MAX - 2,
    ensures
        ({
            let (b, n) = params_received(bb, false, next)->Some_0;
            let m = n - bb.param_order.len();
            &&& next <= m
            &&& b.inst.len() >= 2
            &&& b.inst[0] matches MInstOf::Args { args } && b.inst[1] matches MInstOf::Echo {
                rds,
                rss,
            } && {
                &&& args.len() == bb.param_order.len()
                &&& rds.len() == args.len()
                &&& rss.len() == args.len()
                &&& 0 <= e < args.len() ==> {
                    &&& args[e].vreg == rss[e]
                    &&& rds[e] == vreg(m + e)
                    &&& bb.param_order[e] matches Some(r) ==> rss[e] == r
                }
                &&& exists|new: Seq<MInstView>, unused: Seq<Reg>|
                    {
                        let renamed = renamed_each(
                            BBView {
                                inst: bb.inst.insert(0, MInstOf::Args { args }),
                                ..bb
                            },
                            rss,
                            m,
                            rss.len() as int,
                        );
                        &&& #[trigger] drops(new, unused, 0)
                        &&& forall|r: Reg| #[trigger]
                            unused.contains(r) ==> rds.contains(r)
                        &&& 0 <= e < rds.len() && !rss.contains(rds[e]) ==> (unused.contains(
                            rds[e],
                        ) <==> !reads_from(b.inst, 2 + new.len() as int, rds[e]))
                        &&& b.inst.len() == 2 + new.len() + bb.inst.len()
                        &&& b.inst.subrange(2, 2 + new.len() as int) == new
                        &&& forall|i: int|
                            0 <= i < bb.inst.len() ==> {
                                let old_inst = renamed.inst[i + 1];
                                let now = #[trigger] b.inst[2 + new.len() + i];
                                ||| now == old_inst
                                ||| {
                                    &&& old_inst is JumpTrigger
                                    &&& now is JumpTrigger
                                    &&& now->JumpTrigger_link == old_inst->JumpTrigger_link
                                    &&& now->JumpTrigger_args.len()
                                        == renamed.branch_param_order.len()
                                    &&& forall|x: int|
                                        0 <= x < now->JumpTrigger_args.len() ==> Some(
                                            #[trigger] now->JumpTrigger_args[x],
                                        ) == renamed.branch_param_order[x]
                                }
                            }
                    }
            }
        }),
{
    let (params, m) = filled(bb.param_order, 0, next);
    filled_at(bb.param_order, 0, next, e);
    let args = crate::passes::params::args_of(params)->Args_args;
    let b0 = BBView { inst: bb.inst.insert(0, MInstOf::Args { args }), ..bb };
    let rds = fresh_regs(m, params.len());
    let b1 = renamed_each(b0, params, m, params.len() as int);
    crate::rename::renamed_each_keeps(b0, params, m, params.len() as int);
    let echo: MInstView = MInstOf::Echo { rds, rss: params };
    let b2 = BBView { inst: b1.inst.insert(1, echo), ..b1 };
    let b3 = trigger_filled(b2)->Some_0;
    first_stays(b0, params, m, params.len() as int);
    if let Some((_, trigger)) = jump_issues(b2.inst) {
        trigger_is_position(b2.inst, 0);
        assert(b3.inst.len() == b2.inst.len());
    }
    assert(b2.inst[0] is Args);
    assert(b3.inst[0] == b2.inst[0]);
    assert(b3.inst[1] == echo);
    let unused = unused_from(b3.inst, rds, 0);
    let new = discards_inserted(b3.inst, unused, 0);
    let b = params_received(bb, false, next)->Some_0.0;
    assert(b.inst == b3.inst.take(2) + new + b3.inst.skip(2));
    assert(b.inst.subrange(2, 2 + new.len() as int) =~= new);
    assert(b.inst[0] == b3.inst[0] && b.inst[1] == b3.inst[1]);
    assert forall|r: Reg| #[trigger] unused.contains(r) implies rds.contains(r) by {
        unused_are(b3.inst, rds, 0, r);
        assert(rds.skip(0) =~= rds);
    }
    assert forall|i: int| 0 <= i < bb.inst.len() implies {
        let old_inst = b1.inst[i + 1];
        let now = #[trigger] b.inst[2 + new.len() + i];
        ||| now == old_inst
        ||| {
            &&& old_inst is JumpTrigger
            &&& now is JumpTrigger
            &&& now->JumpTrigger_link == old_inst->JumpTrigger_link
            &&& now->JumpTrigger_args.len() == b1.branch_param_order.len()
            &&& forall|x: int|
                0 <= x < now->JumpTrigger_args.len() ==> Some(#[trigger] now->JumpTrigger_args[x])
                    == b1.branch_param_order[x]
        }
    } by {
        assert(b.inst[2 + new.len() + i] == b3.inst[2 + i]);
        assert(b2.inst[2 + i] == b1.inst[i + 1]);
    }
    if 0 <= e < rds.len() && !params.contains(rds[e]) {
        let r = rds[e];
        let n = 2 + new.len() as int;
        unused_are(b3.inst, rds, 0, r);
        assert(rds.skip(0) =~= rds);
        assert(rds.contains(r));
        counted_uses(b3.inst, r);
        if reads_from(b.inst, n, r) {
            let i = choose|i: int|
                n <= i < b.inst.len() && (#[trigger] b.inst[i]).operands().contains(
                    (r, OperandKind::Use),
                );
            assert(b.inst[i] == b3.inst[i - new.len()]);
        }
        if reads_from(b3.inst, 0, r) {
            let i = choose|i: int|
                0 <= i < b3.inst.len() && (#[trigger] b3.inst[i]).operands().contains(
                    (r, OperandKind::Use),
                );
            crate::laws::operands::operands_are_uses_and_definitions(
                b3.inst[i],
                (r, OperandKind::Use),
            );
            if i >= 2 {
                assert(b.inst[i + new.len()] == b3.inst[i]);
            }
        }
    }
    assert(drops(new, unused, 0));
}

proof fn first_stays(bb: BBView, regs: Seq<Reg>, next: int, k: int)
    requires
        bb.inst.len() > 0,
        bb.inst[0] is Args,
    ensures
        renamed_each(bb, regs, next, k).inst.len() == bb.inst.len(),
        renamed_each(bb, regs, next, k).inst[0] == bb.inst[0],
    decreases k,
{
    if k > 0 {
        first_stays(bb, regs, next, k - 1);
    }
}

} // verus!
