//! Reordering of operands that arrive in another order than they are used in.
use crate::bb::{first_from, first_from_is_least, last_below, BBView, VCodeBB};
use crate::cfg::{all_rewritten, run_pass, BlockPass, VCodeCFG};
use crate::inst::{views, MInst, MInstOf, MInstView};
use crate::issues::{find_jmp_issues, issue_positions, jumps_wf, trigger_is_listed};
use crate::pass::{
    refused, settled, settled_done, settled_keeps, settled_next, settled_stuck, Step,
};
use crate::reg::{vreg, CodegenError, Reg, VRegAllocator, VREG_LIMIT};
use vstd::prelude::*;

verus! {

broadcast use {crate::inst::views_insert, crate::inst::views_update};

/// A block and the index of the next register.
pub type State = (BBView, int);

/// The position of the instruction that defines a register, or -1. A later
/// definition counts in place of an earlier one.
pub open spec fn def_inst(insts: Seq<MInstView>, r: Reg) -> int {
    last_below(|i: int| insts[i].defs().contains(r), insts.len() as int)
}

/// Where a register is last listed below `n`, or -1.
pub open spec fn last_place(regs: Seq<Reg>, r: Reg, n: int) -> int
    decreases n,
{
    if n <= 0 {
        -1
    } else if regs[n - 1] == r {
        n - 1
    } else {
        last_place(regs, r, n - 1)
    }
}

/// The place of a register among the definitions of its instruction, in the
/// order of production.
pub open spec fn def_slot(insts: Seq<MInstView>, r: Reg) -> int {
    let ds = insts[def_inst(insts, r)].defs();
    last_place(ds, r, ds.len() as int)
}

/// Whether a register is defined in the block.
pub open spec fn is_defined(insts: Seq<MInstView>, r: Reg) -> bool {
    def_inst(insts, r) >= 0
}

/// Whether the value of `a` is produced before that of `b`.
pub open spec fn produced_before(insts: Seq<MInstView>, a: Reg, b: Reg) -> bool {
    def_inst(insts, a) < def_inst(insts, b) || (def_inst(insts, a) == def_inst(insts, b)
        && def_slot(insts, a) < def_slot(insts, b))
}

/// Whether two neighbouring uses both have definitions.
pub open spec fn pair_defined(insts: Seq<MInstView>, i: int, j: int) -> bool {
    is_defined(insts, insts[i].uses()[j]) && is_defined(insts, insts[i].uses()[j + 1])
}

/// Whether two neighbouring uses need attention: one of them is not defined in
/// the block, or they arrive in the wrong order.
pub open spec fn pair_event(insts: Seq<MInstView>, i: int, j: int) -> bool {
    !pair_defined(insts, i, j) || produced_before(
        insts,
        insts[i].uses()[j + 1],
        insts[i].uses()[j],
    )
}

/// The first pair of uses of an instruction that needs attention.
pub open spec fn first_pair(insts: Seq<MInstView>, i: int) -> int {
    first_from(|j: int| pair_event(insts, i, j), 0, insts[i].uses().len() - 1)
}

/// Whether an instruction has uses that need attention.
pub open spec fn inst_event(insts: Seq<MInstView>, i: int) -> bool {
    &&& insts[i].spec_use_order_meaningful()
    &&& insts[i].uses().len() > 1
    &&& first_pair(insts, i) < insts[i].uses().len() - 1
}

/// The first instruction with uses that need attention.
pub open spec fn first_event(insts: Seq<MInstView>) -> int {
    first_from(|i: int| inst_event(insts, i), 0, insts.len() as int)
}

/// Where a value for the instruction at `i` must be produced at the latest, or
/// -1 if the instruction lacks its issue. Values of a trigger are needed before
/// its (first) issue.
pub open spec fn deadline(insts: Seq<MInstView>, i: int) -> int {
    match insts[i] {
        MInstOf::JumpTrigger { .. } => if jumps_wf(insts) {
            issue_positions(insts)[0] as int
        } else {
            -1
        },
        MInstOf::CallArgs { .. } => last_below(|k: int| insts[k] is Call, i),
        MInstOf::Rets { .. } => last_below(|k: int| insts[k] is Ret, i),
        _ => i,
    }
}

/// The uses `j` and `j + 1` of the instruction at `i` go through a reorder.
pub open spec fn reordered(s: State, i: int, j: int) -> Step<State> {
    let (bb, next) = s;
    let uses = bb.inst[i].uses();
    let at = deadline(bb.inst, i);
    if at < 0 {
        Step::Stuck
    } else {
        let inst = bb.inst.update(
            i,
            bb.inst[i].with_uses(uses.update(j, vreg(next + 1)).update(j + 1, vreg(next))),
        );
        Step::Next(
            (
                BBView {
                    inst: inst.insert(
                        at,
                        MInstOf::Reorder {
                            rd1: vreg(next),
                            rd2: vreg(next + 1),
                            rs1: uses[j + 1],
                            rs2: uses[j],
                            out: 0,
                        },
                    ),
                    ..bb
                },
                next + 2,
            ),
        )
    }
}

/// One step: the first pair of uses that arrive in the wrong order is
/// reordered.
pub open spec fn order_step(s: State) -> Step<State> {
    let insts = s.0.inst;
    let i = first_event(insts);
    let j = first_pair(insts, i);
    if i >= insts.len() {
        Step::Done
    } else if !pair_defined(insts, i, j) {
        Step::Stuck
    } else {
        reordered(s, i, j)
    }
}

/// The steps as a function.
pub open spec fn order_steps() -> spec_fn(State) -> Step<State> {
    |s: State| order_step(s)
}

/// Where a register is last listed.
fn last_slot(regs: &Vec<Reg>, r: Reg) -> (k: Option<usize>)
    ensures
        match k {
            Some(k) => k == last_place(regs@, r, regs@.len() as int) && k < regs@.len() && regs@.contains(r),
            None => !regs@.contains(r),
        },
{
    let mut k: usize = regs.len();
    while k > 0
        invariant
            k <= regs@.len(),
            last_place(regs@, r, regs@.len() as int) == last_place(regs@, r, k as int),
            forall|j: int| k <= j < regs@.len() ==> #[trigger] regs@[j] != r,
        decreases k,
    {
        k = k - 1;
        if regs[k] == r {
            return Some(k);
        }
    }
    None
}

/// Where a register is defined: the instruction and the slot.
pub fn find_def(insts: &Vec<MInst>, r: Reg) -> (p: Option<(usize, usize)>)
    ensures
        match p {
            Some((i, k)) => {
                &&& i == def_inst(views(insts@), r)
                &&& k == def_slot(views(insts@), r)
                &&& i < insts@.len()
            },
            None => def_inst(views(insts@), r) < 0,
        },
{
    let ghost all = views(insts@);
    let ghost p = |i: int| all[i].defs().contains(r);
    let mut i: usize = insts.len();
    while i > 0
        invariant
            i <= insts@.len(),
            all == views(insts@),
            p == (|i: int| all[i].defs().contains(r)),
            def_inst(all, r) == last_below(p, i as int),
        decreases i,
    {
        i = i - 1;
        let ds = insts[i].get_defs();
        assert(all[i as int] == insts@[i as int]@);
        match last_slot(&ds, r) {
            Some(k) => {
                assert(p(i as int));
                return Some((i, k));
            },
            None => {},
        }
    }
    None
}

/// The first pair of uses of an instruction that needs attention, and whether
/// both of its uses are defined.
fn find_pair(insts: &Vec<MInst>, i: usize) -> (r: Option<(usize, bool)>)
    requires
        i < insts@.len(),
    ensures
        match r {
            Some((j, defined)) => {
                &&& inst_event(views(insts@), i as int)
                &&& j == first_pair(views(insts@), i as int)
                &&& defined == pair_defined(views(insts@), i as int, j as int)
                &&& j + 1 < views(insts@)[i as int].uses().len()
            },
            None => !inst_event(views(insts@), i as int),
        },
{
    let ghost all = views(insts@);
    assert(all[i as int] == insts@[i as int]@);
    if !insts[i].use_order_meaningful() {
        return None;
    }
    let uses = insts[i].get_uses();
    if uses.len() <= 1 {
        return None;
    }
    let ghost p = |j: int| pair_event(all, i as int, j);
    let n: usize = uses.len() - 1;
    for j in 0..n
        invariant
            n == uses@.len() - 1,
            all == views(insts@),
            i < insts@.len(),
            uses@ == all[i as int].uses(),
            insts@[i as int]@.spec_use_order_meaningful(),
            p == (|j: int| pair_event(all, i as int, j)),
            first_pair(all, i as int) == first_from(p, j as int, n as int),
    {
        let second = find_def(insts, uses[j + 1]);
        let first = find_def(insts, uses[j]);
        match (second, first) {
            (Some((i2, s2)), Some((i1, s1))) => {
                if i2 < i1 || (i2 == i1 && s2 < s1) {
                    assert(p(j as int));
                    return Some((j, true));
                }
                assert(!p(j as int));
            },
            _ => {
                assert(p(j as int));
                return Some((j, false));
            },
        }
    }
    None
}

/// The first instruction with uses that need attention, the pair, and whether
/// both of its uses are defined.
fn find_event(insts: &Vec<MInst>) -> (r: Option<(usize, usize, bool)>)
    ensures
        match r {
            Some((i, j, defined)) => {
                &&& i == first_event(views(insts@))
                &&& i < insts@.len()
                &&& j == first_pair(views(insts@), i as int)
                &&& defined == pair_defined(views(insts@), i as int, j as int)
                &&& j + 1 < views(insts@)[i as int].uses().len()
            },
            None => first_event(views(insts@)) >= insts@.len(),
        },
{
    let ghost all = views(insts@);
    let ghost p = |i: int| inst_event(all, i);
    for i in 0..insts.len()
        invariant
            all == views(insts@),
            p == (|i: int| inst_event(all, i)),
            first_event(all) == first_from(p, i as int, all.len() as int),
    {
        match find_pair(insts, i) {
            Some((j, defined)) => {
                assert(p(i as int));
                return Some((i, j, defined));
            },
            None => {
                assert(!p(i as int));
            },
        }
    }
    None
}

/// The last call issue before a position.
fn find_call_before(insts: &Vec<MInst>, i: usize) -> (r: Option<usize>)
    requires
        i <= insts@.len(),
    ensures
        match r {
            Some(k) => k == last_below(|k: int| views(insts@)[k] is Call, i as int) && k < i,
            None => last_below(|k: int| views(insts@)[k] is Call, i as int) < 0,
        },
{
    let ghost all = views(insts@);
    let ghost p = |k: int| all[k] is Call;
    let mut k: usize = i;
    while k > 0
        invariant
            k <= i <= insts@.len(),
            all == views(insts@),
            p == (|k: int| all[k] is Call),
            last_below(p, i as int) == last_below(p, k as int),
        decreases k,
    {
        k = k - 1;
        assert(all[k as int] == insts@[k as int]@);
        match &insts[k] {
            MInst::Call { .. } => {
                assert(p(k as int));
                return Some(k);
            },
            _ => {},
        }
    }
    None
}

/// The last return issue before a position.
fn find_ret_before(insts: &Vec<MInst>, i: usize) -> (r: Option<usize>)
    requires
        i <= insts@.len(),
    ensures
        match r {
            Some(k) => k == last_below(|k: int| views(insts@)[k] is Ret, i as int) && k < i,
            None => last_below(|k: int| views(insts@)[k] is Ret, i as int) < 0,
        },
{
    let ghost all = views(insts@);
    let ghost p = |k: int| all[k] is Ret;
    let mut k: usize = i;
    while k > 0
        invariant
            k <= i <= insts@.len(),
            all == views(insts@),
            p == (|k: int| all[k] is Ret),
            last_below(p, i as int) == last_below(p, k as int),
        decreases k,
    {
        k = k - 1;
        assert(all[k as int] == insts@[k as int]@);
        match &insts[k] {
            MInst::Ret { .. } => {
                assert(p(k as int));
                return Some(k);
            },
            _ => {},
        }
    }
    None
}

/// Where a value for an instruction must be produced at the latest.
pub fn find_deadline(insts: &Vec<MInst>, i: usize) -> (r: Option<usize>)
    requires
        i < insts@.len(),
    ensures
        match r {
            Some(k) => k == deadline(views(insts@), i as int) && k <= i,
            None => deadline(views(insts@), i as int) < 0,
        },
{
    let ghost all = views(insts@);
    assert(all[i as int] == insts@[i as int]@);
    match &insts[i] {
        MInst::JumpTrigger { .. } => {
            proof {
                trigger_is_listed(all, i as int);
            }
            let n: usize = insts.len();
            match find_jmp_issues(insts) {
                Ok(Some((issues, trigger))) => {
                    proof {
                        only_trigger(all, i as int);
                    }
                    let k: usize = issues[0];
                    assert(issues@[0] <= trigger);
                    Some(k)
                },
                _ => None,
            }
        },
        MInst::CallArgs { .. } => find_call_before(insts, i),
        MInst::Rets { .. } => find_ret_before(insts, i),
        _ => Some(i),
    }
}

/// In well-formed jumps, a trigger is the only one.
proof fn only_trigger(insts: Seq<MInstView>, i: int)
    requires
        jumps_wf(insts),
        0 <= i < insts.len() <= usize::MAX,
        insts[i].is_trigger(),
    ensures
        crate::issues::trigger_positions(insts).len() == 1,
        crate::issues::trigger_positions(insts)[0] == i,
{
    trigger_is_listed(insts, i);
    trigger_contains(insts, i);
}

proof fn trigger_contains(insts: Seq<MInstView>, i: int)
    requires
        0 <= i < insts.len() <= usize::MAX,
        insts[i].is_trigger(),
    ensures
        crate::issues::trigger_positions(insts).contains(i as usize),
    decreases insts.len(),
{
    let init = insts.drop_last();
    let ts = crate::issues::trigger_positions(insts);
    if i < insts.len() - 1 {
        trigger_contains(init, i);
        let ts0 = crate::issues::trigger_positions(init);
        let k = choose|k: int| 0 <= k < ts0.len() && ts0[k] == i as usize;
        assert(ts[k] == i as usize);
    } else {
        assert(ts[ts.len() - 1] == i as usize);
    }
}

/// The steps only take registers and keep the block's name.
proof fn steps_grow(bb: BBView, next: int)
    ensures
        settled(order_steps(), (bb, next)) matches Some((b, n)) ==> n >= next && b.vcode_bb
            == bb.vcode_bb,
{
    if settled(order_steps(), (bb, next)) is Some {
        settled_keeps(
            order_steps(),
            (bb, next),
            |s: State| s.1 >= next && s.0.vcode_bb == bb.vcode_bb,
        );
    }
}

/// A step takes two registers.
proof fn step_needs_two(s: State)
    requires
        !(order_steps()(s) is Done),
    ensures
        settled(order_steps(), s) matches Some((_, n)) ==> n >= s.1 + 2,
{
    match order_steps()(s) {
        Step::Next(t) => {
            settled_next(order_steps(), s);
            steps_grow(t.0, t.1);
        },
        Step::Stuck => {
            settled_stuck(order_steps(), s);
        },
        Step::Done => {},
    }
}

/// Sends the uses `j` and `j + 1` of the instruction at `i` through a reorder at
/// `at`.
fn insert_reorder(b: &mut VCodeBB, i: usize, j: usize, at: usize, first: Reg, second: Reg)
    requires
        i < old(b).inst@.len(),
        at <= i,
        j + 1 < old(b)@.inst[i as int].uses().len(),
    ensures
        ({
            let inst = old(b)@.inst;
            let uses = inst[i as int].uses();
            final(b)@ == (BBView {
                inst: inst.update(
                    i as int,
                    inst[i as int].with_uses(
                        uses.update(j as int, second).update(j + 1, first),
                    ),
                ).insert(
                    at as int,
                    MInstOf::Reorder {
                        rd1: first,
                        rd2: second,
                        rs1: uses[j + 1],
                        rs2: uses[j as int],
                        out: 0,
                    },
                ),
                ..old(b)@
            })
        }),
{
    let ghost before = b@;
    assert(before.inst[i as int] == b.inst@[i as int]@);
    let mut one = b.inst[i].copy();
    let mut uses = one.get_uses();
    let count: usize = uses.len();
    assert(j + 1 < count);
    let first_old = uses[j + 1];
    let second_old = uses[j];
    uses.set(j, second);
    uses.set(j + 1, first);
    one.set_uses(&uses);
    b.inst.set(i, one);
    b.inst.insert(
        at,
        MInst::Reorder { rd1: first, rd2: second, rs1: first_old, rs2: second_old, out: 0 },
    );
}

/// Reorders the operands of a block.
pub struct FixOrderings;

impl BlockPass for FixOrderings {
    open spec fn ready(&self) -> bool {
        true
    }

    open spec fn rewritten(&self, v: int, bb: BBView, next: int) -> Option<(BBView, int)> {
        settled(order_steps(), (bb, next))
    }

    proof fn grows(&self, v: int, bb: BBView, next: int) {
        steps_grow(bb, next);
    }

    fn run(&self, v: usize, bb: &VCodeBB, vregs: &mut VRegAllocator) -> Result<
        VCodeBB,
        CodegenError,
    > {
        let ghost whole = settled(order_steps(), (bb@, vregs.next as int));
        let mut b = bb.copy();
        loop
            invariant
                vregs.wf(),
                whole == settled(order_steps(), (b@, vregs.next as int)),
                whole == settled(order_steps(), (bb@, old(vregs).next as int)),
            decreases VREG_LIMIT - vregs.next,
        {
            broadcast use {crate::inst::views_insert, crate::inst::views_update};

            let ghost s = (b@, vregs.next as int);
            match find_event(&b.inst) {
                None => {
                    proof {
                        settled_done(order_steps(), s);
                    }
                    return Ok(b);
                },
                Some((i, j, defined)) => {
                    if !defined {
                        proof {
                            settled_stuck(order_steps(), s);
                        }
                        return Err(CodegenError::Malformed);
                    }
                    let at: usize = match find_deadline(&b.inst, i) {
                        Some(k) => k,
                        None => {
                            proof {
                                settled_stuck(order_steps(), s);
                            }
                            return Err(CodegenError::Malformed);
                        },
                    };
                    proof {
                        step_needs_two(s);
                    }
                    let first_new = match vregs.fresh() {
                        Ok(r) => r,
                        Err(e) => {
                            return Err(e);
                        },
                    };
                    let second_new = match vregs.fresh() {
                        Ok(r) => r,
                        Err(e) => {
                            return Err(e);
                        },
                    };
                    insert_reorder(&mut b, i, j, at, first_new, second_new);
                    proof {
                        settled_next(order_steps(), s);
                        let (t, n) = order_steps()(s)->Next_0;
                        assert(b@ =~= t);
                    }
                },
            }
        }
    }
}

/// Inserts reorders until every instruction whose operand order makes a
/// difference receives its operands in the order it uses them. A reorder for
/// the arguments of a jump or a call, or for return values, comes before the
/// (first) issue.
pub fn fix_orderings(cfg: VCodeCFG, vregs: &mut VRegAllocator) -> (r: Result<
    VCodeCFG,
    CodegenError,
>)
    requires
        old(vregs).wf(),
        cfg.wf(),
    ensures
        final(vregs).wf(),
        match r {
            Ok(c) => {
                &&& c.wf()
                &&& c.graph == cfg.graph
                &&& c.root == cfg.root
                &&& all_rewritten(FixOrderings, cfg.bbs(), old(vregs).next as int) == Some(
                    (c.bbs(), final(vregs).next as int),
                )
            },
            Err(e) => refused(
                all_rewritten(FixOrderings, cfg.bbs(), old(vregs).next as int),
                e,
                final(vregs).next,
            ),
        },
{
    run_pass(&FixOrderings, cfg, vregs)
}

/// After the pass, the operands of every instruction whose operand order makes
/// a difference are defined in its block and produced in the order of their use.
pub proof fn operands_arrive_in_order(bb: BBView, next: int, i: int, j: int)
    requires
        FixOrderings.rewritten(0, bb, next) is Some,
        ({
            let after = FixOrderings.rewritten(0, bb, next)->Some_0.0.inst;
            &&& 0 <= i < after.len()
            &&& after[i].spec_use_order_meaningful()
            &&& 0 <= j < after[i].uses().len() - 1
        }),
    ensures
        ({
            let after = FixOrderings.rewritten(0, bb, next)->Some_0.0.inst;
            let uses = after[i].uses();
            &&& is_defined(after, uses[j])
            &&& is_defined(after, uses[j + 1])
            &&& !produced_before(after, uses[j + 1], uses[j])
        }),
{
    settled_keeps(order_steps(), (bb, next), |s: State| true);
    let after = FixOrderings.rewritten(0, bb, next)->Some_0.0.inst;
    let p = |i: int| inst_event(after, i);
    first_from_is_least(p, 0, after.len() as int);
    assert(!p(i));
    let q = |j: int| pair_event(after, i, j);
    first_from_is_least(q, 0, after[i].uses().len() - 1);
    assert(!q(j));
}

} // verus!
