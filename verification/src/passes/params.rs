//! Reception of block parameters and delivery of jump arguments.
use crate::bb::{count_of, count_of_take, op_count, BBView, VCodeBB};
use crate::cfg::{all_rewritten, run_pass, BlockPass, VCodeCFG};
use crate::inst::{MInst, MInstOf, MInstView, OperandKind, QUEUE_CAPACITY};
use crate::ir::Signature;
use crate::issues::{find_jmp_issues, jump_issues, jumps_wf};
use crate::pass::{refused, settled};
use crate::passes::order::{count_reg, order_sweeps, resolve_orders, Order};
use crate::reg::{copy_regs, ran_out, vreg, ArgPair, CodegenError, Reg, VRegAllocator, VREG_LIMIT};
use crate::rename::{fresh_regs, renamed_each, renamed_each_keeps};
use vstd::prelude::*;

verus! {

broadcast use {crate::inst::views_insert, crate::inst::views_update};

/// The parameters of the entry block by position, the arguments from the `k`th
/// on being placed by their encoded positions; `None` where one has none.
pub open spec fn arguments_placed(slots: Order, args: Seq<ArgPair>, k: int) -> Option<Order>
    decreases args.len() - k,
{
    if k >= args.len() {
        Some(slots)
    } else {
        match args[k].preg {
            Reg::Real(e) => if e < slots.len() {
                arguments_placed(slots.update(e as int, Some(args[k].vreg)), args, k + 1)
            } else {
                None
            },
            Reg::Virtual(_) => None,
        }
    }
}

/// The registers of an order from position `i` on, open positions being filled
/// with fresh registers, and the index of the next register.
pub open spec fn filled(order: Order, i: int, next: int) -> (Seq<Reg>, int)
    decreases order.len() - i,
{
    if i >= order.len() {
        (Seq::empty(), next)
    } else {
        let (first, n) = match order[i] {
            Some(r) => (r, next),
            None => (vreg(next), next + 1),
        };
        let (rest, m) = filled(order, i + 1, n);
        (seq![first] + rest, m)
    }
}

/// The parameter list of registers that arrive in order.
pub open spec fn args_of(regs: Seq<Reg>) -> MInstView {
    MInstOf::Args { args: Seq::new(regs.len(), |i: int| ArgPair { vreg: regs[i], preg: regs[i] }) }
}

/// All positions taken by the registers.
pub open spec fn all_taken(regs: Seq<Reg>) -> Order {
    Seq::new(regs.len(), |i: int| Some(regs[i]))
}

/// How many parameters of a function with `n` of them are passed as operands.
pub open spec fn operand_params(n: int) -> int {
    crate::chain::min_of(QUEUE_CAPACITY as int, n)
}

/// The arguments that a block starts with.
pub open spec fn leading_args(insts: Seq<MInstView>) -> Seq<ArgPair> {
    if insts.len() > 0 {
        match insts[0] {
            MInstOf::Args { args } => args,
            _ => Seq::empty(),
        }
    } else {
        Seq::empty()
    }
}

/// The instructions behind the arguments.
pub open spec fn after_args(insts: Seq<MInstView>) -> Seq<MInstView> {
    if insts.len() > 0 && insts[0] is Args {
        insts.skip(1)
    } else {
        insts
    }
}

/// The entry block with all its operand parameters in positional order. Unused
/// parameters have no argument, and get registers that are discarded later.
pub open spec fn entry_prepared(bb: BBView, params: int, next: int) -> Option<(BBView, int)> {
    let open: Order = Seq::new(operand_params(params) as nat, |i: int| None);
    match arguments_placed(open, leading_args(bb.inst), 0) {
        None => None,
        Some(slots) => {
            let (regs, n) = filled(slots, 0, next);
            Some(
                (
                    BBView {
                        params: regs,
                        param_order: all_taken(regs),
                        inst: seq![args_of(regs)] + after_args(bb.inst),
                        ..bb
                    },
                    n,
                ),
            )
        },
    }
}

/// Every parameter has exactly one position, and every passed register at least
/// as many as it is passed on any one edge.
pub open spec fn orders_complete(bb: BBView) -> bool {
    &&& forall|i: int|
        0 <= i < bb.params.len() ==> count_of(bb.param_order, Some(#[trigger] bb.params[i])) == 1
    &&& forall|a: int, i: int|
        0 <= a < bb.branch_params.len() && 0 <= i < bb.branch_params[a].1.len() ==> count_of(
            bb.branch_param_order,
            Some(#[trigger] bb.branch_params[a].1[i]),
        ) >= count_of(bb.branch_params[a].1, bb.branch_params[a].1[i])
}

/// The registers of an order without open positions.
pub open spec fn order_regs(o: Order) -> Seq<Reg> {
    Seq::new(o.len(), |i: int| o[i]->Some_0)
}

/// Whether an order has no open position.
pub open spec fn no_open(o: Order) -> bool {
    forall|i: int| 0 <= i < o.len() ==> (#[trigger] o[i]) is Some
}

/// The block passing its outputs in order at its trigger.
pub open spec fn trigger_filled(bb: BBView) -> Option<BBView> {
    if !jumps_wf(bb.inst) {
        None
    } else {
        match jump_issues(bb.inst) {
            None => Some(bb),
            Some((_, trigger)) => match bb.inst[trigger as int] {
                MInstOf::JumpTrigger { link, .. } => if no_open(bb.branch_param_order) {
                    Some(
                        BBView {
                            inst: bb.inst.update(
                                trigger as int,
                                MInstOf::JumpTrigger {
                                    link,
                                    args: order_regs(bb.branch_param_order),
                                },
                            ),
                            ..bb
                        },
                    )
                } else {
                    None
                },
                _ => None,
            },
        }
    }
}

/// The registers, from the `k`th on, that no instruction uses.
pub open spec fn unused_from(insts: Seq<MInstView>, regs: Seq<Reg>, k: int) -> Seq<Reg>
    decreases regs.len() - k,
{
    if k >= regs.len() {
        Seq::empty()
    } else if op_count(insts, regs[k], OperandKind::Use) == 0 {
        seq![regs[k]] + unused_from(insts, regs, k + 1)
    } else {
        unused_from(insts, regs, k + 1)
    }
}

/// The end of the group of registers that starts at `k`.
pub open spec fn group_end(regs: Seq<Reg>, k: int) -> int {
    if k + QUEUE_CAPACITY <= regs.len() {
        k + QUEUE_CAPACITY
    } else {
        regs.len() as int
    }
}

/// The registers from the `k`th on discarded in groups that one instruction can
/// take, each group directly behind the echo.
pub open spec fn discarded(insts: Seq<MInstView>, regs: Seq<Reg>, k: int) -> Seq<MInstView>
    decreases regs.len() - k,
{
    if k < 0 || k >= regs.len() {
        insts
    } else {
        discarded(
            insts.insert(2, MInstOf::Discard { rss: regs.subrange(k, group_end(regs, k)) }),
            regs,
            group_end(regs, k),
        )
    }
}

/// The block receiving its parameters by an echo and discarding the unused ones.
pub open spec fn params_received(bb: BBView, entry: bool, next: int) -> Option<(BBView, int)> {
    let (params, n) = filled(bb.param_order, 0, next);
    let b0 = if entry {
        bb
    } else {
        BBView { inst: bb.inst.insert(0, args_of(params)), ..bb }
    };
    if b0.inst.len() == 0 {
        None
    } else if params.len() == 0 {
        match trigger_filled(b0) {
            Some(b) => Some((b, n)),
            None => None,
        }
    } else {
        let rds = fresh_regs(n, params.len());
        let b1 = renamed_each(b0, params, n, params.len() as int);
        let b2 = BBView { inst: b1.inst.insert(1, MInstOf::Echo { rds, rss: params }), ..b1 };
        match trigger_filled(b2) {
            Some(b) => Some(
                (
                    BBView { inst: discarded(b.inst, unused_from(b.inst, rds, 0), 0), ..b },
                    n + params.len(),
                ),
            ),
            None => None,
        }
    }
}

/// Receives the parameters of a block.
pub struct ReceiveParams {
    /// The position of the entry block.
    pub root: usize,
}

proof fn filled_grows(order: Order, i: int, next: int)
    requires
        0 <= i <= order.len(),
    ensures
        filled(order, i, next).1 >= next,
        filled(order, i, next).0.len() == order.len() - i,
    decreases order.len() - i,
{
    if i < order.len() {
        let n = match order[i] {
            Some(r) => next,
            None => next + 1,
        };
        filled_grows(order, i + 1, n);
    }
}

/// Fills the open positions of an order with fresh registers.
fn fill(order: &Vec<Option<Reg>>, vregs: &mut VRegAllocator) -> (r: Result<Vec<Reg>, CodegenError>)
    requires
        old(vregs).wf(),
    ensures
        final(vregs).wf(),
        match r {
            Ok(regs) => filled(order@, 0, old(vregs).next as int) == (
                regs@,
                final(vregs).next as int,
            ),
            Err(e) => ran_out(e, final(vregs).next) && filled(
                order@,
                0,
                old(vregs).next as int,
            ).1 > VREG_LIMIT,
        },
{
    let ghost whole = filled(order@, 0, vregs.next as int);
    let mut regs: Vec<Reg> = Vec::new();
    for i in 0..order.len()
        invariant
            vregs.wf(),
            whole == filled(order@, 0, old(vregs).next as int),
            whole.0 == regs@ + filled(order@, i as int, vregs.next as int).0,
            whole.1 == filled(order@, i as int, vregs.next as int).1,
    {
        let ghost before = regs@;
        let ghost n0 = vregs.next as int;
        let r = match order[i] {
            Some(r) => r,
            None => {
                proof {
                    filled_grows(order@, i as int + 1, n0 + 1);
                }
                match vregs.fresh() {
                    Ok(r) => r,
                    Err(e) => {
                        return Err(e);
                    },
                }
            },
        };
        regs.push(r);
        let ghost rest = filled(order@, i as int + 1, vregs.next as int).0;
        assert(before + (seq![r] + rest) =~= regs@ + rest);
    }
    assert(regs@ =~= whole.0);
    Ok(regs)
}

/// The parameter list of registers that arrive in order.
fn make_args(regs: &Vec<Reg>) -> (r: MInst)
    ensures
        r@ == args_of(regs@),
{
    let ghost whole = Seq::new(regs@.len(), |i: int| ArgPair { vreg: regs@[i], preg: regs@[i] });
    let mut args: Vec<ArgPair> = Vec::new();
    for i in 0..regs.len()
        invariant
            whole == Seq::new(regs@.len(), |i: int| ArgPair { vreg: regs@[i], preg: regs@[i] }),
            args@ == whole.take(i as int),
    {
        args.push(ArgPair { vreg: regs[i], preg: regs[i] });
        assert(args@ =~= whole.take(i as int + 1));
    }
    assert(args@ =~= whole);
    MInst::Args { args }
}

/// Lets the block pass its outputs in order at its trigger.
fn fill_trigger(b: &mut VCodeBB) -> (ok: bool)
    ensures
        ok ==> trigger_filled(old(b)@) == Some(final(b)@),
        ok ==> final(b).inst@.len() == old(b).inst@.len(),
        !ok ==> trigger_filled(old(b)@) is None,
{
    let ghost before = b@;
    match find_jmp_issues(&b.inst) {
        Err(_) => false,
        Ok(None) => true,
        Ok(Some((issues, trigger))) => {
            assert(before.inst[trigger as int] == b.inst@[trigger as int]@);
            let link: Reg = match &b.inst[trigger] {
                MInst::JumpTrigger { link, .. } => *link,
                _ => {
                    return false;
                },
            };
            let mut args: Vec<Reg> = Vec::new();
            for i in 0..b.branch_param_order.len()
                invariant
                    b@ == before,
                    before == old(b)@,
                    forall|j: int| 0 <= j < i ==> (#[trigger] before.branch_param_order[j]) is Some,
                    args@ == order_regs(before.branch_param_order).take(i as int),
                    jumps_wf(before.inst),
                    jump_issues(before.inst) == Some((issues@, trigger)),
                    before.inst[trigger as int] is JumpTrigger,
            {
                match b.branch_param_order[i] {
                    Some(r) => {
                        args.push(r);
                        assert(args@ =~= order_regs(before.branch_param_order).take(i as int + 1));
                    },
                    None => {
                        assert(!no_open(before.branch_param_order));
                        return false;
                    },
                }
            }
            assert(args@ =~= order_regs(before.branch_param_order));
            b.inst.set(trigger, MInst::JumpTrigger { link, args });
            true
        },
    }
}

/// The registers that no instruction of the block uses.
fn find_unused(b: &VCodeBB, regs: &Vec<Reg>) -> (r: Vec<Reg>)
    ensures
        r@ == unused_from(b@.inst, regs@, 0),
{
    let ghost insts = b@.inst;
    let mut r: Vec<Reg> = Vec::new();
    for k in 0..regs.len()
        invariant
            insts == b@.inst,
            unused_from(insts, regs@, 0) == r@ + unused_from(insts, regs@, k as int),
    {
        let ghost before = r@;
        let uses = b.reg_uses(regs[k]);
        if uses.len() == 0 {
            r.push(regs[k]);
            let ghost rest = unused_from(insts, regs@, k as int + 1);
            assert(before + (seq![regs@[k as int]] + rest) =~= r@ + rest);
        }
    }
    assert(r@ + Seq::<Reg>::empty() =~= r@);
    r
}

/// Discards registers directly behind the echo.
fn discard(b: &mut VCodeBB, regs: &Vec<Reg>)
    requires
        old(b).inst@.len() >= 2,
    ensures
        final(b)@ == (BBView { inst: discarded(old(b)@.inst, regs@, 0), ..old(b)@ }),
{
    let ghost before = b@;
    let mut k: usize = 0;
    while k < regs.len()
        invariant
            k <= regs@.len(),
            before == old(b)@,
            b.inst@.len() >= 2,
            b@ == (BBView { inst: b@.inst, ..before }),
            discarded(before.inst, regs@, 0) == discarded(b@.inst, regs@, k as int),
        decreases regs@.len() - k,
    {
        let end: usize = if regs.len() - k >= QUEUE_CAPACITY {
            k + QUEUE_CAPACITY
        } else {
            regs.len()
        };
        assert(end == group_end(regs@, k as int));
        let mut rss: Vec<Reg> = Vec::new();
        for j in k..end
            invariant
                k <= end <= regs@.len(),
                rss@ == regs@.subrange(k as int, j as int),
        {
            rss.push(regs[j]);
            assert(rss@ =~= regs@.subrange(k as int, j as int + 1));
        }
        b.inst.insert(2, MInst::Discard { rss });
        k = end;
    }
}

impl BlockPass for ReceiveParams {
    open spec fn ready(&self) -> bool {
        true
    }

    open spec fn rewritten(&self, v: int, bb: BBView, next: int) -> Option<(BBView, int)> {
        if orders_complete(bb) {
            params_received(bb, v == self.root, next)
        } else {
            None
        }
    }

    proof fn grows(&self, v: int, bb: BBView, next: int) {
        filled_grows(bb.param_order, 0, next);
        let (params, n) = filled(bb.param_order, 0, next);
        let b0 = BBView { inst: bb.inst.insert(0, args_of(params)), ..bb };
        renamed_each_keeps(bb, params, n, params.len() as int);
        renamed_each_keeps(b0, params, n, params.len() as int);
    }

    fn run(&self, v: usize, bb: &VCodeBB, vregs: &mut VRegAllocator) -> Result<
        VCodeBB,
        CodegenError,
    > {
        if !check_orders(bb) {
            return Err(CodegenError::Malformed);
        }
        receive_params(bb, v == self.root, vregs)
    }
}

fn receive_params(bb: &VCodeBB, entry: bool, vregs: &mut VRegAllocator) -> (r: Result<
    VCodeBB,
    CodegenError,
>)
    requires
        old(vregs).wf(),
    ensures
        final(vregs).wf(),
        match r {
            Ok(b) => params_received(bb@, entry, old(vregs).next as int) == Some(
                (b@, final(vregs).next as int),
            ),
            Err(e) => refused(
                params_received(bb@, entry, old(vregs).next as int),
                e,
                final(vregs).next,
            ),
        },
{
    let ghost start = vregs.next as int;
    proof {
        filled_grows(bb@.param_order, 0, start);
    }
    let params = match fill(&bb.param_order, vregs) {
        Ok(params) => params,
        Err(e) => {
            return Err(e);
        },
    };
    let ghost n = vregs.next as int;
    let mut b = bb.copy();
    if !entry {
        b.inst.insert(0, make_args(&params));
    }
    let ghost b0 = b@;
    assert(b0 =~= (if entry {
        bb@
    } else {
        BBView { inst: bb@.inst.insert(0, args_of(params@)), ..bb@ }
    }));
    if b.inst.len() == 0 {
        return Err(CodegenError::Malformed);
    }
    if params.len() == 0 {
        if fill_trigger(&mut b) {
            return Ok(b);
        }
        return Err(CodegenError::Malformed);
    }
    let rds = match b.replace_by_fresh(&params, vregs) {
        Ok(rds) => rds,
        Err(e) => {
            return Err(e);
        },
    };
    let ghost rds_v = rds@;
    proof {
        renamed_each_keeps(b0, params@, n, params@.len() as int);
    }
    assert(b.inst@.len() == b@.inst.len());
    let echo_regs = copy_regs(&rds);
    let ghost b1 = b@;
    b.inst.insert(1, MInst::Echo { rds, rss: params });
    let ghost b2 = b@;
    assert(b2 =~= BBView {
        inst: b1.inst.insert(1, MInstOf::Echo { rds: rds_v, rss: params@ }),
        ..b1
    });
    assert(b2.inst.len() == b0.inst.len() + 1);
    if !fill_trigger(&mut b) {
        return Err(CodegenError::Malformed);
    }
    let unused = find_unused(&b, &echo_regs);
    discard(&mut b, &unused);
    Ok(b)
}

/// How often a register has a position in an order.
fn count_positions(o: &Vec<Option<Reg>>, r: Reg) -> (n: usize)
    ensures
        n == count_of(o@, Some(r)),
{
    let mut n: usize = 0;
    for i in 0..o.len()
        invariant
            n == count_of(o@.take(i as int), Some(r)),
            n <= i,
    {
        proof {
            count_of_take(o@, Some(r), i as int);
        }
        match o[i] {
            Some(q) => {
                if q == r {
                    n = n + 1;
                }
            },
            None => {},
        }
    }
    assert(o@.take(o@.len() as int) =~= o@);
    n
}

/// Whether every parameter and every passed register has its positions.
fn check_orders(b: &VCodeBB) -> (r: bool)
    ensures
        r == orders_complete(b@),
{
    let ghost bb = b@;
    for i in 0..b.params.len()
        invariant
            bb == b@,
            forall|j: int|
                0 <= j < i ==> count_of(bb.param_order, Some(#[trigger] bb.params[j])) == 1,
    {
        if count_positions(&b.param_order, b.params[i]) != 1 {
            assert(count_of(bb.param_order, Some(bb.params[i as int])) != 1);
            return false;
        }
    }
    for a in 0..b.branch_params.len()
        invariant
            bb == b@,
            forall|j: int|
                0 <= j < bb.params.len() ==> count_of(bb.param_order, Some(#[trigger] bb.params[j]))
                    == 1,
            forall|c: int, j: int|
                0 <= c < a && 0 <= j < bb.branch_params[c].1.len() ==> count_of(
                    bb.branch_param_order,
                    Some(#[trigger] bb.branch_params[c].1[j]),
                ) >= count_of(bb.branch_params[c].1, bb.branch_params[c].1[j]),
    {
        let regs = &b.branch_params[a].1;
        assert(bb.branch_params[a as int].1 == regs@);
        for i in 0..regs.len()
            invariant
                bb == b@,
                a < bb.branch_params.len(),
                bb.branch_params[a as int].1 == regs@,
                forall|j: int|
                    0 <= j < i ==> count_of(
                        bb.branch_param_order,
                        Some(#[trigger] bb.branch_params[a as int].1[j]),
                    ) >= count_of(bb.branch_params[a as int].1, bb.branch_params[a as int].1[j]),
        {
            if count_positions(&b.branch_param_order, regs[i]) < count_reg(regs, regs[i]) {
                assert(bb.branch_params[a as int].1[i as int] == regs@[i as int]);
                return false;
            }
        }
    }
    true
}

/// Places the arguments of the entry block by their encoded positions.
fn place_arguments(args: &Vec<ArgPair>, n: usize) -> (r: Option<Vec<Option<Reg>>>)
    ensures
        match r {
            Some(slots) => arguments_placed(Seq::new(n as nat, |i: int| None), args@, 0) == Some(
                slots@,
            ),
            None => arguments_placed(Seq::new(n as nat, |i: int| None), args@, 0) is None,
        },
{
    let mut slots: Vec<Option<Reg>> = Vec::new();
    let ghost open: Order = Seq::new(n as nat, |i: int| None);
    for i in 0..n
        invariant
            open == Seq::new(n as nat, |i: int| None::<Reg>),
            slots@ == open.take(i as int),
    {
        slots.push(None);
        assert(slots@ =~= open.take(i as int + 1));
    }
    assert(slots@ =~= open);
    for k in 0..args.len()
        invariant
            arguments_placed(open, args@, 0) == arguments_placed(slots@, args@, k as int),
            open == Seq::new(n as nat, |i: int| None::<Reg>),
    {
        let e: u8 = match args[k].preg {
            Reg::Real(e) => e,
            Reg::Virtual(_) => {
                return None;
            },
        };
        if (e as usize) >= slots.len() {
            return None;
        }
        slots.set(e as usize, Some(args[k].vreg));
    }
    Some(slots)
}

/// Prepares the entry block.
fn prepare_entry(bb: &VCodeBB, params: usize, vregs: &mut VRegAllocator) -> (r: Result<
    VCodeBB,
    CodegenError,
>)
    requires
        old(vregs).wf(),
    ensures
        final(vregs).wf(),
        match r {
            Ok(b) => entry_prepared(bb@, params as int, old(vregs).next as int) == Some(
                (b@, final(vregs).next as int),
            ),
            Err(e) => refused(
                entry_prepared(bb@, params as int, old(vregs).next as int),
                e,
                final(vregs).next,
            ),
        },
{
    let mut b = bb.copy();
    let n: usize = if params < QUEUE_CAPACITY {
        params
    } else {
        QUEUE_CAPACITY
    };
    let mut given: Vec<ArgPair> = Vec::new();
    let mut has_args: bool = false;
    if b.inst.len() > 0 {
        assert(bb@.inst[0] == b.inst@[0]@) by {
            assert(b@.inst[0] == b.inst@[0]@);
        }
        match &b.inst[0] {
            MInst::Args { args } => {
                given = crate::reg::copy_pairs(args);
                has_args = true;
            },
            _ => {},
        }
    }
    assert(given@ =~= leading_args(bb@.inst));
    let slots = match place_arguments(&given, n) {
        Some(slots) => slots,
        None => {
            return Err(CodegenError::Malformed);
        },
    };
    let regs = match fill(&slots, vregs) {
        Ok(regs) => regs,
        Err(e) => {
            return Err(e);
        },
    };
    let args = make_args(&regs);
    if has_args {
        b.inst.set(0, args);
    } else {
        b.inst.insert(0, args);
    }
    assert(b@.inst =~= seq![args_of(regs@)] + after_args(bb@.inst));
    let mut order: Vec<Option<Reg>> = Vec::new();
    for i in 0..regs.len()
        invariant
            order@ == all_taken(regs@).take(i as int),
    {
        order.push(Some(regs[i]));
        assert(order@ =~= all_taken(regs@).take(i as int + 1));
    }
    assert(order@ =~= all_taken(regs@));
    b.params = regs;
    b.param_order = order;
    Ok(b)
}

/// The blocks with their parameters received and their outputs passed in the
/// resolved orders.
pub open spec fn params_prepared(
    bbs: Seq<BBView>,
    succs: Map<usize, Seq<usize>>,
    root: int,
    params: int,
    next: int,
) -> Option<(Seq<BBView>, int)> {
    match entry_prepared(bbs[root], params, next) {
        None => None,
        Some((entry, n)) => match settled(order_sweeps(succs), bbs.update(root, entry)) {
            None => None,
            Some(ordered) => all_rewritten(ReceiveParams { root: root as usize }, ordered, n),
        },
    }
}

/// Positions the parameters of all blocks, inserts the echoes that receive them
/// and lets the jumps pass their arguments in the receivers' order.
///
/// The entry block receives the function's operand parameters in positional
/// order. The orders of all other blocks are resolved by propagating known
/// positions across the edges. A parameter without a use is discarded, so that
/// its value does not linger in the operand queue.
pub fn prepare_block_params(
    cfg: VCodeCFG,
    func_sig: &Signature,
    vregs: &mut VRegAllocator,
) -> (r: Result<VCodeCFG, CodegenError>)
    requires
        old(vregs).wf(),
        cfg.wf(),
    ensures
        final(vregs).wf(),
        ({
            let whole = params_prepared(
                cfg.bbs(),
                cfg.succs(),
                cfg.root as int,
                func_sig@.params.len() as int,
                old(vregs).next as int,
            );
            match r {
                Ok(c) => {
                    &&& c.wf()
                    &&& c.graph == cfg.graph
                    &&& c.root == cfg.root
                    &&& whole == Some((c.bbs(), final(vregs).next as int))
                },
                Err(e) => refused(whole, e, final(vregs).next),
            }
        }),
{
    let root: usize = cfg.root;
    let ghost bbs = cfg.bbs();
    let ghost start = vregs.next as int;
    assert(bbs[root as int] == cfg.blocks@[root as int]@);
    let params: usize = func_sig.params.len();
    let mut c = cfg;
    let entry = match prepare_entry(&c.blocks[root], params, vregs) {
        Ok(entry) => entry,
        Err(e) => {
            proof {
                prepared_grows(bbs, c.succs(), root as int, params as int, start);
            }
            return Err(e);
        },
    };
    let ghost n = vregs.next as int;
    c.blocks.set(root, entry);
    assert(c.bbs() =~= bbs.update(root as int, entry@));
    assert(c.wf()) by {
        let b1 = c.bbs();
        assert forall|i: int, j: int| 0 <= i < j < b1.len() implies (#[trigger] b1[i]).vcode_bb != (
        #[trigger] b1[j]).vcode_bb by {
            assert(bbs[i].vcode_bb != bbs[j].vcode_bb);
        }
    }
    match resolve_orders(&mut c) {
        Ok(()) => {},
        Err(e) => {
            return Err(e);
        },
    }
    let pass = ReceiveParams { root };
    run_pass(&pass, c, vregs)
}

/// Preparing the parameters takes registers and hands none back.
pub proof fn prepared_grows(
    bbs: Seq<BBView>,
    succs: Map<usize, Seq<usize>>,
    root: int,
    params: int,
    next: int,
)
    ensures
        params_prepared(bbs, succs, root, params, next) matches Some((_, n)) ==> {
            &&& n >= next
            &&& entry_prepared(bbs[root], params, next) is Some
            &&& n >= entry_prepared(bbs[root], params, next)->Some_0.1
        },
{
    let open: Order = Seq::new(operand_params(params) as nat, |i: int| None);
    if let Some(slots) = arguments_placed(open, leading_args(bbs[root].inst), 0) {
        filled_grows(slots, 0, next);
    }
    if let Some((entry, n)) = entry_prepared(bbs[root], params, next) {
        if let Some(ordered) = settled(order_sweeps(succs), bbs.update(root, entry)) {
            crate::cfg::rewritten_keeps_blocks(
                ReceiveParams { root: root as usize },
                ordered,
                0,
                n,
            );
        }
    }
}

} // verus!
