//! The capacities of the ready queues.
use crate::bb::VCodeBB;
use crate::cfg::VCodeCFG;
use crate::inst::{views, MInst, MInstView, QUEUE_CAPACITY};
use crate::reg::{CodegenError, Reg};
use crate::rename::contains_reg;
use vstd::prelude::*;

verus! {

/// The last instruction below `n` that uses a register, or -1.
pub open spec fn last_user(insts: Seq<MInstView>, r: Reg, n: int) -> int
    decreases n,
{
    if n <= 0 {
        -1
    } else if insts[n - 1].uses().contains(r) {
        n - 1
    } else {
        last_user(insts, r, n - 1)
    }
}

/// How many of the first `k` registers go to the instruction at `u`.
pub open spec fn sent_to(insts: Seq<MInstView>, regs: Seq<Reg>, u: int, k: int) -> int
    decreases k,
{
    if k <= 0 {
        0
    } else {
        sent_to(insts, regs, u, k - 1) + (if last_user(insts, regs[k - 1], insts.len() as int)
            == u {
            1int
        } else {
            0int
        })
    }
}

/// How many operands the first `i` instructions deliver to the one at `u`.
pub open spec fn arrivals(insts: Seq<MInstView>, u: int, i: int) -> int
    decreases i,
{
    if i <= 0 {
        0
    } else {
        arrivals(insts, u, i - 1) + sent_to(
            insts,
            insts[i - 1].defs(),
            u,
            insts[i - 1].defs().len() as int,
        )
    }
}

/// Whether the operands of an instruction leave the block or the frame.
pub open spec fn is_boundary(inst: MInstView) -> bool {
    inst is JumpTrigger || inst is CallArgs || inst is Rets
}

/// Whether no instruction is delivered more operands than its queue can hold.
pub open spec fn capacities_hold(insts: Seq<MInstView>) -> bool {
    forall|u: int|
        0 <= u < insts.len() && !is_boundary(#[trigger] insts[u]) ==> arrivals(
            insts,
            u,
            insts.len() as int,
        ) <= QUEUE_CAPACITY
}

fn find_last_user(insts: &Vec<MInst>, r: Reg) -> (u: Option<usize>)
    ensures
        match u {
            Some(u) => u == last_user(views(insts@), r, insts@.len() as int) && u < insts@.len(),
            None => last_user(views(insts@), r, insts@.len() as int) < 0,
        },
{
    let ghost all = views(insts@);
    let mut n: usize = insts.len();
    while n > 0
        invariant
            n <= insts@.len(),
            all == views(insts@),
            last_user(all, r, all.len() as int) == last_user(all, r, n as int),
        decreases n,
    {
        n = n - 1;
        assert(all[n as int] == insts@[n as int]@);
        let uses = insts[n].get_uses();
        if contains_reg(&uses, r) {
            return Some(n);
        }
    }
    None
}

proof fn sent_to_nonneg(insts: Seq<MInstView>, regs: Seq<Reg>, u: int, k: int)
    ensures
        0 <= sent_to(insts, regs, u, k),
    decreases k,
{
    if k > 0 {
        sent_to_nonneg(insts, regs, u, k - 1);
    }
}

proof fn arrivals_part(insts: Seq<MInstView>, u: int, i: int, n: int)
    requires
        i <= n,
    ensures
        arrivals(insts, u, i) <= arrivals(insts, u, n),
    decreases n,
{
    if i < n && n > 0 {
        arrivals_part(insts, u, i, n - 1);
        let ds = insts[n - 1].defs();
        sent_to_nonneg(insts, ds, u, ds.len() as int);
    }
}

proof fn sent_to_part(insts: Seq<MInstView>, regs: Seq<Reg>, u: int, k: int, n: int)
    requires
        k <= n,
    ensures
        sent_to(insts, regs, u, k) <= sent_to(insts, regs, u, n),
    decreases n,
{
    if k < n && n > 0 {
        sent_to_part(insts, regs, u, k, n - 1);
    }
}

/// Whether the queue of the instruction at `u` holds what it is delivered.
fn check_arrivals(insts: &Vec<MInst>, u: usize) -> (r: bool)
    requires
        u < insts@.len(),
    ensures
        r == (arrivals(views(insts@), u as int, insts@.len() as int) <= QUEUE_CAPACITY),
{
    let ghost all = views(insts@);
    let mut count: usize = 0;
    for i in 0..insts.len()
        invariant
            all == views(insts@),
            count == arrivals(all, u as int, i as int),
            count <= QUEUE_CAPACITY,
    {
        assert(all[i as int] == insts@[i as int]@);
        let defs = insts[i].get_defs();
        let ghost before = count as int;
        for k in 0..defs.len()
            invariant
                all == views(insts@),
                i < insts@.len(),
                defs@ == all[i as int].defs(),
                before == arrivals(all, u as int, i as int),
                count == before + sent_to(all, defs@, u as int, k as int),
                count <= QUEUE_CAPACITY,
        {
            let hit: bool = match find_last_user(insts, defs[k]) {
                Some(w) => w == u,
                None => false,
            };
            if hit {
                count = count + 1;
            }
            if count > QUEUE_CAPACITY {
                proof {
                    sent_to_part(all, defs@, u as int, k + 1, defs@.len() as int);
                    arrivals_part(all, u as int, i + 1, all.len() as int);
                }
                return false;
            }
        }
    }
    true
}

/// Whether no instruction of a block is delivered more operands than its queue
/// can hold.
fn check_capacities(bb: &VCodeBB) -> (r: bool)
    ensures
        r == capacities_hold(bb@.inst),
{
    let ghost all = bb@.inst;
    for u in 0..bb.inst.len()
        invariant
            all == views(bb.inst@),
            all == bb@.inst,
            forall|w: int|
                0 <= w < u && !is_boundary(#[trigger] all[w]) ==> arrivals(
                    all,
                    w,
                    all.len() as int,
                ) <= QUEUE_CAPACITY,
    {
        assert(all[u as int] == bb.inst@[u as int]@);
        let boundary: bool = match &bb.inst[u] {
            MInst::JumpTrigger { .. } | MInst::CallArgs { .. } | MInst::Rets { .. } => true,
            _ => false,
        };
        if !boundary {
            if !check_arrivals(&bb.inst, u) {
                assert(!is_boundary(all[u as int]));
                return false;
            }
        }
    }
    true
}

/// Checks that no instruction consumes more operands than its ready queue can
/// hold; the machine silently drops operands delivered beyond that.
///
/// Deliveries are counted at the consuming instruction, so values leaving the
/// block or frame (branch arguments, call arguments, return values) are not
/// counted at their trigger: they are counted where they arrive.
pub fn assert_queue_capacities(cfg: &VCodeCFG) -> (r: Result<(), CodegenError>)
    ensures
        match r {
            Ok(()) => forall|v: int|
                0 <= v < cfg.bbs().len() ==> capacities_hold((#[trigger] cfg.bbs()[v]).inst),
            Err(e) => e is Malformed && exists|v: int|
                0 <= v < cfg.bbs().len() && !capacities_hold((#[trigger] cfg.bbs()[v]).inst),
        },
{
    let ghost bbs = cfg.bbs();
    for v in 0..cfg.blocks.len()
        invariant
            bbs == cfg.bbs(),
            forall|w: int| 0 <= w < v ==> capacities_hold((#[trigger] bbs[w]).inst),
    {
        assert(bbs[v as int] == cfg.blocks@[v as int]@);
        if !check_capacities(&cfg.blocks[v]) {
            assert(!capacities_hold(bbs[v as int].inst));
            return Err(CodegenError::Malformed);
        }
    }
    Ok(())
}

} // verus!
