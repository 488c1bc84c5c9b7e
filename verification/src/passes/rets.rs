//! Insertion of the return issues.
use crate::bb::{last_below, BBView, VCodeBB};
use crate::cfg::{all_rewritten, run_pass, BlockPass, VCodeCFG};
use crate::inst::{views, MInst, MInstOf, MInstView};
use crate::pass::refused;
use crate::reg::{CodegenError, VRegAllocator};
use vstd::prelude::*;

verus! {

broadcast use crate::inst::views_insert;

/// The position of the last return trigger, or -1.
pub open spec fn last_rets(insts: Seq<MInstView>) -> int {
    last_below(|i: int| insts[i] is Rets, insts.len() as int)
}

/// The instructions with a return issue directly before the return trigger.
pub open spec fn ret_issued(insts: Seq<MInstView>) -> Seq<MInstView> {
    if last_rets(insts) >= 0 {
        insts.insert(last_rets(insts), MInstOf::Ret { trig: 0 })
    } else {
        insts
    }
}

/// Issues the returns of a block.
pub struct IssueRets;

impl BlockPass for IssueRets {
    open spec fn ready(&self) -> bool {
        true
    }

    open spec fn rewritten(&self, v: int, bb: BBView, next: int) -> Option<(BBView, int)> {
        Some((BBView { inst: ret_issued(bb.inst), ..bb }, next))
    }

    proof fn grows(&self, v: int, bb: BBView, next: int) {
    }

    fn run(&self, v: usize, bb: &VCodeBB, vregs: &mut VRegAllocator) -> Result<
        VCodeBB,
        CodegenError,
    > {
        let ghost all = bb@.inst;
        let ghost p = |i: int| all[i] is Rets;
        let mut b = bb.copy();
        let mut i: usize = bb.inst.len();
        while i > 0
            invariant
                i <= bb.inst@.len(),
                all == views(bb.inst@),
                all == bb@.inst,
                b@ == bb@,
                vregs.wf(),
                vregs.next == old(vregs).next,
                p == (|i: int| all[i] is Rets),
                last_rets(all) == last_below(p, i as int),
            decreases i,
        {
            i = i - 1;
            assert(all[i as int] == bb.inst@[i as int]@);
            match &bb.inst[i] {
                MInst::Rets { .. } => {
                    assert(p(i as int));
                    assert(b.inst@.len() == b@.inst.len());
                    b.inst.insert(i, MInst::Ret { trig: 0 });
                    return Ok(b);
                },
                _ => {},
            }
        }
        Ok(b)
    }
}

/// Inserts the return issue as a movable trigger, in every returning block.
pub fn insert_rets(cfg: VCodeCFG, vregs: &mut VRegAllocator) -> (r: Result<VCodeCFG, CodegenError>)
    requires
        old(vregs).wf(),
        cfg.wf(),
    ensures
        final(vregs).wf(),
        match r {
            Ok(c) => {
                &&& c.wf()
                &&& c.graph == cfg.graph
                &&& c.root == cfg.root
                &&& all_rewritten(IssueRets, cfg.bbs(), old(vregs).next as int) == Some(
                    (c.bbs(), final(vregs).next as int),
                )
            },
            Err(e) => refused(
                all_rewritten(IssueRets, cfg.bbs(), old(vregs).next as int),
                e,
                final(vregs).next,
            ),
        },
{
    run_pass(&IssueRets, cfg, vregs)
}

} // verus!
