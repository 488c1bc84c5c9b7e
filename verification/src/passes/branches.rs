//! The senses of branch conditions.
use crate::bb::{BBView, VCodeBB};
use crate::cfg::{run_pass, BlockPass, VCodeCFG};
use crate::inst::{IssueKind, MInst, MInstOf, MInstView, UnaryAluOp};
use crate::issues::{find_jmp_issues, jumps_wf};
use crate::layout::{
    block_of, insertion_keeps_exit, issue_update_keeps_exit, layout_depends_on_exits_alone,
    layout_places_every_block, same_exit, same_exit_trans, Shape,
};
use crate::pass::refused;
use crate::reg::{vreg, Block, CodegenError, MachLabel, VRegAllocator};
use vstd::prelude::*;

verus! {

broadcast use {crate::inst::views_insert, crate::inst::views_update};

/// The blocks in the order of a layout.
pub open spec fn laid_out(bbs: Seq<BBView>, layout: Seq<usize>) -> Seq<Block> {
    Seq::new(layout.len(), |k: int| bbs[layout[k] as int].vcode_bb)
}

/// The place of a block in an order, from `k` on.
pub open spec fn block_place(order: Seq<Block>, b: Block, k: int) -> int
    decreases order.len() - k,
{
    if k >= order.len() || order[k] == b {
        k
    } else {
        block_place(order, b, k + 1)
    }
}

/// Whether a branch from the block at `here` to a label jumps forward.
pub open spec fn jumps_forward(order: Seq<Block>, here: int, dst: MachLabel) -> bool {
    block_place(order, block_of(dst), 0) > here
}

/// The instructions, those below `k` having the conditions of their forward
/// branches negated from the last to the first, and the index of the next
/// register; `None` where a branch has no target or is negated already.
///
/// A forward jump is taken if its condition is zero, a backward one if it is not;
/// lowering emits all conditions for backward jumps.
pub open spec fn negated_below(
    insts: Seq<MInstView>,
    order: Seq<Block>,
    here: int,
    k: int,
    next: int,
) -> Option<(Seq<MInstView>, int)>
    decreases k,
{
    if k <= 0 {
        Some((insts, next))
    } else {
        match insts[k - 1] {
            MInstOf::JumpIssue { link, dst, kind: IssueKind::Branch { dir, cond }, trig } => {
                if block_place(order, block_of(dst), 0) >= order.len() {
                    None
                } else if !jumps_forward(order, here, dst) {
                    negated_below(insts, order, here, k - 1, next)
                } else if dir {
                    None
                } else {
                    let issue: MInstView = MInstOf::JumpIssue {
                        link,
                        dst,
                        kind: IssueKind::Branch { dir: true, cond: vreg(next) },
                        trig,
                    };
                    let negation: MInstView = MInstOf::UnaryAlu {
                        op: UnaryAluOp::LogNeg,
                        rd: vreg(next),
                        rs: cond,
                        out: 0,
                    };
                    negated_below(
                        insts.update(k - 1, issue).insert(k - 1, negation),
                        order,
                        here,
                        k - 1,
                        next + 1,
                    )
                }
            },
            _ => negated_below(insts, order, here, k - 1, next),
        }
    }
}

proof fn negated_grows(insts: Seq<MInstView>, order: Seq<Block>, here: int, k: int, next: int)
    ensures
        negated_below(insts, order, here, k, next) matches Some((_, n)) ==> n >= next,
    decreases k,
{
    if k > 0 {
        match insts[k - 1] {
            MInstOf::JumpIssue { link, dst, kind: IssueKind::Branch { dir, cond }, trig } => {
                let issue: MInstView = MInstOf::JumpIssue {
                    link,
                    dst,
                    kind: IssueKind::Branch { dir: true, cond: vreg(next) },
                    trig,
                };
                let negation: MInstView = MInstOf::UnaryAlu {
                    op: UnaryAluOp::LogNeg,
                    rd: vreg(next),
                    rs: cond,
                    out: 0,
                };
                negated_grows(insts, order, here, k - 1, next);
                negated_grows(
                    insts.update(k - 1, issue).insert(k - 1, negation),
                    order,
                    here,
                    k - 1,
                    next + 1,
                );
            },
            _ => {
                negated_grows(insts, order, here, k - 1, next);
            },
        }
    }
}

/// Fixes the branch conditions of a block.
pub struct FixBranchConditions {
    /// The blocks in the order of the layout.
    pub order: Vec<Block>,
}

/// Finds the place of a block.
pub fn find_block_place(order: &Vec<Block>, b: Block) -> (k: usize)
    ensures
        k == block_place(order@, b, 0),
        k <= order@.len(),
{
    let mut k: usize = 0;
    while k < order.len() && !(order[k] == b)
        invariant
            k <= order@.len(),
            block_place(order@, b, 0) == block_place(order@, b, k as int),
        decreases order@.len() - k,
    {
        k = k + 1;
    }
    k
}

impl BlockPass for FixBranchConditions {
    open spec fn ready(&self) -> bool {
        true
    }

    open spec fn rewritten(&self, v: int, bb: BBView, next: int) -> Option<(BBView, int)> {
        branches_fixed(bb, self.order@, next)
    }

    proof fn grows(&self, v: int, bb: BBView, next: int) {
        negated_grows(
            bb.inst,
            self.order@,
            block_place(self.order@, bb.vcode_bb, 0),
            bb.inst.len() as int,
            next,
        );
    }

    fn run(&self, v: usize, bb: &VCodeBB, vregs: &mut VRegAllocator) -> Result<
        VCodeBB,
        CodegenError,
    > {
        match find_jmp_issues(&bb.inst) {
            Ok(_) => {},
            Err(e) => {
                return Err(e);
            },
        }
        let ghost order = self.order@;
        let here: usize = find_block_place(&self.order, bb.vcode_bb);
        let mut b = bb.copy();
        let ghost whole = negated_below(
            bb@.inst,
            order,
            here as int,
            bb@.inst.len() as int,
            vregs.next as int,
        );
        let mut k: usize = b.inst.len();
        while k > 0
            invariant
                order == self.order@,
                vregs.wf(),
                jumps_wf(bb@.inst),
                here == block_place(order, bb@.vcode_bb, 0),
                k <= b.inst@.len(),
                b@ == (BBView { inst: b@.inst, ..bb@ }),
                whole == negated_below(
                    bb@.inst,
                    order,
                    here as int,
                    bb@.inst.len() as int,
                    old(vregs).next as int,
                ),
                whole == negated_below(b@.inst, order, here as int, k as int, vregs.next as int),
            decreases k,
        {
            broadcast use {crate::inst::views_insert, crate::inst::views_update};

            k = k - 1;
            assert(b@.inst[k as int] == b.inst@[k as int]@);
            let ghost insts = b@.inst;
            let mut fixed: Option<(MInst, MInst)> = None;
            match &b.inst[k] {
                MInst::JumpIssue { link, dst, kind, trig } => {
                    match kind {
                        IssueKind::Branch { dir, cond } => {
                            let place: usize = find_block_place(
                                &self.order,
                                Block { index: dst.index },
                            );
                            if place >= self.order.len() {
                                return Err(CodegenError::Malformed);
                            }
                            if place > here {
                                if *dir {
                                    return Err(CodegenError::Malformed);
                                }
                                proof {
                                    let issue: MInstView = MInstOf::JumpIssue {
                                        link: *link,
                                        dst: *dst,
                                        kind: IssueKind::Branch {
                                            dir: true,
                                            cond: vreg(vregs.next as int),
                                        },
                                        trig: *trig,
                                    };
                                    let negation: MInstView = MInstOf::UnaryAlu {
                                        op: UnaryAluOp::LogNeg,
                                        rd: vreg(vregs.next as int),
                                        rs: *cond,
                                        out: 0,
                                    };
                                    negated_grows(
                                        insts.update(k as int, issue).insert(k as int, negation),
                                        order,
                                        here as int,
                                        k as int,
                                        vregs.next + 1,
                                    );
                                }
                                let neg = match vregs.fresh() {
                                    Ok(r) => r,
                                    Err(e) => {
                                        return Err(e);
                                    },
                                };
                                fixed = Some(
                                    (
                                        MInst::JumpIssue {
                                            link: *link,
                                            dst: *dst,
                                            kind: IssueKind::Branch { dir: true, cond: neg },
                                            trig: *trig,
                                        },
                                        MInst::UnaryAlu {
                                            op: UnaryAluOp::LogNeg,
                                            rd: neg,
                                            rs: *cond,
                                            out: 0,
                                        },
                                    ),
                                );
                            }
                        },
                        _ => {},
                    }
                },
                _ => {},
            }
            match fixed {
                Some((issue, negation)) => {
                    b.inst.set(k, issue);
                    b.inst.insert(k, negation);
                },
                None => {},
            }
        }
        Ok(b)
    }
}

/// A block with the conditions of its forward branches negated.
pub open spec fn branches_fixed(bb: BBView, order: Seq<Block>, next: int) -> Option<(BBView, int)> {
    if !jumps_wf(bb.inst) {
        None
    } else {
        match negated_below(
            bb.inst,
            order,
            block_place(order, bb.vcode_bb, 0),
            bb.inst.len() as int,
            next,
        ) {
            Some((inst, n)) => Some((BBView { inst, ..bb }, n)),
            None => None,
        }
    }
}

/// The blocks from `v` on with the conditions of their forward branches negated.
pub open spec fn all_branches_fixed(bbs: Seq<BBView>, order: Seq<Block>, v: int, next: int) -> Option<
    (Seq<BBView>, int),
>
    decreases bbs.len() - v,
{
    if v >= bbs.len() {
        Some((Seq::empty(), next))
    } else {
        match branches_fixed(bbs[v], order, next) {
            None => None,
            Some((b, n)) => match all_branches_fixed(bbs, order, v + 1, n) {
                None => None,
                Some((rest, m)) => Some((seq![b] + rest, m)),
            },
        }
    }
}

/// The conditions fixed for the layout of the blocks.
pub open spec fn conditions_fixed(g: Shape, next: int) -> Option<(Seq<BBView>, int)> {
    match g.layout() {
        None => None,
        Some(layout) => all_branches_fixed(g.bbs, laid_out(g.bbs, layout), 0, next),
    }
}

proof fn fix_pass(pass: FixBranchConditions, bbs: Seq<BBView>, v: int, next: int)
    ensures
        crate::cfg::rewritten_from(pass, bbs, v, next) == all_branches_fixed(
            bbs,
            pass.order@,
            v,
            next,
        ),
    decreases bbs.len() - v,
{
    if v < bbs.len() {
        if let Some((b, n)) = pass.rewritten(v, bbs[v], next) {
            fix_pass(pass, bbs, v + 1, n);
        }
    }
}

impl VCodeCFG {
    /// The blocks in the order of the layout.
    pub fn block_order(&self) -> (r: Result<(Vec<usize>, Vec<Block>), CodegenError>)
        requires
            self.wf(),
        ensures
            match r {
                Ok((layout, order)) => {
                    &&& self.shape().layout() == Some(layout@)
                    &&& order@ == laid_out(self.bbs(), layout@)
                    &&& forall|k: int|
                        0 <= k < layout@.len() ==> #[trigger] layout@[k] < self.blocks@.len()
                    &&& layout@.no_duplicates()
                    &&& layout@.len() == self.blocks@.len()
                },
                Err(e) => e is Malformed && self.shape().layout() is None,
            },
    {
        let ghost bbs = self.bbs();
        let n: usize = self.blocks.len();
        let layout = match self.compute_layout() {
            Ok(layout) => layout,
            Err(e) => {
                return Err(e);
            },
        };
        let ghost l = layout@;
        proof {
            layout_places_every_block(self.shape());
        }
        let mut order: Vec<Block> = Vec::new();
        for k in 0..layout.len()
            invariant
                bbs == self.bbs(),
                l == layout@,
                forall|i: int| 0 <= i < l.len() ==> #[trigger] l[i] < self.blocks@.len(),
                order@ == laid_out(bbs, l).take(k as int),
        {
            let v: usize = layout[k];
            assert(bbs[v as int] == self.blocks@[v as int]@);
            order.push(self.blocks[v].vcode_bb);
            assert(order@ =~= laid_out(bbs, l).take(k as int + 1));
        }
        assert(order@ =~= laid_out(bbs, l));
        Ok((layout, order))
    }
}

/// Fixes the branch conditions to match the final block layout.
///
/// Lowering emits every branch with backward-jump semantics (taken if the
/// condition is non-zero). If the branch target ends up after the block, the
/// machine gives the jump forward semantics (taken if the condition is zero), so
/// the condition must be negated. Only conditions are rewritten: branch targets
/// and block structure are untouched. Each conditional issue is handled on its
/// own, so the arms of a jump table may end up jumping in different directions.
pub fn fix_branch_conditions(cfg: VCodeCFG, vregs: &mut VRegAllocator) -> (r: Result<
    VCodeCFG,
    CodegenError,
>)
    requires
        old(vregs).wf(),
        cfg.wf(),
    ensures
        final(vregs).wf(),
        ({
            let whole = conditions_fixed(cfg.shape(), old(vregs).next as int);
            match r {
                Ok(c) => {
                    &&& c.wf()
                    &&& c.graph == cfg.graph
                    &&& c.root == cfg.root
                    &&& whole == Some((c.bbs(), final(vregs).next as int))
                },
                Err(e) => refused(whole, e, final(vregs).next),
            }
        }),
{
    let (_, order) = match cfg.block_order() {
        Ok(found) => found,
        Err(e) => {
            return Err(e);
        },
    };
    let pass = FixBranchConditions { order };
    proof {
        fix_pass(pass, cfg.bbs(), 0, vregs.next as int);
    }
    run_pass(&pass, cfg, vregs)
}

/// Fixing conditions takes registers and hands none back.
pub proof fn conditions_grow(bbs: Seq<BBView>, order: Seq<Block>, v: int, next: int)
    ensures
        all_branches_fixed(bbs, order, v, next) matches Some((_, n)) ==> n >= next,
    decreases bbs.len() - v,
{
    if v < bbs.len() {
        negated_grows(
            bbs[v].inst,
            order,
            block_place(order, bbs[v].vcode_bb, 0),
            bbs[v].inst.len() as int,
            next,
        );
        if let Some((b, n)) = branches_fixed(bbs[v], order, next) {
            conditions_grow(bbs, order, v + 1, n);
        }
    }
}

/// Negating conditions changes nothing about how a block ends.
proof fn negation_keeps_exit(
    insts: Seq<MInstView>,
    order: Seq<Block>,
    here: int,
    k: int,
    next: int,
)
    requires
        k <= insts.len(),
        insts.len() + k < usize::MAX,
        negated_below(insts, order, here, k, next) is Some,
    ensures
        same_exit(insts, negated_below(insts, order, here, k, next)->Some_0.0),
    decreases k,
{
    if k > 0 {
        let i = k - 1;
        match insts[i] {
            MInstOf::JumpIssue { link, dst, kind: IssueKind::Branch { dir, cond }, trig } => {
                if !jumps_forward(order, here, dst) {
                    negation_keeps_exit(insts, order, here, i, next);
                } else {
                    let issue: MInstView = MInstOf::JumpIssue {
                        link,
                        dst,
                        kind: IssueKind::Branch { dir: true, cond: vreg(next) },
                        trig,
                    };
                    let negation: MInstView = MInstOf::UnaryAlu {
                        op: UnaryAluOp::LogNeg,
                        rd: vreg(next),
                        rs: cond,
                        out: 0,
                    };
                    let a = insts.update(i, issue);
                    let b = a.insert(i, negation);
                    issue_update_keeps_exit(insts, i, issue);
                    insertion_keeps_exit(a, i, negation);
                    negation_keeps_exit(b, order, here, i, next + 1);
                    let done = negated_below(b, order, here, i, next + 1)->Some_0.0;
                    same_exit_trans(insts, a, b);
                    same_exit_trans(insts, b, done);
                }
            },
            _ => {
                negation_keeps_exit(insts, order, here, i, next);
            },
        }
    }
}

proof fn fixed_blocks_end_alike(bbs: Seq<BBView>, order: Seq<Block>, v: int, next: int, w: int)
    requires
        0 <= v <= w < bbs.len(),
        all_branches_fixed(bbs, order, v, next) is Some,
        2 * bbs[w].inst.len() < usize::MAX,
    ensures
        ({
            let after = all_branches_fixed(bbs, order, v, next)->Some_0.0;
            &&& after.len() == bbs.len() - v
            &&& after[w - v].vcode_bb == bbs[w].vcode_bb
            &&& same_exit(bbs[w].inst, after[w - v].inst)
        }),
    decreases w - v,
{
    let (b, n) = branches_fixed(bbs[v], order, next)->Some_0;
    fixed_count(bbs, order, v, next);
    if v < w {
        fixed_blocks_end_alike(bbs, order, v + 1, n, w);
    } else {
        negation_keeps_exit(
            bbs[v].inst,
            order,
            block_place(order, bbs[v].vcode_bb, 0),
            bbs[v].inst.len() as int,
            next,
        );
    }
}

proof fn fixed_count(bbs: Seq<BBView>, order: Seq<Block>, v: int, next: int)
    requires
        0 <= v <= bbs.len(),
        all_branches_fixed(bbs, order, v, next) is Some,
    ensures
        all_branches_fixed(bbs, order, v, next)->Some_0.0.len() == bbs.len() - v,
    decreases bbs.len() - v,
{
    if v < bbs.len() {
        fixed_count(bbs, order, v + 1, branches_fixed(bbs[v], order, next)->Some_0.1);
    }
}

/// Fixing the conditions for a layout keeps that layout.
pub proof fn fixing_conditions_keeps_the_layout(g: Shape, next: int)
    requires
        g.wf(),
        conditions_fixed(g, next) is Some,
        forall|v: int| 0 <= v < g.bbs.len() ==> 2 * (#[trigger] g.bbs[v]).inst.len() < usize::MAX,
    ensures
        (Shape { bbs: conditions_fixed(g, next)->Some_0.0, ..g }).layout() == g.layout(),
{
    let order = laid_out(g.bbs, g.layout()->Some_0);
    let h = Shape { bbs: conditions_fixed(g, next)->Some_0.0, ..g };
    fixed_count(g.bbs, order, 0, next);
    assert forall|v: int| 0 <= v < g.bbs.len() implies {
        &&& (#[trigger] g.bbs[v]).vcode_bb == h.bbs[v].vcode_bb
        &&& same_exit(g.bbs[v].inst, h.bbs[v].inst)
    } by {
        fixed_blocks_end_alike(g.bbs, order, 0, next, v);
    }
    layout_depends_on_exits_alone(g, h);
}

} // verus!
