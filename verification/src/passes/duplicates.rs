//! Duplication of values that are used more than once.
use crate::bb::{all_defs, first_from, op_count, BBView, VCodeBB};
use crate::cfg::{all_rewritten, run_pass, BlockPass, VCodeCFG};
use crate::inst::{MInst, MInstOf, MInstView, OperandKind};
use crate::pass::{
    refused, settled, settled_done, settled_keeps, settled_next, settled_stuck, Step,
};
use crate::reg::{vreg, CodegenError, Reg, VRegAllocator, VREG_LIMIT};
use crate::rename::first_use_replaced;
use vstd::prelude::*;

verus! {

broadcast use crate::inst::views_insert;

/// A block and the index of the next register.
pub type State = (BBView, int);

/// The first definition that is used more than once, by its place in the list
/// of definitions.
pub open spec fn first_reused(bb: BBView) -> int {
    first_from(
        |d: int| op_count(bb.inst, all_defs(bb.inst)[d].1, OperandKind::Use) > 1,
        0,
        all_defs(bb.inst).len() as int,
    )
}

/// Both uses of a register replaced by fresh registers, which a duplicate behind
/// the definition produces. Uses are found among the registers that
/// instructions take from the queue.
pub open spec fn duplicated(s: State, reg: Reg, at: int) -> Step<State> {
    let (bb, next) = s;
    let (bb1, hit1) = first_use_replaced(bb, reg, vreg(next));
    let (bb2, hit2) = first_use_replaced(bb1, reg, vreg(next + 1));
    if hit1 && hit2 && at <= bb2.inst.len() {
        Step::Next(
            (
                BBView {
                    inst: bb2.inst.insert(
                        at,
                        MInstOf::Duplicate {
                            rd1: vreg(next),
                            rd2: vreg(next + 1),
                            rs: reg,
                            out1: 0,
                            out2: 0,
                        },
                    ),
                    ..bb2
                },
                next + 2,
            ),
        )
    } else {
        Step::Stuck
    }
}

/// One step: the first definition that is used more than once is duplicated.
pub open spec fn duplicate_step(s: State) -> Step<State> {
    let d = first_reused(s.0);
    if d < all_defs(s.0.inst).len() {
        let (at, reg) = all_defs(s.0.inst)[d];
        duplicated(s, reg, at + 1)
    } else {
        Step::Done
    }
}

/// The steps as a function.
pub open spec fn duplicate_steps() -> spec_fn(State) -> Step<State> {
    |s: State| duplicate_step(s)
}

/// Definitions stand at positions of the block.
proof fn def_positions(insts: Seq<MInstView>, d: int)
    requires
        0 <= d < all_defs(insts).len(),
        insts.len() <= usize::MAX,
    ensures
        0 <= all_defs(insts)[d].0 < insts.len(),
    decreases insts.len(),
{
    if insts.len() > 0 {
        if d < all_defs(insts.drop_last()).len() {
            def_positions(insts.drop_last(), d);
        }
    }
}

/// Duplicates the values of a block that are used more than once.
pub struct InsertDuplicates;

impl BlockPass for InsertDuplicates {
    open spec fn ready(&self) -> bool {
        true
    }

    open spec fn rewritten(&self, v: int, bb: BBView, next: int) -> Option<(BBView, int)> {
        settled(duplicate_steps(), (bb, next))
    }

    proof fn grows(&self, v: int, bb: BBView, next: int) {
        steps_grow(bb, next);
    }

    fn run(&self, v: usize, bb: &VCodeBB, vregs: &mut VRegAllocator) -> Result<
        VCodeBB,
        CodegenError,
    > {
        let ghost whole = settled(duplicate_steps(), (bb@, vregs.next as int));
        let mut b = bb.copy();
        loop
            invariant
                vregs.wf(),
                whole == settled(duplicate_steps(), (b@, vregs.next as int)),
                whole == settled(duplicate_steps(), (bb@, old(vregs).next as int)),
            decreases VREG_LIMIT - vregs.next,
        {
            let ghost s = (b@, vregs.next as int);
            match find_reused(&b) {
                None => {
                    proof {
                        settled_done(duplicate_steps(), s);
                    }
                    return Ok(b);
                },
                Some((at, reg)) => {
                    let ghost n0 = vregs.next as int;
                    proof {
                        steps_grow(s.0, s.1);
                        reused_needs_two(s);
                    }
                    let rd1 = match vregs.fresh() {
                        Ok(r) => r,
                        Err(e) => {
                            return Err(e);
                        },
                    };
                    let rd2 = match vregs.fresh() {
                        Ok(r) => r,
                        Err(e) => {
                            return Err(e);
                        },
                    };
                    let hit1 = b.replace_first_use(reg, rd1);
                    let hit2 = b.replace_first_use(reg, rd2);
                    if !hit1 || !hit2 || at >= b.inst.len() {
                        proof {
                            settled_stuck(duplicate_steps(), s);
                        }
                        return Err(CodegenError::Malformed);
                    }
                    let ghost bb2 = b@;
                    b.inst.insert(
                        at + 1,
                        MInst::Duplicate { rd1, rd2, rs: reg, out1: 0, out2: 0 },
                    );
                    proof {
                        settled_next(duplicate_steps(), s);
                        let (t, n) = duplicate_steps()(s)->Next_0;
                        assert(b@ =~= t);
                    }
                },
            }
        }
    }
}

/// Where a definition is used more than once, a result has two more registers.
proof fn reused_needs_two(s: State)
    requires
        first_reused(s.0) < all_defs(s.0.inst).len(),
    ensures
        settled(duplicate_steps(), s) matches Some((_, n)) ==> n >= s.1 + 2,
{
    match duplicate_steps()(s) {
        Step::Next(t) => {
            settled_next(duplicate_steps(), s);
            steps_grow(t.0, t.1);
        },
        Step::Stuck => {
            settled_stuck(duplicate_steps(), s);
        },
        Step::Done => {},
    }
}

/// The steps only take registers and keep the block's name.
proof fn steps_grow(bb: BBView, next: int)
    ensures
        settled(duplicate_steps(), (bb, next)) matches Some((b, n)) ==> n >= next && b.vcode_bb
            == bb.vcode_bb,
{
    if settled(duplicate_steps(), (bb, next)) is Some {
        settled_keeps(
            duplicate_steps(),
            (bb, next),
            |s: State| s.1 >= next && s.0.vcode_bb == bb.vcode_bb,
        );
    }
}

/// The first definition that is used more than once.
fn find_reused(b: &VCodeBB) -> (r: Option<(usize, Reg)>)
    ensures
        match r {
            Some((at, reg)) => {
                &&& first_reused(b@) < all_defs(b@.inst).len()
                &&& (at, reg) == all_defs(b@.inst)[first_reused(b@)]
                &&& at < b@.inst.len()
            },
            None => first_reused(b@) >= all_defs(b@.inst).len(),
        },
{
    let defs = b.inst_defs();
    let ghost insts = b@.inst;
    let n: usize = b.inst.len();
    let ghost p = |d: int| op_count(insts, all_defs(insts)[d].1, OperandKind::Use) > 1;
    for d in 0..defs.len()
        invariant
            insts == b@.inst,
            n == insts.len(),
            defs@ == all_defs(insts),
            p == (|d: int| op_count(insts, all_defs(insts)[d].1, OperandKind::Use) > 1),
            first_reused(b@) == first_from(p, d as int, defs@.len() as int),
    {
        let (at, reg) = defs[d];
        let uses = b.reg_uses(reg);
        if uses.len() > 1 {
            proof {
                def_positions(insts, d as int);
            }
            return Some((at, reg));
        }
    }
    None
}

/// Looks for registers that are used multiple times and inserts duplicates at
/// their definition and makes the uses use the resulting, unique registers.
pub fn insert_duplicates(cfg: VCodeCFG, vregs: &mut VRegAllocator) -> (r: Result<
    VCodeCFG,
    CodegenError,
>)
    requires
        old(vregs).wf(),
        cfg.wf(),
    ensures
        final(vregs).wf(),
        match r {
            Ok(c) => {
                &&& c.wf()
                &&& c.graph == cfg.graph
                &&& c.root == cfg.root
                &&& all_rewritten(InsertDuplicates, cfg.bbs(), old(vregs).next as int) == Some(
                    (c.bbs(), final(vregs).next as int),
                )
            },
            Err(e) => refused(
                all_rewritten(InsertDuplicates, cfg.bbs(), old(vregs).next as int),
                e,
                final(vregs).next,
            ),
        },
{
    run_pass(&InsertDuplicates, cfg, vregs)
}

/// After the pass, no definition of a block is used more than once.
pub proof fn no_definition_is_reused(bb: BBView, next: int, d: int)
    requires
        InsertDuplicates.rewritten(0, bb, next) is Some,
        0 <= d < all_defs(InsertDuplicates.rewritten(0, bb, next)->Some_0.0.inst).len(),
    ensures
        ({
            let after = InsertDuplicates.rewritten(0, bb, next)->Some_0.0.inst;
            op_count(after, all_defs(after)[d].1, OperandKind::Use) <= 1
        }),
{
    settled_keeps(duplicate_steps(), (bb, next), |s: State| true);
    let after = InsertDuplicates.rewritten(0, bb, next)->Some_0.0;
    let reused = |d: int| op_count(after.inst, all_defs(after.inst)[d].1, OperandKind::Use) > 1;
    crate::bb::first_from_is_least(reused, 0, all_defs(after.inst).len() as int);
    assert(!reused(d));
}

} // verus!
