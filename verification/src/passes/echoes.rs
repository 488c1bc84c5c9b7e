//! Expansion of the echo pseudo-instructions.
use crate::bb::{BBView, VCodeBB};
use crate::cfg::{all_rewritten, run_pass, BlockPass, VCodeCFG};
use crate::chain::{chain_of, chain_of_grows};
use crate::inst::{views, MInst, MInstOf, MInstView};
use crate::pass::refused;
use crate::reg::{CodegenError, Reg, VRegAllocator};
use vstd::prelude::*;

verus! {

broadcast use {crate::inst::views_push, crate::inst::views_add};

/// Destinations paired with their sources, as far as both go.
pub open spec fn zipped(rds: Seq<Reg>, rss: Seq<Reg>) -> Seq<(Reg, Reg)> {
    Seq::new(crate::chain::min_of(rds.len() as int, rss.len() as int) as nat, |i: int| (rds[i], rss[i]))
}

/// An instruction with echo pseudo-instructions expanded, and the index of the
/// next register.
pub open spec fn expanded(inst: MInstView, next: int) -> (Seq<MInstView>, int) {
    match inst {
        MInstOf::Echo { rds, rss } => chain_of(zipped(rds, rss), next),
        _ => (seq![inst], next),
    }
}

/// The instructions from position `i` on, expanded in order.
pub open spec fn expanded_from(insts: Seq<MInstView>, i: int, next: int) -> (Seq<MInstView>, int)
    decreases insts.len() - i,
{
    if i >= insts.len() {
        (Seq::empty(), next)
    } else {
        let (first, n) = expanded(insts[i], next);
        let (rest, m) = expanded_from(insts, i + 1, n);
        (first + rest, m)
    }
}

proof fn expansion_grows(insts: Seq<MInstView>, i: int, next: int)
    ensures
        expanded_from(insts, i, next).1 >= next,
    decreases insts.len() - i,
{
    if i < insts.len() {
        if let MInstOf::Echo { rds, rss } = insts[i] {
            chain_of_grows(zipped(rds, rss), next);
        }
        expansion_grows(insts, i + 1, expanded(insts[i], next).1);
    }
}

/// Pairs destinations with their sources.
pub fn zip_regs(rds: &Vec<Reg>, rss: &Vec<Reg>) -> (r: Vec<(Reg, Reg)>)
    ensures
        r@ == zipped(rds@, rss@),
{
    let mut r: Vec<(Reg, Reg)> = Vec::new();
    let n: usize = if rds.len() <= rss.len() {
        rds.len()
    } else {
        rss.len()
    };
    for i in 0..n
        invariant
            n <= rds@.len(),
            n <= rss@.len(),
            n == zipped(rds@, rss@).len(),
            r@ == zipped(rds@, rss@).take(i as int),
    {
        r.push((rds[i], rss[i]));
        assert(r@ =~= zipped(rds@, rss@).take(i as int + 1));
    }
    assert(r@ =~= zipped(rds@, rss@));
    r
}

/// Expands the echo pseudo-instructions of a block.
pub struct ExpandEchoes;

impl BlockPass for ExpandEchoes {
    open spec fn ready(&self) -> bool {
        true
    }

    open spec fn rewritten(&self, v: int, bb: BBView, next: int) -> Option<(BBView, int)> {
        let (inst, n) = expanded_from(bb.inst, 0, next);
        Some((BBView { inst, ..bb }, n))
    }

    proof fn grows(&self, v: int, bb: BBView, next: int) {
        expansion_grows(bb.inst, 0, next);
    }

    fn run(&self, v: usize, bb: &VCodeBB, vregs: &mut VRegAllocator) -> Result<
        VCodeBB,
        CodegenError,
    > {
        let ghost insts = bb@.inst;
        let ghost whole = expanded_from(insts, 0, vregs.next as int);
        let ghost start = vregs.next as int;
        let mut r: Vec<MInst> = Vec::new();
        for i in 0..bb.inst.len()
            invariant
                vregs.wf(),
                insts == views(bb.inst@),
                start == old(vregs).next,
                whole == expanded_from(insts, 0, start),
                whole.0 == views(r@) + expanded_from(insts, i as int, vregs.next as int).0,
                whole.1 == expanded_from(insts, i as int, vregs.next as int).1,
        {
            broadcast use {crate::inst::views_push, crate::inst::views_add};

            let ghost n0 = vregs.next as int;
            let ghost before = views(r@);
            assert(insts[i as int] == bb.inst@[i as int]@);
            proof {
                expansion_grows(insts, i as int + 1, expanded(insts[i as int], n0).1);
            }
            match &bb.inst[i] {
                MInst::Echo { rds, rss } => {
                    let ops = zip_regs(rds, rss);
                    match MInst::receive_chain(&ops, vregs) {
                        Ok(mut chain) => {
                            r.append(&mut chain);
                        },
                        Err(e) => {
                            return Err(e);
                        },
                    }
                },
                other => {
                    r.push(other.copy());
                },
            }
            assert(views(r@) =~= before + expanded(insts[i as int], n0).0);
            let ghost rest = expanded_from(insts, i as int + 1, vregs.next as int).0;
            assert(before + (expanded(insts[i as int], n0).0 + rest) =~= views(r@) + rest);
        }
        assert(views(r@) =~= whole.0);
        Ok(bb.with_insts(r))
    }
}

/// Expands all Echo pseudo-instructions into EchoChain/EchoSplit/EchoLong
/// sequences.
///
/// This must run before the orderings are fixed so that ordering decisions can
/// see the physical production order of the concrete echo instructions.
pub fn expand_echoes(cfg: VCodeCFG, vregs: &mut VRegAllocator) -> (r: Result<
    VCodeCFG,
    CodegenError,
>)
    requires
        old(vregs).wf(),
        cfg.wf(),
    ensures
        final(vregs).wf(),
        match r {
            Ok(c) => {
                &&& c.wf()
                &&& c.graph == cfg.graph
                &&& c.root == cfg.root
                &&& all_rewritten(ExpandEchoes, cfg.bbs(), old(vregs).next as int) == Some(
                    (c.bbs(), final(vregs).next as int),
                )
            },
            Err(e) => refused(
                all_rewritten(ExpandEchoes, cfg.bbs(), old(vregs).next as int),
                e,
                final(vregs).next,
            ),
        },
{
    run_pass(&ExpandEchoes, cfg, vregs)
}

/// A chain consists of concrete echoes.
pub proof fn chain_is_concrete(queue: Seq<(Reg, Reg)>, remaining: Seq<(Reg, Reg)>, next: int, k: int)
    requires
        queue.len() <= crate::inst::QUEUE_CAPACITY,
        0 <= k < crate::chain::chain_from(queue, remaining, next).0.len(),
    ensures
        ({
            let inst = crate::chain::chain_from(queue, remaining, next).0[k];
            inst is EchoLong || inst is EchoSplit || inst is EchoChain
        }),
    decreases queue.len() + remaining.len(),
{
    if queue.len() > 0 && k > 0 {
        chain_is_concrete(
            crate::chain::next_queue(queue, remaining, next),
            remaining.skip(crate::chain::group_of(queue, remaining)),
            next + (queue.len() - crate::chain::taken_of(queue)),
            k - 1,
        );
    }
}

/// No echo pseudo-instruction is left after the expansion.
pub proof fn expansion_leaves_no_echo(insts: Seq<MInstView>, i: int, next: int, k: int)
    requires
        0 <= i,
        0 <= k < expanded_from(insts, i, next).0.len(),
    ensures
        !(expanded_from(insts, i, next).0[k] is Echo),
    decreases insts.len() - i,
{
    if i < insts.len() {
        let (first, n) = expanded(insts[i], next);
        if k < first.len() {
            if let MInstOf::Echo { rds, rss } = insts[i] {
                let ops = zipped(rds, rss);
                let g = crate::chain::first_group(ops.len() as int);
                chain_is_concrete(ops.take(g), ops.skip(g), next, k);
            }
        } else {
            expansion_leaves_no_echo(insts, i + 1, n, k - first.len());
        }
    }
}

} // verus!
