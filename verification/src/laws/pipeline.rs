//! The passes that a function goes through.
use crate::abi::spec_arg_area_base;
use crate::assemble::assembled;
use crate::backend::{
    blocks_compiled, first_free, function_compiled, private_bytes,
    StackSlot,
};
use crate::bb::BBView;
use crate::cfg::{all_rewritten, rewritten_from, rewritten_keeps_blocks, BlockPass};
use crate::emission::built_from;
use crate::inst::MInstView;
use crate::ir::{self, SignatureView};
use crate::layout::Shape;
use crate::pass::settled;
use crate::passes::branches::conditions_fixed;
use crate::passes::capacities::capacities_hold;
use crate::passes::distances::InsertRefDistances;
use crate::passes::duplicates::InsertDuplicates;
use crate::passes::echoes::ExpandEchoes;
use crate::passes::frame::FrameLimits;
use crate::passes::live_ins::live_ins_explicit;
use crate::passes::order::order_sweeps;
use crate::passes::orderings::FixOrderings;
use crate::passes::params::{
    entry_prepared, orders_complete, params_prepared, params_received, ReceiveParams,
};
use crate::passes::resolve::types_resolved;
use crate::passes::rets::IssueRets;
use crate::passes::settle::{jumps_settled, settle_steps};
use crate::passes::stack_args::{
    block_lowered, calls_lowered, loads_shifted, rets_lowered, stack_args_lowered,
};
use crate::passes::triggers::SetTriggerOffsets;
use crate::reg::Block;
use crate::vcode::{code_blocks, code_succs, BlockView};
use vstd::prelude::*;

verus! {

/// The blocks and the index of the next register.
pub type Stage = (Seq<BBView>, int);

/// Whether the stages are those of a function's code from its graph to its last
/// pass, each the outcome of a pass on the one before: live-ins become parameters,
/// parameters are received, returns are issued; values on the stack are placed, the
/// frame is reserved and freed, types are resolved; reused values are duplicated,
/// echoes are expanded, operands are put in order, conditions get their sense; jumps
/// are settled, with every queue large enough, and trigger offsets are set.
pub open spec fn passes_in_order(
    stages: Seq<Stage>,
    code: Seq<BlockView>,
    entry: Block,
    sig: SignatureView,
    reg_types: Seq<Option<ir::Type>>,
    frame: FrameLimits,
    private: int,
    next: int,
) -> bool {
    let succs = code_succs(code, entry);
    &&& stages.len() == 13
    &&& code_blocks(code, entry, next) == Some(stages[0])
    &&& live_ins_explicit(stages[0].0, succs, 0, stages[0].1) == Some(stages[1])
    &&& params_prepared(stages[1].0, succs, 0, sig.params.len() as int, stages[1].1) == Some(
        stages[2],
    )
    &&& all_rewritten(IssueRets, stages[2].0, stages[2].1) == Some(stages[3])
    &&& stack_args_lowered(stages[3].0, 0, sig, private, 0, stages[3].1) == Some(stages[4])
    &&& all_rewritten(frame, stages[4].0, stages[4].1) == Some(stages[5])
    &&& types_resolved(stages[5].0, succs, 0, sig, reg_types, stages[5].1) == Some(stages[6])
    &&& all_rewritten(InsertDuplicates, stages[6].0, stages[6].1) == Some(stages[7])
    &&& all_rewritten(ExpandEchoes, stages[7].0, stages[7].1) == Some(stages[8])
    &&& all_rewritten(FixOrderings, stages[8].0, stages[8].1) == Some(stages[9])
    &&& conditions_fixed(Shape { bbs: stages[9].0, succs, root: 0 }, stages[9].1) == Some(
        stages[10],
    )
    &&& jumps_settled(Shape { bbs: stages[10].0, succs, root: 0 }, stages[10].1) == Some(stages[11])
    &&& forall|v: int|
        0 <= v < stages[11].0.len() ==> capacities_hold((#[trigger] stages[11].0[v]).inst)
    &&& all_rewritten(SetTriggerOffsets, stages[11].0, stages[11].1) == Some(stages[12])
}

/// A function that is compiled has gone through every pass, in order, whatever it
/// looks like. Its frame is its private part without what its caller reserves.
pub proof fn functions_go_through_every_pass(
    code: Seq<BlockView>,
    entry: Block,
    sig: SignatureView,
    reg_types: Seq<Option<ir::Type>>,
    private: int,
    next: int,
)
    requires
        blocks_compiled(code, entry, sig, reg_types, private, next) is Some,
        0 <= crate::abi::spec_stack_area_size(sig) <= private <= u32::MAX,
    ensures
        exists|stages: Seq<Stage>, frame: FrameLimits|
            {
                &&& #[trigger] passes_in_order(
                    stages,
                    code,
                    entry,
                    sig,
                    reg_types,
                    frame,
                    private,
                    next,
                )
                &&& stages[12] == blocks_compiled(code, entry, sig, reg_types, private, next)->Some_0
                &&& frame.root == 0
                &&& frame.frame + crate::abi::spec_stack_area_size(sig) == private
            },
{
    let succs = code_succs(code, entry);
    let s0 = code_blocks(code, entry, next)->Some_0;
    let s1 = live_ins_explicit(s0.0, succs, 0, s0.1)->Some_0;
    let s2 = params_prepared(s1.0, succs, 0, sig.params.len() as int, s1.1)->Some_0;
    let s3 = all_rewritten(IssueRets, s2.0, s2.1)->Some_0;
    let s4 = stack_args_lowered(s3.0, 0, sig, private, 0, s3.1)->Some_0;
    let frame = FrameLimits {
        root: 0,
        frame: (private - crate::abi::spec_stack_area_size(sig)) as u32,
    };
    let s5 = all_rewritten(frame, s4.0, s4.1)->Some_0;
    let s6 = types_resolved(s5.0, succs, 0, sig, reg_types, s5.1)->Some_0;
    let s7 = all_rewritten(InsertDuplicates, s6.0, s6.1)->Some_0;
    let s8 = all_rewritten(ExpandEchoes, s7.0, s7.1)->Some_0;
    let s9 = all_rewritten(FixOrderings, s8.0, s8.1)->Some_0;
    let s10 = conditions_fixed(Shape { bbs: s9.0, succs, root: 0 }, s9.1)->Some_0;
    let s11 = jumps_settled(Shape { bbs: s10.0, succs, root: 0 }, s10.1)->Some_0;
    let s12 = all_rewritten(SetTriggerOffsets, s11.0, s11.1)->Some_0;
    let stages = seq![s0, s1, s2, s3, s4, s5, s6, s7, s8, s9, s10, s11, s12];
    assert(passes_in_order(stages, code, entry, sig, reg_types, frame, private, next));
}

/// The code of a function is that of its blocks in the order of their layout, with
/// its private frame as large as its signature and slots take, and fresh registers
/// from the first that no block names.
pub proof fn functions_are_laid_out_and_assembled(
    code: Seq<BlockView>,
    entry: Block,
    sig: SignatureView,
    reg_types: Seq<Option<ir::Type>>,
    slots: Seq<StackSlot>,
)
    requires
        function_compiled(code, entry, sig, reg_types, slots) is Some,
    ensures
        ({
            let private = private_bytes(sig, slots);
            let next = first_free(code, entry);
            let blocks = blocks_compiled(code, entry, sig, reg_types, private, next);
            let layout = (Shape {
                bbs: blocks->Some_0.0,
                succs: code_succs(code, entry),
                root: 0,
            }).layout();
            &&& private <= u32::MAX
            &&& blocks is Some
            &&& layout is Some
            &&& built_from(blocks->Some_0.0, layout->Some_0, 0) is Some
            &&& assembled(built_from(blocks->Some_0.0, layout->Some_0, 0)->Some_0) == Some(
                function_compiled(code, entry, sig, reg_types, slots)->Some_0.0,
            )
        }),
{
}

/// A pass rewrites every block, each for itself.
pub proof fn passes_rewrite_every_block<P: BlockPass>(pass: P, bbs: Seq<BBView>, next: int, v: int)
    requires
        all_rewritten(pass, bbs, next) is Some,
        0 <= v < bbs.len(),
    ensures
        ({
            let (after, n) = all_rewritten(pass, bbs, next)->Some_0;
            &&& after.len() == bbs.len()
            &&& exists|a: int|
                {
                    &&& next <= a <= n
                    &&& #[trigger] pass.rewritten(v, bbs[v], a) is Some
                    &&& pass.rewritten(v, bbs[v], a)->Some_0.0 == after[v]
                }
        }),
{
    rewritten_at(pass, bbs, 0, next, v);
}

proof fn rewritten_at<P: BlockPass>(pass: P, bbs: Seq<BBView>, w: int, next: int, v: int)
    requires
        0 <= w <= v < bbs.len(),
        rewritten_from(pass, bbs, w, next) is Some,
    ensures
        ({
            let (after, n) = rewritten_from(pass, bbs, w, next)->Some_0;
            &&& after.len() == bbs.len() - w
            &&& exists|a: int|
                {
                    &&& next <= a <= n
                    &&& #[trigger] pass.rewritten(v, bbs[v], a) is Some
                    &&& pass.rewritten(v, bbs[v], a)->Some_0.0 == after[v - w]
                }
        }),
    decreases v - w,
{
    rewritten_keeps_blocks(pass, bbs, w, next);
    pass.grows(w, bbs[w], next);
    let (b, n) = pass.rewritten(w, bbs[w], next)->Some_0;
    rewritten_keeps_blocks(pass, bbs, w + 1, n);
    let (rest, m) = rewritten_from(pass, bbs, w + 1, n)->Some_0;
    let after = rewritten_from(pass, bbs, w, next)->Some_0.0;
    assert(after == seq![b] + rest);
    if w < v {
        rewritten_at(pass, bbs, w + 1, n, v);
        assert(after[v - w] == rest[v - (w + 1)]);
        let x = choose|x: int|
            {
                &&& n <= x <= m
                &&& #[trigger] pass.rewritten(v, bbs[v], x) is Some
                &&& pass.rewritten(v, bbs[v], x)->Some_0.0 == rest[v - (w + 1)]
            };
        assert(pass.rewritten(v, bbs[v], x)->Some_0.0 == after[v - w]);
    } else {
        assert(pass.rewritten(v, bbs[v], next)->Some_0.0 == after[v - w]);
    }
}

/// What these passes do to a block does not depend on where it stands: values are
/// duplicated and operands put in order step by step until nothing is left to do,
/// echoes are expanded one by one, and references are set until they hold.
pub proof fn passes_treat_blocks_alike(bb: BBView, next: int, v: int)
    ensures
        InsertDuplicates.rewritten(v, bb, next) == settled(
            crate::passes::duplicates::duplicate_steps(),
            (bb, next),
        ),
        FixOrderings.rewritten(v, bb, next) == settled(
            crate::passes::orderings::order_steps(),
            (bb, next),
        ),
        ExpandEchoes.rewritten(v, bb, next) == Some(
            (
                BBView {
                    inst: crate::passes::echoes::expanded_from(bb.inst, 0, next).0,
                    ..bb
                },
                crate::passes::echoes::expanded_from(bb.inst, 0, next).1,
            ),
        ),
        IssueRets.rewritten(v, bb, next) == IssueRets.rewritten(0, bb, next),
        InsertRefDistances.rewritten(v, bb, next) == InsertRefDistances.rewritten(0, bb, next),
        SetTriggerOffsets.rewritten(v, bb, next) matches Some((b, n)) ==> n == next && Some(b.inst)
            == crate::passes::triggers::offsets_set(bb.inst) && b == (BBView { inst: b.inst, ..bb }),
        SetTriggerOffsets.rewritten(v, bb, next) is Some <==> crate::passes::triggers::offsets_set(
            bb.inst,
        ) is Some,
{
}

/// Once the jumps are settled, the references of every block are those of the last
/// time that they were set: they lead to the consumers of all outputs.
pub proof fn settled_blocks_have_exact_references(g: Shape, next: int, v: int, i: int)
    requires
        jumps_settled(g, next) is Some,
        0 <= v < jumps_settled(g, next)->Some_0.0.len(),
        0 <= i < jumps_settled(g, next)->Some_0.0[v].inst.len(),
    ensures
        crate::passes::distances::refs_hold(jumps_settled(g, next)->Some_0.0[v].inst, i),
        exists|bb: BBView, m: int|
            {
                &&& #[trigger] InsertRefDistances.rewritten(0, bb, m) is Some
                &&& InsertRefDistances.rewritten(0, bb, m)->Some_0.0
                    == jumps_settled(g, next)->Some_0.0[v]
            },
{
    let steps = settle_steps(g.succs, g.root);
    let keeps = |x: (Seq<BBView>, int, bool)|
        x.2 ==> exists|p: Seq<BBView>, m: int| #[trigger]
            all_rewritten(InsertRefDistances, p, m) == Some((x.0, x.1));
    assert forall|x: (Seq<BBView>, int, bool)| #[trigger] keeps(x) && steps(x) is Next implies keeps(
        steps(x)->Next_0,
    ) by {
        let y = steps(x)->Next_0;
        if y.2 {
            let (b1, n1) = all_rewritten(InsertRefDistances, x.0, x.1)->Some_0;
            crate::passes::settle::widening_progresses(
                Shape { bbs: b1, succs: g.succs, root: g.root },
                n1,
            );
            assert(all_rewritten(InsertRefDistances, x.0, x.1) == Some((y.0, y.1)));
        }
    }
    crate::pass::settled_keeps(steps, (g.bbs, next, false), keeps);
    let t = settled(steps, (g.bbs, next, false))->Some_0;
    assert(keeps(t) && t.2);
    let (p, m) = choose|p: Seq<BBView>, m: int| #[trigger]
        all_rewritten(InsertRefDistances, p, m) == Some((t.0, t.1));
    rewritten_keeps_blocks(InsertRefDistances, p, 0, m);
    passes_rewrite_every_block(InsertRefDistances, p, m, v);
    let a = choose|a: int|
        {
            &&& m <= a <= t.1
            &&& #[trigger] InsertRefDistances.rewritten(v, p[v], a) is Some
            &&& InsertRefDistances.rewritten(v, p[v], a)->Some_0.0 == t.0[v]
        };
    assert(InsertRefDistances.rewritten(0, p[v], a)->Some_0.0 == t.0[v]);
    crate::passes::distances::references_lead_to_consumers(p[v], a, i);
}

/// A block with its parameters received.
pub open spec fn received_block(bb: BBView, v: int, root: usize, next: int) -> Option<BBView> {
    match params_received(bb, v == root, next) {
        Some((b, _)) => Some(b),
        None => None,
    }
}

/// The parameters of a function are prepared by giving the entry its operands,
/// resolving the orders along all edges from there, and receiving the parameters
/// of every block in its order.
pub proof fn parameters_are_prepared_in_every_block(
    bbs: Seq<BBView>,
    succs: Map<usize, Seq<usize>>,
    root: usize,
    params: int,
    next: int,
    v: int,
)
    requires
        params_prepared(bbs, succs, root as int, params, next) is Some,
        root < bbs.len(),
        0 <= v,
    ensures
        ({
            let after = params_prepared(bbs, succs, root as int, params, next)->Some_0.0;
            let (entry, n) = entry_prepared(bbs[root as int], params, next)->Some_0;
            let ordered = settled(order_sweeps(succs), bbs.update(root as int, entry));
            &&& entry_prepared(bbs[root as int], params, next) is Some
            &&& ordered is Some
            &&& after.len() == ordered->Some_0.len()
            &&& v < after.len() ==> orders_complete(ordered->Some_0[v]) && exists|a: int|
                n <= a && #[trigger] received_block(ordered->Some_0[v], v, root, a) == Some(
                    after[v],
                )
        }),
{
    let (entry, n) = entry_prepared(bbs[root as int], params, next)->Some_0;
    let ordered = settled(order_sweeps(succs), bbs.update(root as int, entry))->Some_0;
    let pass = ReceiveParams { root };
    let after = params_prepared(bbs, succs, root as int, params, next)->Some_0.0;
    rewritten_keeps_blocks(pass, ordered, 0, n);
    if v < ordered.len() {
        passes_rewrite_every_block(pass, ordered, n, v);
        let a = choose|a: int|
            {
                &&& n <= a <= params_prepared(bbs, succs, root as int, params, next)->Some_0.1
                &&& #[trigger] pass.rewritten(v, ordered[v], a) is Some
                &&& pass.rewritten(v, ordered[v], a)->Some_0.0 == after[v]
            };
        assert(received_block(ordered[v], v, root, a) == Some(after[v]));
    }
}

/// The instructions of a block, the entry's argument loads being shifted behind the
/// return area where there is one.
pub open spec fn loads_placed(bb: BBView, v: int, root: int, sig: SignatureView) -> Option<
    Seq<MInstView>,
> {
    if v == root && spec_arg_area_base(sig) > 0 {
        loads_shifted(bb.inst, spec_arg_area_base(sig), 0)
    } else {
        Some(bb.inst)
    }
}

/// A block with the given instructions, the values of its return and of its calls
/// being placed in turn.
pub open spec fn returns_and_calls_placed(
    bb: BBView,
    insts: Seq<MInstView>,
    sig: SignatureView,
    private: int,
    next: int,
) -> Option<BBView> {
    match rets_lowered(insts, sig.rets, next) {
        None => None,
        Some((stored, n)) => match calls_lowered(
            BBView { inst: stored, ..bb },
            stored.len() as int,
            private,
            n,
        ) {
            None => None,
            Some((b, _)) => Some(b),
        },
    }
}

/// The stack-passed values of every block are placed, the entry's loads being
/// shifted behind the return area where there is one, and only those.
pub proof fn stack_values_are_placed_in_every_block(
    bbs: Seq<BBView>,
    root: int,
    sig: SignatureView,
    private: int,
    w: int,
    next: int,
    v: int,
)
    requires
        0 <= w <= v < bbs.len(),
        stack_args_lowered(bbs, root, sig, private, w, next) is Some,
    ensures
        ({
            let after = stack_args_lowered(bbs, root, sig, private, w, next)->Some_0.0;
            &&& after.len() == bbs.len() - w
            &&& loads_placed(bbs[v], v, root, sig) is Some
            &&& exists|a: int| #[trigger]
                returns_and_calls_placed(
                    bbs[v],
                    loads_placed(bbs[v], v, root, sig)->Some_0,
                    sig,
                    private,
                    a,
                ) == Some(after[v - w])
        }),
    decreases v - w,
{
    let (b, n) = block_lowered(bbs[w], w == root, sig, private, next)->Some_0;
    let rest = stack_args_lowered(bbs, root, sig, private, w + 1, n)->Some_0.0;
    lowered_len(bbs, root, sig, private, w + 1, n);
    let after = stack_args_lowered(bbs, root, sig, private, w, next)->Some_0.0;
    assert(after == seq![b] + rest);
    if w < v {
        stack_values_are_placed_in_every_block(bbs, root, sig, private, w + 1, n, v);
        assert(after[v - w] == rest[v - (w + 1)]);
    } else {
        let insts = loads_placed(bbs[v], v, root, sig)->Some_0;
        assert(returns_and_calls_placed(bbs[v], insts, sig, private, next) == Some(b));
    }
}

proof fn lowered_len(
    bbs: Seq<BBView>,
    root: int,
    sig: SignatureView,
    private: int,
    v: int,
    next: int,
)
    requires
        0 <= v <= bbs.len(),
        stack_args_lowered(bbs, root, sig, private, v, next) is Some,
    ensures
        stack_args_lowered(bbs, root, sig, private, v, next)->Some_0.0.len() == bbs.len() - v,
    decreases bbs.len() - v,
{
    if v < bbs.len() {
        let (b, n) = block_lowered(bbs[v], v == root, sig, private, next)->Some_0;
        lowered_len(bbs, root, sig, private, v + 1, n);
    }
}

} // verus!
