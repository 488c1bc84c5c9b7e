//! Values reach the blocks that use them.
use crate::bb::BBView;
use crate::cfg::{blocks_distinct, succs_wf};
use crate::flow::{args_for, args_position, block_flows, edge_flows, edge_wf, flows_from};
use crate::inst::{MInstOf, MInstView};
use crate::operands::with_uses_sets_uses;
use crate::passes::live_ins::{
    args_named, args_named_lists, block_explicit, live_before, name_in, position_has_key,
    same_keys_position, LiveIns,
};
use crate::passes::order::place_of;
use crate::reg::{vreg, Reg};
use crate::vcode::{
    code_succs, found_at, found_blocks, graph_blocks, positions, promoted,
};
use vstd::prelude::*;

verus! {

/// Whether `now` is the name under which a block that has received the live-ins
/// `live` behind its first `n` parameters knows the register `r`: the parameter in
/// the place of the live-in, or the register itself where it is none.
pub open spec fn known_as(live: Seq<Reg>, params: Seq<Reg>, n: int, r: Reg, now: Reg) -> bool {
    if live.contains(r) {
        exists|j: int| 0 <= j < live.len() && #[trigger] live[j] == r && now == params[n + j]
    } else {
        now == r
    }
}

proof fn place_is_found(regs: Seq<Reg>, r: Reg, k: int)
    requires
        0 <= k <= regs.len(),
    ensures
        k <= place_of(regs, r, k) <= regs.len(),
        place_of(regs, r, k) < regs.len() ==> regs[place_of(regs, r, k)] == r,
        place_of(regs, r, k) == regs.len() ==> forall|i: int|
            k <= i < regs.len() ==> #[trigger] regs[i] != r,
    decreases regs.len() - k,
{
    if k < regs.len() && regs[k] != r {
        place_is_found(regs, r, k + 1);
    }
}

proof fn named(bb: BBView, live: Seq<Reg>, base: int, params: Seq<Reg>, r: Reg)
    requires
        params == bb.params + Seq::new(live.len(), |i: int| vreg(base + i)),
    ensures
        known_as(live, params, bb.params.len() as int, r, name_in(live, base, r)),
{
    place_is_found(live, r, 0);
    let j = place_of(live, r, 0);
    if j < live.len() {
        assert(live[j] == r);
        assert(params[bb.params.len() + j] == vreg(base + j));
    }
}

/// A block receives its live-ins as fresh parameters behind its own, and uses each
/// under the parameter in its place; every other register it uses as before.
pub proof fn live_ins_are_used_under_their_parameters(
    bbs: Seq<BBView>,
    succs: Map<usize, Seq<usize>>,
    live: LiveIns,
    v: int,
    next: int,
    i: int,
)
    requires
        0 <= v < bbs.len(),
        block_explicit(bbs, succs, live, v, next) is Some,
        0 <= i < bbs[v].inst.len(),
    ensures
        ({
            let now = block_explicit(bbs, succs, live, v, next)->Some_0;
            let n = bbs[v].params.len() as int;
            &&& now.vcode_bb == bbs[v].vcode_bb
            &&& now.params.len() == n + live[v].len()
            &&& forall|k: int| 0 <= k < n ==> #[trigger] now.params[k] == bbs[v].params[k]
            &&& now.inst.len() == bbs[v].inst.len()
            &&& now.inst[i] == bbs[v].inst[i].with_uses(now.inst[i].uses())
            &&& now.inst[i].uses().len() == bbs[v].inst[i].uses().len()
            &&& forall|u: int|
                0 <= u < now.inst[i].uses().len() ==> known_as(
                    live[v],
                    now.params,
                    n,
                    bbs[v].inst[i].uses()[u],
                    #[trigger] now.inst[i].uses()[u],
                )
        }),
{
    let now = block_explicit(bbs, succs, live, v, next)->Some_0;
    let base = next + live_before(live, v);
    let inst = bbs[v].inst[i];
    let us = crate::passes::live_ins::names_in(live[v], base, inst.uses());
    with_uses_sets_uses(inst, us);
    assert(now.inst[i].uses() == us);
    assert forall|u: int| 0 <= u < us.len() implies known_as(
        live[v],
        now.params,
        bbs[v].params.len() as int,
        inst.uses()[u],
        #[trigger] us[u],
    ) by {
        named(bbs[v], live[v], base, now.params, inst.uses()[u]);
    }
}

proof fn live_counts(live: LiveIns, v: int, w: int)
    requires
        0 <= v <= w,
    ensures
        0 <= live_before(live, v) <= live_before(live, w),
    decreases w,
{
    if v < w {
        live_counts(live, v, w - 1);
    } else if v > 0 {
        live_counts(live, v - 1, v - 1);
    }
}

/// The parameters that are added are registers of their own: fresh, and no two of
/// them the same, within a block and across blocks.
pub proof fn added_parameters_are_distinct(
    bbs: Seq<BBView>,
    succs: Map<usize, Seq<usize>>,
    live: LiveIns,
    next: int,
    v: int,
    i: int,
    w: int,
    j: int,
)
    requires
        live.len() == bbs.len(),
        0 <= next,
        next + live_before(live, bbs.len() as int) <= u32::MAX,
        0 <= v < bbs.len(),
        0 <= w < bbs.len(),
        block_explicit(bbs, succs, live, v, next) is Some,
        block_explicit(bbs, succs, live, w, next) is Some,
        0 <= i < live[v].len(),
        0 <= j < live[w].len(),
        v != w || i != j,
    ensures
        ({
            let a = block_explicit(bbs, succs, live, v, next)->Some_0.params[bbs[v].params.len()
                + i];
            let b = block_explicit(bbs, succs, live, w, next)->Some_0.params[bbs[w].params.len()
                + j];
            &&& a != b
            &&& a matches Reg::Virtual(x) && next <= x < next + live_before(
                live,
                bbs.len() as int,
            )
        }),
{
    live_counts(live, v + 1, bbs.len() as int);
    live_counts(live, w + 1, bbs.len() as int);
    live_counts(live, 0, v);
    live_counts(live, 0, w);
    if v < w {
        live_counts(live, v + 1, w);
    } else if w < v {
        live_counts(live, w + 1, v);
    }
}

/// Along every edge a block passes what it passed before, and then the live-ins of
/// the successor in the order of the successor's added parameters, all under the
/// names that it knows them by itself.
pub proof fn live_ins_arrive_in_their_places(
    bbs: Seq<BBView>,
    succs: Map<usize, Seq<usize>>,
    live: LiveIns,
    v: int,
    next: int,
    j: int,
    k: int,
)
    requires
        succs_wf(succs, bbs.len()),
        blocks_distinct(bbs),
        bbs.len() <= usize::MAX,
        0 <= v < bbs.len(),
        0 <= j < succs[v as usize].len(),
        block_explicit(bbs, succs, live, v, next) is Some,
    ensures
        ({
            let s = succs[v as usize][j] as int;
            let now = block_explicit(bbs, succs, live, v, next)->Some_0;
            let before = args_for(bbs[v].branch_params, bbs[s].vcode_bb);
            let passed = args_for(now.branch_params, bbs[s].vcode_bb);
            &&& before is Some
            &&& passed is Some
            &&& passed->Some_0.len() == before->Some_0.len() + live[s].len()
            &&& 0 <= k < passed->Some_0.len() ==> known_as(
                live[v],
                now.params,
                bbs[v].params.len() as int,
                if k < before->Some_0.len() {
                    before->Some_0[k]
                } else {
                    live[s][k - before->Some_0.len()]
                },
                passed->Some_0[k],
            )
        }),
{
    let s = succs[v as usize][j] as int;
    let base = next + live_before(live, v);
    let args = bbs[v].branch_params;
    assert(succs[v as usize].no_duplicates());
    args_named_lists(args, bbs, live, v, base, succs[v as usize], 0, j);
    let now = block_explicit(bbs, succs, live, v, next)->Some_0;
    let after = args_named(args, bbs, live, v, base, succs[v as usize], 0)->Some_0;
    same_keys_position(args, after, bbs[s].vcode_bb, 0);
    position_has_key(args, bbs[s].vcode_bb, 0);
    list_is_there(args, bbs, live, v, base, succs[v as usize], 0, j);
    let at = args_position(args, bbs[s].vcode_bb, 0);
    let passed = after[at].1;
    if 0 <= k < passed.len() {
        let n = args[at].1.len();
        named(
            bbs[v],
            live[v],
            base,
            now.params,
            if k < n {
                args[at].1[k]
            } else {
                live[s][k - n]
            },
        );
    }
}

proof fn list_is_there(
    args: Seq<(crate::reg::Block, Seq<Reg>)>,
    bbs: Seq<BBView>,
    live: LiveIns,
    v: int,
    base: int,
    succs: Seq<usize>,
    k: int,
    j: int,
)
    requires
        0 <= k <= j < succs.len(),
        succs.no_duplicates(),
        forall|i: int| 0 <= i < succs.len() ==> #[trigger] succs[i] < bbs.len(),
        blocks_distinct(bbs),
        args_named(args, bbs, live, v, base, succs, k) is Some,
    ensures
        args_position(args, bbs[succs[j] as int].vcode_bb, 0) < args.len(),
    decreases j - k,
{
    if k < j {
        let t = succs[k] as int;
        let at = args_position(args, bbs[t].vcode_bb, 0);
        position_has_key(args, bbs[t].vcode_bb, 0);
        let passed = crate::passes::live_ins::names_in(live[v], base, args[at].1)
            + crate::passes::live_ins::names_in(live[v], base, live[t]);
        let next = args.update(at, (args[at].0, passed));
        list_is_there(next, bbs, live, v, base, succs, k + 1, j);
        same_keys_position(args, next, bbs[succs[j] as int].vcode_bb, 0);
    }
}

/// The graph starts out with the lowered code: each block that was found has the
/// parameters, the instructions and the passed registers of its block of the code,
/// and its edges lead to the blocks that it names.
pub proof fn graph_blocks_are_the_code(
    code: Seq<crate::vcode::BlockView>,
    entry: crate::reg::Block,
    v: int,
    k: int,
)
    requires
        0 <= v < found_blocks(code, entry).len(),
        found_blocks(code, entry).len() <= usize::MAX,
        ({
            let b = code[found_blocks(code, entry)[v].index as int];
            0 <= k < b.succs.len() && found_blocks(code, entry).contains(b.succs[k].0)
        }),
    ensures
        ({
            let bb = graph_blocks(code, found_blocks(code, entry))[v];
            let b = code[bb.vcode_bb.index as int];
            let t = code_succs(code, entry)[v as usize][k] as int;
            &&& bb.params == b.params
            &&& bb.inst == b.insts
            &&& bb.branch_params == b.succs
            &&& code_succs(code, entry)[v as usize].len() == b.succs.len()
            &&& 0 <= t < found_blocks(code, entry).len()
            &&& graph_blocks(code, found_blocks(code, entry))[t].vcode_bb == b.succs[k].0
        }),
{
    let found = found_blocks(code, entry);
    let b = code[found[v].index as int];
    found_is_there(found, b.succs[k].0, 0);
    let i = choose|i: int| 0 <= i < found.len() && found[i] == b.succs[k].0;
    assert(found[i] == b.succs[k].0);
}

proof fn found_is_there(found: Seq<crate::reg::Block>, b: crate::reg::Block, k: int)
    requires
        0 <= k <= found.len(),
    ensures
        k <= found_at(found, b, k) <= found.len(),
        found_at(found, b, k) < found.len() ==> found[found_at(found, b, k)] == b,
        found_at(found, b, k) == found.len() ==> forall|i: int|
            k <= i < found.len() ==> #[trigger] found[i] != b,
    decreases found.len() - k,
{
    if k < found.len() && found[k] != b {
        found_is_there(found, b, k + 1);
    }
}

/// A promoted edge block receives, under fresh parameters, exactly the registers
/// that it passed, from its predecessor, and passes them on to the same block in
/// the same order by a jump to the same label. Every other block stays as it is.
pub proof fn promoted_blocks_pass_the_same_values(
    bbs: Seq<BBView>,
    next: int,
    succs: Map<usize, Seq<usize>>,
    v: int,
    w: int,
)
    requires
        0 <= v < bbs.len(),
        promoted((bbs, next), succs, v) is Next,
        blocks_distinct(bbs),
        ({
            let sources = crate::graph::sources_into(
                positions(bbs.len()),
                succs,
                v as usize,
            );
            sources.len() > 0 && sources[0] < bbs.len() && sources[0] != v
        }),
    ensures
        ({
            let (after, n) = promoted((bbs, next), succs, v)->Next_0;
            let pred = crate::graph::sources_into(
                positions(bbs.len()),
                succs,
                v as usize,
            )[0] as int;
            let values = bbs[v].branch_params[0].1;
            let target = bbs[v].branch_params[0].0;
            &&& after.len() == bbs.len()
            &&& n == next + values.len() + 1
            // The predecessor passes the values.
            &&& args_for(after[pred].branch_params, after[v].vcode_bb) == Some(values)
            &&& after[pred].inst == bbs[pred].inst
            &&& after[pred].params == bbs[pred].params
            // The block passes on what it receives.
            &&& after[v].vcode_bb == bbs[v].vcode_bb
            &&& after[v].params.len() == values.len()
            &&& after[v].branch_params == seq![(target, after[v].params)]
            &&& after[v].inst.len() == 2
            &&& after[v].inst[0] matches MInstOf::JumpIssue { link, dst, kind, .. } && {
                &&& dst == bbs[v].inst[0]->ImmJump_dst
                &&& kind is Jump
                &&& after[v].inst[1] == (MInstView::JumpTrigger { link, args: after[v].params })
            }
            &&& 0 <= w < bbs.len() && w != v && w != pred ==> after[w] == bbs[w]
        }),
{
    let (after, n) = promoted((bbs, next), succs, v)->Next_0;
    let pred = crate::graph::sources_into(positions(bbs.len()), succs, v as usize)[0] as int;
    let args = bbs[pred].branch_params;
    let b = bbs[v].vcode_bb;
    position_has_key(args, b, 0);
    let at = args_position(args, b, 0);
    let passed = args.update(at, (args[at].0, bbs[v].branch_params[0].1));
    same_keys_position(args, passed, b, 0);
    assert(after[pred].branch_params == passed);
}

proof fn flows_at(bbs: Seq<BBView>, succs: Seq<usize>, v: int, k: int, j: int) -> (start: int)
    requires
        0 <= k <= j < succs.len(),
        flows_from(bbs, succs, v, k) is Some,
    ensures
        ({
            let all = flows_from(bbs, succs, v, k)->Some_0;
            let s = succs[j] as int;
            let part = edge_flows(bbs, v, s);
            &&& edge_wf(bbs, v, s)
            &&& 0 <= start
            &&& start + part.len() <= all.len()
            &&& forall|i: int| 0 <= i < part.len() ==> all[start + i] == #[trigger] part[i]
        }),
    decreases succs.len() - k,
{
    let first = edge_flows(bbs, v, succs[k] as int);
    let rest = flows_from(bbs, succs, v, k + 1)->Some_0;
    let all = flows_from(bbs, succs, v, k)->Some_0;
    assert(all == first + rest);
    if k < j {
        let inner = flows_at(bbs, succs, v, k + 1, j);
        let part = edge_flows(bbs, v, succs[j] as int);
        assert forall|i: int| 0 <= i < part.len() implies all[first.len() + inner + i]
            == #[trigger] part[i] by {
            assert(rest[inner + i] == part[i]);
        }
        first.len() + inner
    } else {
        0
    }
}

/// Along every edge each passed register flows to the parameter in its place, and
/// there are as many of them as the successor has parameters.
pub proof fn values_flow_to_the_parameters_in_their_place(
    bbs: Seq<BBView>,
    succs: Map<usize, Seq<usize>>,
    v: int,
    j: int,
    i: int,
)
    requires
        0 <= v < bbs.len() <= usize::MAX,
        0 <= j < succs[v as usize].len(),
        block_flows(bbs, succs, v) is Some,
        succs[v as usize][j] < bbs.len(),
    ensures
        ({
            let s = succs[v as usize][j] as int;
            let args = args_for(bbs[v].branch_params, bbs[s].vcode_bb);
            &&& args is Some
            &&& args->Some_0.len() == bbs[s].params.len()
            &&& 0 <= i < args->Some_0.len() && i <= usize::MAX ==> exists|x: int|
                {
                    &&& 0 <= x < block_flows(bbs, succs, v)->Some_0.len()
                    &&& (#[trigger] block_flows(bbs, succs, v)->Some_0[x]).src == v
                    &&& block_flows(bbs, succs, v)->Some_0[x].sink == s
                    &&& block_flows(bbs, succs, v)->Some_0[x].idx == i
                    &&& block_flows(bbs, succs, v)->Some_0[x].out == args->Some_0[i]
                    &&& block_flows(bbs, succs, v)->Some_0[x].into == bbs[s].params[i]
                }
        }),
{
    let s = succs[v as usize][j] as int;
    let start = flows_at(bbs, succs[v as usize], v, 0, j);
    let args = args_for(bbs[v].branch_params, bbs[s].vcode_bb)->Some_0;
    if 0 <= i < args.len() && i <= usize::MAX {
        let part = edge_flows(bbs, v, s);
        assert(part[i].out == args[i]);
        assert(block_flows(bbs, succs, v)->Some_0[start + i] == part[i]);
    }
}

} // verus!
