//! The senses of branches after layout.
use crate::bb::BBView;
use crate::cfg::blocks_distinct;
use crate::inst::{IssueKind, MInstOf, MInstView, UnaryAluOp};
use crate::layout::{block_of, layout_places_every_block, Shape};
use crate::passes::branches::{
    all_branches_fixed, block_place, branches_fixed, conditions_fixed, jumps_forward, laid_out,
    negated_below,
};
use crate::reg::{vreg, Block, Reg};
use vstd::prelude::*;

verus! {

/// Whether an instruction of the block at place `p` of the layout is a
/// conditional jump to a block at a later place.
pub open spec fn branches_ahead(
    bbs: Seq<BBView>,
    layout: Seq<usize>,
    p: int,
    inst: MInstView,
) -> bool {
    &&& inst is JumpIssue
    &&& inst->JumpIssue_kind is Branch
    &&& exists|q: int|
        p < q < layout.len() && bbs[#[trigger] layout[q] as int].vcode_bb.index
            == inst->JumpIssue_dst.index
}

/// The number of conditional jumps to later places among the first `k`
/// instructions.
pub open spec fn ahead_below(
    bbs: Seq<BBView>,
    layout: Seq<usize>,
    p: int,
    insts: Seq<MInstView>,
    k: int,
) -> int
    decreases k,
{
    if k <= 0 {
        0
    } else {
        ahead_below(bbs, layout, p, insts, k - 1) + (if branches_ahead(
            bbs,
            layout,
            p,
            insts[k - 1],
        ) {
            1int
        } else {
            0
        })
    }
}

/// Whether `now`, at position `i`, holds a forward jump on the negation of the
/// condition of a backward one, the negation being defined directly before.
pub open spec fn turned(before: MInstView, now: Seq<MInstView>, i: int, rd: Reg) -> bool {
    &&& 0 < i < now.len()
    &&& before is JumpIssue
    &&& before->JumpIssue_kind matches IssueKind::Branch { dir, cond } && {
        &&& !dir
        &&& now[i - 1] is UnaryAlu
        &&& now[i - 1]->UnaryAlu_op is LogNeg
        &&& now[i - 1]->UnaryAlu_rd == rd
        &&& now[i - 1]->UnaryAlu_rs == cond
        &&& now[i] is JumpIssue
        &&& now[i]->JumpIssue_link == before->JumpIssue_link
        &&& now[i]->JumpIssue_dst == before->JumpIssue_dst
        &&& now[i]->JumpIssue_trig == before->JumpIssue_trig
        &&& now[i]->JumpIssue_kind == (IssueKind::Branch { dir: true, cond: rd })
    }
}

/// The place of a block that stands nowhere else.
pub proof fn place_is(order: Seq<Block>, b: Block, k: int, q: int)
    requires
        0 <= k <= q < order.len(),
        order[q] == b,
        forall|i: int| k <= i < order.len() && i != q ==> #[trigger] order[i] != b,
    ensures
        block_place(order, b, k) == q,
    decreases q - k,
{
    if k < q {
        place_is(order, b, k + 1, q);
    }
}

/// A place that is found holds the block.
pub proof fn place_found(order: Seq<Block>, b: Block, k: int)
    requires
        0 <= k <= order.len(),
    ensures
        k <= block_place(order, b, k) <= order.len(),
        block_place(order, b, k) < order.len() ==> order[block_place(order, b, k)] == b,
    decreases order.len() - k,
{
    if k < order.len() && order[k] != b {
        place_found(order, b, k + 1);
    }
}

spec fn laid_apart(bbs: Seq<BBView>, layout: Seq<usize>) -> bool {
    &&& blocks_distinct(bbs)
    &&& layout.no_duplicates()
    &&& forall|i: int| 0 <= i < layout.len() ==> #[trigger] layout[i] < bbs.len()
}

proof fn order_apart(bbs: Seq<BBView>, layout: Seq<usize>, q: int)
    requires
        laid_apart(bbs, layout),
        0 <= q < layout.len(),
    ensures
        block_place(laid_out(bbs, layout), bbs[layout[q] as int].vcode_bb, 0) == q,
{
    let order = laid_out(bbs, layout);
    let b = bbs[layout[q] as int].vcode_bb;
    assert forall|i: int| 0 <= i < order.len() && i != q implies #[trigger] order[i] != b by {
        assert(layout[i] != layout[q]);
        let x = layout[i] as int;
        let y = layout[q] as int;
        assert(bbs[x].vcode_bb != bbs[y].vcode_bb);
    }
    place_is(order, b, 0, q);
}

proof fn forward_is_ahead(bbs: Seq<BBView>, layout: Seq<usize>, p: int, inst: MInstView)
    requires
        laid_apart(bbs, layout),
        0 <= p < layout.len(),
        inst is JumpIssue,
        inst->JumpIssue_kind is Branch,
        block_place(laid_out(bbs, layout), block_of(inst->JumpIssue_dst), 0) < layout.len(),
    ensures
        jumps_forward(laid_out(bbs, layout), p, inst->JumpIssue_dst) == branches_ahead(
            bbs,
            layout,
            p,
            inst,
        ),
{
    let order = laid_out(bbs, layout);
    let dst = inst->JumpIssue_dst;
    place_found(order, block_of(dst), 0);
    let place = block_place(order, block_of(dst), 0);
    assert(order[place] == block_of(dst));
    assert(bbs[layout[place] as int].vcode_bb.index == dst.index);
    if branches_ahead(bbs, layout, p, inst) {
        let q = choose|q: int|
            p < q < layout.len() && bbs[#[trigger] layout[q] as int].vcode_bb.index == dst.index;
        order_apart(bbs, layout, q);
        assert(bbs[layout[q] as int].vcode_bb == block_of(dst));
    }
}

proof fn count_depends_on_prefix(
    bbs: Seq<BBView>,
    layout: Seq<usize>,
    p: int,
    a: Seq<MInstView>,
    b: Seq<MInstView>,
    k: int,
)
    requires
        forall|i: int| 0 <= i < k ==> #[trigger] a[i] == b[i],
    ensures
        ahead_below(bbs, layout, p, a, k) == ahead_below(bbs, layout, p, b, k),
    decreases k,
{
    if k > 0 {
        assert(a[k - 1] == b[k - 1]);
        count_depends_on_prefix(bbs, layout, p, a, b, k - 1);
    }
}

proof fn count_bounds(
    bbs: Seq<BBView>,
    layout: Seq<usize>,
    p: int,
    insts: Seq<MInstView>,
    j: int,
    k: int,
)
    requires
        0 <= j <= k,
    ensures
        0 <= ahead_below(bbs, layout, p, insts, j) <= ahead_below(bbs, layout, p, insts, k) <= k,
    decreases k,
{
    if j < k {
        count_bounds(bbs, layout, p, insts, j, k - 1);
    } else if k > 0 {
        count_bounds(bbs, layout, p, insts, k - 1, k - 1);
    }
}

proof fn negated_at(
    bbs: Seq<BBView>,
    layout: Seq<usize>,
    p: int,
    insts: Seq<MInstView>,
    k: int,
    next: int,
    j: int,
)
    requires
        laid_apart(bbs, layout),
        0 <= p < layout.len(),
        0 <= k <= insts.len(),
        0 <= j < insts.len(),
        negated_below(insts, laid_out(bbs, layout), p, k, next) is Some,
    ensures
        ({
            let (now, n) = negated_below(insts, laid_out(bbs, layout), p, k, next)->Some_0;
            let c = ahead_below(bbs, layout, p, insts, k);
            let i = j + ahead_below(bbs, layout, p, insts, j + 1);
            &&& now.len() == insts.len() + c
            &&& n == next + c
            &&& j >= k ==> now[j + c] == insts[j]
            &&& j < k && branches_ahead(bbs, layout, p, insts[j]) ==> turned(
                insts[j],
                now,
                i,
                vreg(next + c - ahead_below(bbs, layout, p, insts, j + 1)),
            )
            &&& j < k && !branches_ahead(bbs, layout, p, insts[j]) ==> now[i] == insts[j]
        }),
    decreases k,
{
    let order = laid_out(bbs, layout);
    if k > 0 {
        let inst = insts[k - 1];
        let c = ahead_below(bbs, layout, p, insts, k);
        if inst is JumpIssue && inst->JumpIssue_kind is Branch {
            forward_is_ahead(bbs, layout, p, inst);
        }
        if branches_ahead(bbs, layout, p, inst) {
            let link = inst->JumpIssue_link;
            let dst = inst->JumpIssue_dst;
            let trig = inst->JumpIssue_trig;
            let cond = inst->JumpIssue_kind->Branch_cond;
            let issue: MInstView = MInstOf::JumpIssue {
                link,
                dst,
                kind: IssueKind::Branch { dir: true, cond: vreg(next) },
                trig,
            };
            let negation: MInstView = MInstOf::UnaryAlu {
                op: UnaryAluOp::LogNeg,
                rd: vreg(next),
                rs: cond,
                out: 0,
            };
            let with = insts.update(k - 1, issue).insert(k - 1, negation);
            count_depends_on_prefix(bbs, layout, p, insts, with, k - 1);
            let d = ahead_below(bbs, layout, p, insts, k - 1);
            assert(c == d + 1);
            if j >= k {
                assert(with[j + 1] == insts[j]);
                negated_at(bbs, layout, p, with, k - 1, next + 1, j + 1);
            } else if j == k - 1 {
                assert(with[k - 1] == negation);
                assert(with[k] == issue);
                negated_at(bbs, layout, p, with, k - 1, next + 1, k - 1);
                negated_at(bbs, layout, p, with, k - 1, next + 1, k);
                count_bounds(bbs, layout, p, insts, k - 1, k - 1);
            } else {
                assert(with[j] == insts[j]);
                count_depends_on_prefix(bbs, layout, p, insts, with, j + 1);
                negated_at(bbs, layout, p, with, k - 1, next + 1, j);
            }
        } else {
            negated_at(bbs, layout, p, insts, k - 1, next, j);
        }
    }
}

/// The index of the next register when block `w` is reached, from block `v` on.
spec fn next_at(bbs: Seq<BBView>, order: Seq<Block>, v: int, next: int, w: int) -> int
    decreases w - v,
{
    if v >= w {
        next
    } else {
        next_at(bbs, order, v + 1, branches_fixed(bbs[v], order, next)->Some_0.1, w)
    }
}

proof fn fixed_at(bbs: Seq<BBView>, layout: Seq<usize>, v: int, next: int, w: int)
    requires
        0 <= v <= w < bbs.len(),
        all_branches_fixed(bbs, laid_out(bbs, layout), v, next) is Some,
    ensures
        ({
            let order = laid_out(bbs, layout);
            let (after, n) = all_branches_fixed(bbs, order, v, next)->Some_0;
            let m = next_at(bbs, order, v, next, w);
            &&& after.len() == bbs.len() - v
            &&& branches_fixed(bbs[w], order, m) is Some
            &&& after[w - v] == branches_fixed(bbs[w], order, m)->Some_0.0
            &&& next <= m <= branches_fixed(bbs[w], order, m)->Some_0.1 <= n
            &&& w + 1 < bbs.len() ==> next_at(bbs, order, v, next, w + 1) == branches_fixed(
                bbs[w],
                order,
                m,
            )->Some_0.1
        }),
    decreases w - v,
{
    let order = laid_out(bbs, layout);
    let (b, n) = branches_fixed(bbs[v], order, next)->Some_0;
    let rest = all_branches_fixed(bbs, order, v + 1, n)->Some_0.0;
    fixed_grow(bbs[v], order, next);
    crate::passes::branches::conditions_grow(bbs, order, v + 1, n);
    fixed_len(bbs, order, v + 1, n);
    if v < w {
        fixed_at(bbs, layout, v + 1, n, w);
        assert((seq![b] + rest)[w - v] == rest[w - (v + 1)]);
    } else {
        assert(next_at(bbs, order, v + 1, n, w + 1) == n);
    }
}

proof fn fixed_grow(bb: BBView, order: Seq<Block>, next: int)
    ensures
        branches_fixed(bb, order, next) matches Some((_, n)) ==> n >= next,
{
    let one = seq![bb];
    crate::passes::branches::conditions_grow(one, order, 0, next);
    if let Some((b, n)) = branches_fixed(bb, order, next) {
        assert(all_branches_fixed(one, order, 1, n) == Some((Seq::<BBView>::empty(), n)));
        assert(one[0] == bb);
    }
}

proof fn fixed_len(bbs: Seq<BBView>, order: Seq<Block>, v: int, next: int)
    requires
        0 <= v <= bbs.len(),
    ensures
        all_branches_fixed(bbs, order, v, next) matches Some((r, _)) ==> r.len() == bbs.len() - v,
    decreases bbs.len() - v,
{
    if v < bbs.len() {
        if let Some((b, n)) = branches_fixed(bbs[v], order, next) {
            fixed_len(bbs, order, v + 1, n);
        }
    }
}

proof fn next_grows(bbs: Seq<BBView>, layout: Seq<usize>, next: int, v: int, w: int)
    requires
        0 <= v < w < bbs.len(),
        all_branches_fixed(bbs, laid_out(bbs, layout), 0, next) is Some,
    ensures
        ({
            let order = laid_out(bbs, layout);
            let m = next_at(bbs, order, 0, next, v);
            branches_fixed(bbs[v], order, m)->Some_0.1 <= next_at(bbs, order, 0, next, w)
        }),
    decreases w - v,
{
    fixed_at(bbs, layout, 0, next, v);
    if v + 1 < w {
        fixed_at(bbs, layout, 0, next, v + 1);
        next_grows(bbs, layout, next, v + 1, w);
    }
}

/// A conditional jump to a block at a later place of the layout is taken on zero
/// of a fresh register, which is defined directly before as the negation of the
/// condition that it had. Every other instruction stays as it is, and all stay in
/// order: the `j`th moves behind the negations inserted up to it.
pub proof fn branches_have_the_sense_of_their_direction(g: Shape, next: int, p: int, j: int)
    requires
        g.wf(),
        blocks_distinct(g.bbs),
        conditions_fixed(g, next) is Some,
        0 <= p < g.layout()->Some_0.len(),
        0 <= j < g.bbs[g.layout()->Some_0[p] as int].inst.len(),
    ensures
        ({
            let layout = g.layout()->Some_0;
            let (after, n) = conditions_fixed(g, next)->Some_0;
            let v = layout[p] as int;
            let before = g.bbs[v].inst;
            let now = after[v].inst;
            let i = j + ahead_below(g.bbs, layout, p, before, j + 1);
            &&& after.len() == g.bbs.len()
            &&& after[v] == (BBView { inst: now, ..g.bbs[v] })
            &&& now.len() == before.len() + ahead_below(
                g.bbs,
                layout,
                p,
                before,
                before.len() as int,
            )
            &&& 0 <= i < now.len()
            &&& if branches_ahead(g.bbs, layout, p, before[j]) {
                exists|r: int| next <= r < n && #[trigger] turned(before[j], now, i, vreg(r))
            } else {
                now[i] == before[j]
            }
        }),
{
    let layout = g.layout()->Some_0;
    let order = laid_out(g.bbs, layout);
    layout_places_every_block(g);
    let v = layout[p] as int;
    fixed_at(g.bbs, layout, 0, next, v);
    order_apart(g.bbs, layout, p);
    let before = g.bbs[v].inst;
    let m = next_at(g.bbs, order, 0, next, v);
    negated_at(g.bbs, layout, p, before, before.len() as int, m, j);
    count_bounds(g.bbs, layout, p, before, j, j + 1);
    count_bounds(g.bbs, layout, p, before, j + 1, before.len() as int);
    if branches_ahead(g.bbs, layout, p, before[j]) {
        let r = m + ahead_below(g.bbs, layout, p, before, before.len() as int) - ahead_below(
            g.bbs,
            layout,
            p,
            before,
            j + 1,
        );
        assert(turned(
            before[j],
            conditions_fixed(g, next)->Some_0.0[v].inst,
            j + ahead_below(g.bbs, layout, p, before, j + 1),
            vreg(r),
        ));
        count_bounds(g.bbs, layout, p, before, j, j);
    }
}

/// The position of the instruction that ends up at position `i`, or directly
/// behind the negation there.
proof fn came_from(
    bbs: Seq<BBView>,
    layout: Seq<usize>,
    p: int,
    insts: Seq<MInstView>,
    k: int,
    i: int,
) -> (j: int)
    requires
        0 <= k,
        0 <= i < k + ahead_below(bbs, layout, p, insts, k),
    ensures
        0 <= j < k,
        i == j + ahead_below(bbs, layout, p, insts, j + 1) || (branches_ahead(
            bbs,
            layout,
            p,
            insts[j],
        ) && i + 1 == j + ahead_below(bbs, layout, p, insts, j + 1)),
    decreases k,
{
    if k == 0 {
        0
    } else if i < k - 1 + ahead_below(bbs, layout, p, insts, k - 1) {
        came_from(bbs, layout, p, insts, k - 1, i)
    } else {
        k - 1
    }
}

/// After the conditions are fixed, a conditional jump to a later place has the
/// forward sense and its condition is the negation defined directly before it; any
/// other has the sense and the condition that lowering gave it.
pub proof fn fixed_branches_match_the_layout(g: Shape, next: int, p: int, i: int)
    requires
        g.wf(),
        blocks_distinct(g.bbs),
        conditions_fixed(g, next) is Some,
        0 <= p < g.layout()->Some_0.len(),
        ({
            let now = conditions_fixed(g, next)->Some_0.0[g.layout()->Some_0[p] as int].inst;
            &&& 0 <= i < now.len()
            &&& now[i] is JumpIssue
            &&& now[i]->JumpIssue_kind is Branch
        }),
    ensures
        ({
            let layout = g.layout()->Some_0;
            let before = g.bbs[layout[p] as int].inst;
            let now = conditions_fixed(g, next)->Some_0.0[layout[p] as int].inst;
            if branches_ahead(g.bbs, layout, p, now[i]) {
                exists|j: int, rd: Reg|
                    0 <= j < before.len() && #[trigger] turned(before[j], now, i, rd)
            } else {
                before.contains(now[i])
            }
        }),
{
    let layout = g.layout()->Some_0;
    layout_places_every_block(g);
    let before = g.bbs[layout[p] as int].inst;
    let now = conditions_fixed(g, next)->Some_0.0[layout[p] as int].inst;
    let order = laid_out(g.bbs, layout);
    order_apart(g.bbs, layout, p);
    if before.len() == 0 {
        fixed_at(g.bbs, layout, 0, next, layout[p] as int);
    } else {
        branches_have_the_sense_of_their_direction(g, next, p, 0);
        let j = came_from(g.bbs, layout, p, before, before.len() as int, i);
        branches_have_the_sense_of_their_direction(g, next, p, j);
        let at = j + ahead_below(g.bbs, layout, p, before, j + 1);
        if branches_ahead(g.bbs, layout, p, before[j]) {
            let r = choose|r: int|
                next <= r < conditions_fixed(g, next)->Some_0.1 && #[trigger] turned(
                    before[j],
                    now,
                    at,
                    vreg(r),
                );
            assert(turned(before[j], now, at, vreg(r)));
            assert(i == at);
            assert(now[i]->JumpIssue_dst == before[j]->JumpIssue_dst);
            assert(branches_ahead(g.bbs, layout, p, now[i]));
        } else {
            assert(now[i] == before[j]);
        }
    }
}

/// No two negations are defined under the same register.
pub proof fn negations_have_registers_of_their_own(
    g: Shape,
    next: int,
    p1: int,
    j1: int,
    p2: int,
    j2: int,
)
    requires
        g.wf(),
        blocks_distinct(g.bbs),
        conditions_fixed(g, next) is Some,
        0 <= next,
        conditions_fixed(g, next)->Some_0.1 <= u32::MAX,
        0 <= p1 < g.layout()->Some_0.len(),
        0 <= p2 < g.layout()->Some_0.len(),
        0 <= j1 < g.bbs[g.layout()->Some_0[p1] as int].inst.len(),
        0 <= j2 < g.bbs[g.layout()->Some_0[p2] as int].inst.len(),
        p1 != p2 || j1 != j2,
    ensures
        ({
            let layout = g.layout()->Some_0;
            let after = conditions_fixed(g, next)->Some_0.0;
            let b1 = g.bbs[layout[p1] as int].inst;
            let b2 = g.bbs[layout[p2] as int].inst;
            let i1 = j1 + ahead_below(g.bbs, layout, p1, b1, j1 + 1);
            let i2 = j2 + ahead_below(g.bbs, layout, p2, b2, j2 + 1);
            branches_ahead(g.bbs, layout, p1, b1[j1]) && branches_ahead(g.bbs, layout, p2, b2[j2])
                ==> after[layout[p1] as int].inst[i1 - 1]->UnaryAlu_rd
                != after[layout[p2] as int].inst[i2 - 1]->UnaryAlu_rd
        }),
{
    let layout = g.layout()->Some_0;
    let order = laid_out(g.bbs, layout);
    layout_places_every_block(g);
    let v1 = layout[p1] as int;
    let v2 = layout[p2] as int;
    let b1 = g.bbs[v1].inst;
    let b2 = g.bbs[v2].inst;
    if branches_ahead(g.bbs, layout, p1, b1[j1]) && branches_ahead(g.bbs, layout, p2, b2[j2]) {
        fixed_at(g.bbs, layout, 0, next, v1);
        fixed_at(g.bbs, layout, 0, next, v2);
        order_apart(g.bbs, layout, p1);
        order_apart(g.bbs, layout, p2);
        let m1 = next_at(g.bbs, order, 0, next, v1);
        let m2 = next_at(g.bbs, order, 0, next, v2);
        negated_at(g.bbs, layout, p1, b1, b1.len() as int, m1, j1);
        negated_at(g.bbs, layout, p2, b2, b2.len() as int, m2, j2);
        count_bounds(g.bbs, layout, p1, b1, j1, j1);
        count_bounds(g.bbs, layout, p2, b2, j2, j2);
        count_bounds(g.bbs, layout, p1, b1, j1 + 1, b1.len() as int);
        count_bounds(g.bbs, layout, p2, b2, j2 + 1, b2.len() as int);
        if v1 < v2 {
            next_grows(g.bbs, layout, next, v1, v2);
        } else if v2 < v1 {
            next_grows(g.bbs, layout, next, v2, v1);
        } else {
            assert(p1 == p2);
            if j1 < j2 {
                count_bounds(g.bbs, layout, p1, b1, j1 + 1, j2);
            } else {
                count_bounds(g.bbs, layout, p1, b1, j2 + 1, j1);
            }
        }
    }
}

} // verus!
