//! Where the blocks of a layout stand.
use crate::bb::first_from_is_least;
use crate::cfg::{blocks_distinct, VCodeCFG};
use crate::inst::MInstView;
use crate::issues::{
    issue_is_listed, issue_is_position, issue_positions, trigger_positions,
};
use crate::layout::{block_of, exit_of, layout_places_every_block, others, BlockExit, Shape};
use vstd::prelude::*;

verus! {

proof fn single_issue(insts: Seq<MInstView>, i: int)
    requires
        insts.len() <= usize::MAX,
        0 <= i < insts.len(),
        insts[i].is_issue(),
        forall|x: int| 0 <= x < insts.len() && x != i ==> !(#[trigger] insts[x]).is_issue(),
    ensures
        issue_positions(insts).len() == 1,
        issue_positions(insts)[0] == i,
{
    let all = issue_positions(insts);
    issue_is_listed(insts, i);
    let k = choose|k: int| 0 <= k < all.len() && all[k] == i as usize;
    assert(all[k] == i);
    assert forall|j: int| 0 <= j < all.len() implies #[trigger] all[j] == i by {
        issue_is_position(insts, j);
    }
    if all.len() > 1 {
        issue_is_position(insts, 1);
        assert(all[0] < all[1]);
    }
}

proof fn vertex_is(bbs: Seq<crate::bb::BBView>, a: int)
    requires
        blocks_distinct(bbs),
        0 <= a < bbs.len() <= usize::MAX,
    ensures
        VCodeCFG::spec_vertex_of(bbs, bbs[a].vcode_bb) == Some(a as usize),
{
    let block = bbs[a].vcode_bb;
    let p = |i: int| bbs[i].vcode_bb == block;
    first_from_is_least(p, 0, bbs.len() as int);
    let f = crate::bb::first_from(p, 0, bbs.len() as int);
    if f < a {
        assert(p(f));
        assert(bbs[f].vcode_bb != bbs[a].vcode_bb);
    } else if f > a {
        assert(!p(a));
    }
}

/// A block that ends in one branch is directly followed by the successor that the
/// branch does not name: there control goes where the branch is not taken.
pub proof fn branches_fall_through_to_the_next_block(g: Shape, p: int, i: int, a: usize, b: usize)
    requires
        g.wf(),
        g.layout() is Some,
        blocks_distinct(g.bbs),
        g.bbs.len() <= usize::MAX,
        0 <= p < g.layout()->Some_0.len(),
        ({
            let v = g.layout()->Some_0[p];
            let insts = g.bbs[v as int].inst;
            &&& insts.len() <= usize::MAX
            &&& 0 <= i < insts.len()
            &&& insts[i] is JumpIssue
            &&& insts[i]->JumpIssue_kind.spec_is_conditional()
            &&& forall|x: int| 0 <= x < insts.len() && x != i ==> !(#[trigger] insts[x]).is_issue()
            &&& a < g.bbs.len()
            &&& g.bbs[a as int].vcode_bb.index == insts[i]->JumpIssue_dst.index
            &&& a != b
            &&& g.succs[v] == seq![a, b] || g.succs[v] == seq![b, a]
        }),
    ensures
        p + 1 < g.layout()->Some_0.len(),
        g.layout()->Some_0[p + 1] == b,
{
    layout_places_every_block(g);
    let layout = g.layout()->Some_0;
    let v = layout[p] as int;
    let insts = g.bbs[v].inst;
    single_issue(insts, i);
    assert(g.exit_wf(v));
    let dst = insts[i]->JumpIssue_dst;
    assert(g.bbs[a as int].vcode_bb == block_of(dst));
    vertex_is(g.bbs, a as int);
    assert(exit_of(insts) == Some(BlockExit::Branch(block_of(dst))));
    let s = g.succs[layout[p]];
    reveal_with_fuel(others, 3);
    assert(s.drop_last().drop_last() =~= Seq::<usize>::empty());
    assert(others(s, a) =~= seq![b]);
    assert(g.fall_through(v) == Some(b));
}

proof fn layout_goes_on(g: Shape, placed: Seq<usize>, p: int)
    requires
        0 < placed.len() <= g.bbs.len(),
        g.layout_from(placed) is Some,
    ensures
        ({
            let l = g.layout_from(placed)->Some_0;
            &&& l.len() == g.bbs.len()
            &&& l.take(placed.len() as int) == placed
            &&& placed.len() - 1 <= p < l.len() - 1 ==> g.next_placed(l.take(p + 1)) == Some(
                l[p + 1],
            )
        }),
    decreases g.bbs.len() - placed.len(),
{
    let l = g.layout_from(placed)->Some_0;
    if placed.len() < g.bbs.len() {
        let w = g.next_placed(placed)->Some_0;
        let more = placed.push(w);
        layout_goes_on(g, more, p);
        assert(l.take(placed.len() as int) =~= l.take(more.len() as int).take(placed.len() as int));
        assert(more.take(placed.len() as int) =~= placed);
        if p == placed.len() - 1 {
            assert(l[p + 1] == l.take(more.len() as int)[p + 1]);
        }
    } else {
        assert(l.take(placed.len() as int) =~= placed);
    }
}

/// A block that ends in a plain jump is directly followed by its target, where
/// that stands nowhere yet and is no branch's other way.
pub proof fn jumps_are_followed_by_their_target(g: Shape, p: int, i: int, a: usize)
    requires
        g.wf(),
        g.layout() is Some,
        blocks_distinct(g.bbs),
        0 <= p < g.layout()->Some_0.len() - 1,
        ({
            let v = g.layout()->Some_0[p];
            let insts = g.bbs[v as int].inst;
            &&& insts.len() <= usize::MAX
            &&& 0 <= i < insts.len()
            &&& insts[i] is JumpIssue
            &&& !insts[i]->JumpIssue_kind.spec_is_conditional()
            &&& forall|x: int| 0 <= x < insts.len() && x != i ==> !(#[trigger] insts[x]).is_issue()
            &&& a < g.bbs.len()
            &&& g.bbs[a as int].vcode_bb.index == insts[i]->JumpIssue_dst.index
        }),
        forall|x: int| 0 <= x <= p ==> #[trigger] g.layout()->Some_0[x] != a,
        forall|w: int| 0 <= w < g.bbs.len() ==> #[trigger] g.fall_through(w) != Some(a),
    ensures
        g.layout()->Some_0[p + 1] == a,
{
    layout_places_every_block(g);
    let layout = g.layout()->Some_0;
    let v = layout[p] as int;
    let insts = g.bbs[v].inst;
    single_issue(insts, i);
    assert(g.exit_wf(v));
    let dst = insts[i]->JumpIssue_dst;
    assert(g.bbs[a as int].vcode_bb == block_of(dst));
    vertex_is(g.bbs, a as int);
    assert(exit_of(insts) == Some(BlockExit::Jump(block_of(dst))));
    layout_goes_on(g, seq![g.root], p);
    let placed = layout.take(p + 1);
    assert(placed.last() == layout[p]);
    assert(!placed.contains(a)) by {
        if placed.contains(a) {
            let x = choose|x: int| 0 <= x < placed.len() && placed[x] == a;
            assert(layout[x] == a);
        }
    }
    assert(g.preferred(placed) == Some(a));
}

proof fn free_is_smallest(g: Shape, placed: Seq<usize>, w: int)
    requires
        0 <= w <= g.bbs.len() <= usize::MAX,
    ensures
        w <= g.smallest_free(placed, w) <= g.bbs.len(),
        g.smallest_free(placed, w) < g.bbs.len() ==> !placed.contains(
            g.smallest_free(placed, w) as usize,
        ) && !g.reserved(g.smallest_free(placed, w)),
        forall|x: int|
            w <= x < g.smallest_free(placed, w) ==> placed.contains(x as usize)
                || #[trigger] g.reserved(x),
    decreases g.bbs.len() - w,
{
    if w < g.bbs.len() && (placed.contains(w as usize) || g.reserved(w)) {
        free_is_smallest(g, placed, w + 1);
    }
}

/// A block without jumps is directly followed by the first block that stands
/// nowhere yet and is no branch's other way.
pub proof fn ends_are_followed_by_the_first_free_block(g: Shape, p: int, x: int)
    requires
        g.wf(),
        g.layout() is Some,
        0 <= p < g.layout()->Some_0.len() - 1,
        ({
            let insts = g.bbs[g.layout()->Some_0[p] as int].inst;
            forall|i: int| 0 <= i < insts.len() ==> !(#[trigger] insts[i]).is_trigger()
        }),
        0 <= x < g.layout()->Some_0[p + 1],
    ensures
        !g.reserved(g.layout()->Some_0[p + 1] as int),
        g.reserved(x) || exists|q: int| 0 <= q <= p && #[trigger] g.layout()->Some_0[q] == x,
{
    layout_places_every_block(g);
    let layout = g.layout()->Some_0;
    let insts = g.bbs[layout[p] as int].inst;
    no_triggers(insts);
    layout_goes_on(g, seq![g.root], p);
    let placed = layout.take(p + 1);
    assert(placed.last() == layout[p]);
    free_is_smallest(g, placed, 0);
    if placed.contains(x as usize) {
        let q = choose|q: int| 0 <= q < placed.len() && placed[q] == x as usize;
        assert(layout[q] == x);
    }
    assert(g.reserved(x) || !g.reserved(x));
}

proof fn no_triggers(insts: Seq<MInstView>)
    requires
        forall|i: int| 0 <= i < insts.len() ==> !(#[trigger] insts[i]).is_trigger(),
    ensures
        trigger_positions(insts).len() == 0,
    decreases insts.len(),
{
    if insts.len() > 0 {
        let init = insts.drop_last();
        assert forall|i: int| 0 <= i < init.len() implies !(#[trigger] init[i]).is_trigger() by {
            assert(init[i] == insts[i]);
        }
        no_triggers(init);
        assert(insts.last() == insts[insts.len() - 1]);
    }
}

} // verus!
