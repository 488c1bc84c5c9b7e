//! Widened jumps go where the short ones went.
use crate::bb::{last_below_is_greatest, BBView};
use crate::inst::{IssueKind, MInstOf, MInstView};
use crate::isa;
use crate::isatype::IsaType;
use crate::issues::jump_issues;
use crate::layout::{block_of, Shape};
use crate::laws::branches::place_found;
use crate::laws::jumps::{length_between, span_is_length};
use crate::laws::tables::taken;
use crate::passes::branches::{block_place, laid_out};
use crate::passes::far_jumps::{
    block_widened, blocks_widened, decision, edited, edited_below, far_form, offset_of, start_of,
    starts, widened, Edit,
};
use crate::reg::{Block, Reg};
use vstd::prelude::*;

verus! {

/// Whether an instruction stays as it was; the offset of a far jump may get wider.
pub open spec fn stays(before: MInstView, now: MInstView) -> bool {
    ||| now == before
    ||| {
        &&& before is JumpOffset
        &&& now is JumpOffset
        &&& now->JumpOffset_rd == before->JumpOffset_rd
        &&& now->JumpOffset_dst == before->JumpOffset_dst
        &&& now->JumpOffset_gap == before->JumpOffset_gap
        &&& now->JumpOffset_trig == before->JumpOffset_trig
        &&& now->JumpOffset_size_pow2 == 2
    }
}

/// Whether the instruction at position `i` is the far form of a short jump: with
/// the same link, target and trigger offset, an offset that is materialized directly
/// before, and the sense of its direction. A branch keeps its condition; a jump gets
/// one, materialized before the offset, on which it is always taken.
pub open spec fn goes_far(before: MInstView, now: Seq<MInstView>, i: int, ahead: bool) -> bool {
    &&& 1 <= i < now.len()
    &&& before is JumpIssue
    &&& now[i] is JumpIssue
    &&& now[i]->JumpIssue_link == before->JumpIssue_link
    &&& now[i]->JumpIssue_dst == before->JumpIssue_dst
    &&& now[i]->JumpIssue_trig == before->JumpIssue_trig
    &&& now[i]->JumpIssue_kind matches IssueKind::Far { conditional, dir, cond, offset } && {
        &&& dir == ahead
        &&& now[i - 1] is JumpOffset
        &&& now[i - 1]->JumpOffset_rd == offset
        &&& now[i - 1]->JumpOffset_dst == before->JumpIssue_dst
        &&& 1 <= now[i - 1]->JumpOffset_size_pow2 <= 2
        &&& match before->JumpIssue_kind {
            IssueKind::Branch { dir: sense, cond: c } => conditional && dir == sense && cond == c,
            IssueKind::Jump => {
                &&& !conditional
                &&& 2 <= i
                &&& now[i - 2] is Const
                &&& now[i - 2]->Const_ty == IsaType::Known(isa::Type::Uint(0))
                &&& now[i - 2]->Const_rd == cond
                &&& taken(
                    now[i]->JumpIssue_kind,
                    Map::<Reg, int>::empty().insert(cond, now[i - 2]->Const_imm as int),
                )
            },
            IssueKind::Far { .. } => false,
        }
    }
}

/// How many instructions the far form of a jump needs besides the jump.
pub open spec fn far_extra(before: MInstView) -> int {
    if before->JumpIssue_kind is Jump {
        2
    } else {
        1
    }
}

/// Whether a jump from an address leads ahead: its target stands behind it.
pub open spec fn leads_ahead(
    order: Seq<Block>,
    addrs: Seq<int>,
    insts: Seq<MInstView>,
    base: int,
    j: int,
) -> bool {
    exists|q: int|
        {
            &&& 0 <= q < order.len()
            &&& (#[trigger] order[q]).index == insts[j]->JumpIssue_dst.index
            &&& addrs[q] > base + length_between(insts, 0, j)
        }
}

/// The place directly before that of the `j`th instruction.
pub open spec fn place_before(at: Seq<int>, j: int) -> int {
    if j <= 0 {
        -1
    } else {
        at[j - 1]
    }
}

/// Whether `now` holds each instruction `j` at `at[j]`, as it was or in its far
/// form, all in order and nothing else.
pub open spec fn stretched(
    order: Seq<Block>,
    addrs: Seq<int>,
    insts: Seq<MInstView>,
    base: int,
    now: Seq<MInstView>,
    at: Seq<int>,
) -> bool {
    &&& at.len() == insts.len()
    &&& now.len() == place_before(at, insts.len() as int) + 1
    &&& forall|j: int|
        0 <= j < insts.len() ==> placed_at(order, addrs, insts, base, now, at, j)
}

/// Whether `now` holds instruction `j` at `at[j]`, as it was or in its far form,
/// directly behind the one before.
pub open spec fn placed_at(
    order: Seq<Block>,
    addrs: Seq<int>,
    insts: Seq<MInstView>,
    base: int,
    now: Seq<MInstView>,
    at: Seq<int>,
    j: int,
) -> bool {
    &&& 0 <= at[j] < now.len()
    &&& {
        ||| at[j] == place_before(at, j) + 1 && stays(insts[j], now[at[j]])
        ||| {
            &&& at[j] == place_before(at, j) + 1 + far_extra(insts[j])
            &&& goes_far(insts[j], now, at[j], leads_ahead(order, addrs, insts, base, j))
        }
    }
}

spec fn partly(
    order: Seq<Block>,
    addrs: Seq<int>,
    insts: Seq<MInstView>,
    base: int,
    cur: Seq<MInstView>,
    at: Seq<int>,
    k: int,
) -> bool {
    &&& at.len() == insts.len()
    &&& cur.len() == place_before(at, insts.len() as int) + 1
    &&& forall|j: int| 0 <= j < insts.len() ==> #[trigger] at[j] >= j
    &&& forall|j: int| 0 <= j < k ==> #[trigger] at[j] == j && stays(insts[j], cur[j])
    &&& forall|j: int|
        k <= j < insts.len() ==> #[trigger] placed_at(order, addrs, insts, base, cur, at, j)
}

proof fn offset_leads(
    order: Seq<Block>,
    addrs: Seq<int>,
    insts: Seq<MInstView>,
    base: int,
    j: int,
    trigger: int,
)
    requires
        order.no_duplicates(),
        insts[j] is JumpIssue,
        emitted_nonneg(insts, j, trigger),
        ({
            let q = block_place(order, block_of(insts[j]->JumpIssue_dst), 0);
            q < order.len() && offset_of(insts, base, j, trigger, addrs[q]) is Some
        }),
    ensures
        ({
            let q = block_place(order, block_of(insts[j]->JumpIssue_dst), 0);
            (offset_of(insts, base, j, trigger, addrs[q])->Some_0 > 0) == leads_ahead(
                order,
                addrs,
                insts,
                base,
                j,
            )
        }),
{
    let b = block_of(insts[j]->JumpIssue_dst);
    let q = block_place(order, b, 0);
    place_found(order, b, 0);
    span_is_length(insts, 0, j);
    assert(order[q].index == insts[j]->JumpIssue_dst.index);
    if leads_ahead(order, addrs, insts, base, j) {
        let x = choose|x: int|
            {
                &&& 0 <= x < order.len()
                &&& (#[trigger] order[x]).index == insts[j]->JumpIssue_dst.index
                &&& addrs[x] > base + length_between(insts, 0, j)
            };
        assert(order[x] == b);
        assert(x == q);
    }
}

/// Whether the way from an issue to its trigger has a length.
spec fn emitted_nonneg(insts: Seq<MInstView>, j: int, trigger: int) -> bool {
    crate::passes::triggers::emitted_span(insts, j + 1, trigger) >= 0
}

proof fn one_edited(
    order: Seq<Block>,
    addrs: Seq<int>,
    insts: Seq<MInstView>,
    base: int,
    cur: Seq<MInstView>,
    at: Seq<int>,
    k: int,
    trigger: int,
    next: int,
) -> (moved: Seq<int>)
    requires
        order.no_duplicates(),
        0 < k <= insts.len(),
        partly(order, addrs, insts, base, cur, at, k),
        insts[k - 1] is JumpIssue ==> emitted_nonneg(insts, k - 1, trigger),
        0 <= next,
        edited(cur, k - 1, decision(insts, base, order, addrs, k - 1, trigger), next) is Some,
        edited(
            cur,
            k - 1,
            decision(insts, base, order, addrs, k - 1, trigger),
            next,
        )->Some_0.1 <= u32::MAX,
    ensures
        partly(
            order,
            addrs,
            insts,
            base,
            edited(
                cur,
                k - 1,
                decision(insts, base, order, addrs, k - 1, trigger),
                next,
            )->Some_0.0,
            moved,
            k - 1,
        ),
        edited(
            cur,
            k - 1,
            decision(insts, base, order, addrs, k - 1, trigger),
            next,
        )->Some_0.1 >= next,
{
    let i = k - 1;
    let edit = decision(insts, base, order, addrs, i, trigger);
    let (now, n) = edited(cur, i, edit, next)->Some_0;
    assert(at[i] == i && stays(insts[i], cur[i]));
    assert(i > 0 ==> at[i - 1] == i - 1);
    assert forall|j: int| 0 <= j < i implies at[j] == j && #[trigger] stays(
        insts[j],
        cur[j],
    ) by {
        assert(at[j] == j);
    }
    match edit {
        Edit::Keep => {
            assert(placed_at(order, addrs, insts, base, now, at, i));
            at
        },
        Edit::Grow(c) => {
            last_below_is_greatest(|x: int| insts[x] is JumpOffset, i);
            assert(c == crate::passes::far_jumps::chain_before(insts, i));
            assert(0 <= c < i);
            assert(insts[c] is JumpOffset);
            assert(at[c] == c && stays(insts[c], cur[c]));
            assert(placed_at(order, addrs, insts, base, now, at, i));
            assert forall|j: int| k <= j < insts.len() implies #[trigger] placed_at(
                order,
                addrs,
                insts,
                base,
                now,
                at,
                j,
            ) by {
                assert(placed_at(order, addrs, insts, base, cur, at, j));
                assert(at[j - 1] >= j - 1);
            }
            assert forall|j: int| 0 <= j < i implies #[trigger] at[j] == j && stays(
                insts[j],
                now[j],
            ) by {
                assert(stays(insts[j], cur[j]));
            }
            at
        },
        Edit::Widen(offset) => {
            assert(cur[i] == insts[i]);
            offset_leads(order, addrs, insts, base, i, trigger);
            let (far, inserts, m) = far_form(cur[i], offset, next)->Some_0;
            let extra = inserts.len() as int;
            let moved = Seq::new(
                at.len(),
                |j: int|
                    if j < i {
                        at[j]
                    } else {
                        at[j] + extra
                    },
            );
            let with = cur.update(i, far);
            assert(now == with.take(i) + inserts + with.skip(i));
            assert(forall|x: int| 0 <= x < i ==> now[x] == cur[x]);
            assert(forall|x: int| i < x < cur.len() ==> now[x + extra] == cur[x]);
            assert(now[i + extra] == far);
            assert(now[i + extra - 1] == inserts[extra - 1]);
            if extra == 2 {
                assert(now[i] == inserts[0]);
            }
            assert(moved[i] == i + extra);
            assert(place_before(moved, i) == i - 1);
            assert(goes_far(
                insts[i],
                now,
                i + extra,
                leads_ahead(order, addrs, insts, base, i),
            ));
            assert(placed_at(order, addrs, insts, base, now, moved, i));
            assert forall|j: int| k <= j < insts.len() implies #[trigger] placed_at(
                order,
                addrs,
                insts,
                base,
                now,
                moved,
                j,
            ) by {
                assert(placed_at(order, addrs, insts, base, cur, at, j));
                assert(at[j - 1] >= j - 1);
                assert(moved[j] == at[j] + extra);
                assert(moved[j - 1] == at[j - 1] + extra);
                assert(at[j] > i);
                assert(now[at[j] + extra] == cur[at[j]]);
                if at[j] == place_before(at, j) + 1 && stays(insts[j], cur[at[j]]) {
                } else {
                    assert(now[at[j] - 1 + extra] == cur[at[j] - 1]);
                    if far_extra(insts[j]) == 2 {
                        assert(now[at[j] - 2 + extra] == cur[at[j] - 2]);
                    }
                    assert(goes_far(
                        insts[j],
                        now,
                        moved[j],
                        leads_ahead(order, addrs, insts, base, j),
                    ));
                }
            }
            assert forall|j: int| 0 <= j < insts.len() implies #[trigger] moved[j] >= j by {
                assert(at[j] >= j);
            }
            assert forall|j: int| 0 <= j < i implies #[trigger] moved[j] == j && stays(
                insts[j],
                now[j],
            ) by {
                assert(at[j] == j && stays(insts[j], cur[j]));
            }
            moved
        },
        Edit::Bad => at,
    }
}

proof fn all_edited(
    order: Seq<Block>,
    addrs: Seq<int>,
    insts: Seq<MInstView>,
    base: int,
    cur: Seq<MInstView>,
    at: Seq<int>,
    k: int,
    trigger: int,
    next: int,
) -> (moved: Seq<int>)
    requires
        order.no_duplicates(),
        0 <= k <= insts.len(),
        partly(order, addrs, insts, base, cur, at, k),
        forall|j: int|
            0 <= j < insts.len() && #[trigger] insts[j] is JumpIssue ==> emitted_nonneg(
                insts,
                j,
                trigger,
            ),
        0 <= next,
        edited_below(insts, cur, base, order, addrs, trigger, k, next) is Some,
        edited_below(insts, cur, base, order, addrs, trigger, k, next)->Some_0.1 <= u32::MAX,
    ensures
        partly(
            order,
            addrs,
            insts,
            base,
            edited_below(insts, cur, base, order, addrs, trigger, k, next)->Some_0.0,
            moved,
            0,
        ),
    decreases k,
{
    if k <= 0 {
        at
    } else {
        let edit = decision(insts, base, order, addrs, k - 1, trigger);
        let (c, n) = edited(cur, k - 1, edit, next)->Some_0;
        edits_grow(insts, c, base, order, addrs, trigger, k - 1, n);
        let moved = one_edited(order, addrs, insts, base, cur, at, k, trigger, next);
        all_edited(order, addrs, insts, base, c, moved, k - 1, trigger, n)
    }
}

proof fn edits_grow(
    insts: Seq<MInstView>,
    cur: Seq<MInstView>,
    base: int,
    order: Seq<Block>,
    addrs: Seq<int>,
    trigger: int,
    k: int,
    next: int,
)
    ensures
        edited_below(insts, cur, base, order, addrs, trigger, k, next) matches Some((_, n)) ==> n
            >= next,
    decreases k,
{
    if k > 0 {
        let edit = decision(insts, base, order, addrs, k - 1, trigger);
        if let Some((c, n)) = edited(cur, k - 1, edit, next) {
            edits_grow(insts, c, base, order, addrs, trigger, k - 1, n);
        }
    }
}

/// Widening a block keeps all its instructions in order: each stays as it was, or
/// is a short jump in its far form, which has the same target, trigger and
/// condition, the sense of its direction, and its offset materialized before it.
/// Nothing else is inserted.
pub proof fn widened_jumps_keep_their_meaning(
    bb: BBView,
    order: Seq<Block>,
    addrs: Seq<int>,
    next: int,
)
    requires
        order.no_duplicates(),
        0 <= next,
        block_widened(bb, order, addrs, next) is Some,
        block_widened(bb, order, addrs, next)->Some_0.1 <= u32::MAX,
        jump_issues(bb.inst) matches Some((_, trigger)) ==> forall|j: int|
            0 <= j < bb.inst.len() && #[trigger] bb.inst[j] is JumpIssue
                ==> crate::passes::triggers::emitted_span(bb.inst, j + 1, trigger as int) >= 0,
    ensures
        ({
            let now = block_widened(bb, order, addrs, next)->Some_0.0;
            let base = addrs[block_place(order, bb.vcode_bb, 0)];
            &&& now == (BBView { inst: now.inst, ..bb })
            &&& exists|at: Seq<int>| #[trigger]
                stretched(order, addrs, bb.inst, base, now.inst, at)
        }),
{
    let insts = bb.inst;
    let base = addrs[block_place(order, bb.vcode_bb, 0)];
    let start = Seq::new(insts.len(), |j: int| j);
    let now = block_widened(bb, order, addrs, next)->Some_0.0;
    assert(partly(order, addrs, insts, base, insts, start, insts.len() as int));
    match jump_issues(insts) {
        None => {
            assert forall|j: int| 0 <= j < insts.len() implies #[trigger] placed_at(
                order,
                addrs,
                insts,
                base,
                insts,
                start,
                j,
            ) by {}
            assert(stretched(order, addrs, insts, base, now.inst, start));
        },
        Some((_, trigger)) => {
            assert forall|j: int| 0 <= j < insts.len() && #[trigger] insts[j] is JumpIssue implies emitted_nonneg(
                insts,
                j,
                trigger as int,
            ) by {}
            let at = all_edited(
                order,
                addrs,
                insts,
                base,
                insts,
                start,
                insts.len() as int,
                trigger as int,
                next,
            );
            assert(stretched(order, addrs, insts, base, now.inst, at));
        },
    }
}

/// How many machine instructions the blocks before place `p` of a layout emit.
pub open spec fn place_start(bbs: Seq<BBView>, layout: Seq<usize>, p: int) -> int
    decreases p,
{
    if p <= 0 {
        0
    } else {
        let insts = bbs[layout[p - 1] as int].inst;
        place_start(bbs, layout, p - 1) + length_between(insts, 0, insts.len() as int)
    }
}

proof fn starts_are(bbs: Seq<BBView>, layout: Seq<usize>, p: int)
    ensures
        start_of(bbs, layout, p) == place_start(bbs, layout, p),
    decreases p,
{
    if p > 0 {
        let insts = bbs[layout[p - 1] as int].inst;
        span_is_length(insts, 0, insts.len() as int);
        starts_are(bbs, layout, p - 1);
    }
}

/// A block with its jumps widened, without the registers that it takes.
pub open spec fn widened_block(
    bb: BBView,
    order: Seq<Block>,
    addrs: Seq<int>,
    next: int,
) -> Option<BBView> {
    match block_widened(bb, order, addrs, next) {
        Some((b, _)) => Some(b),
        None => None,
    }
}

proof fn widened_at(
    bbs: Seq<BBView>,
    order: Seq<Block>,
    addrs: Seq<int>,
    w: int,
    next: int,
    v: int,
)
    requires
        0 <= w <= bbs.len(),
        blocks_widened(bbs, order, addrs, w, next) is Some,
    ensures
        blocks_widened(bbs, order, addrs, w, next)->Some_0.0.len() == bbs.len() - w,
        w <= v < bbs.len() ==> exists|a: int| #[trigger]
            widened_block(bbs[v], order, addrs, a) == Some(
                blocks_widened(bbs, order, addrs, w, next)->Some_0.0[v - w],
            ),
    decreases bbs.len() - w,
{
    if w < bbs.len() {
        let (b, n) = block_widened(bbs[w], order, addrs, next)->Some_0;
        let rest = blocks_widened(bbs, order, addrs, w + 1, n)->Some_0.0;
        let all = blocks_widened(bbs, order, addrs, w, next)->Some_0.0;
        assert(all == seq![b] + rest);
        widened_at(bbs, order, addrs, w + 1, n, v);
        if w < v < bbs.len() {
            assert(all[v - w] == rest[v - (w + 1)]);
        } else if v == w {
            assert(widened_block(bbs[w], order, addrs, next) == Some(all[0]));
        }
    }
}

/// Every block is widened as its place in the layout asks for: addresses count the
/// machine instructions of all blocks before.
pub proof fn every_block_is_widened_for_its_place(g: Shape, next: int, v: int)
    requires
        widened(g, next) is Some,
        0 <= v < g.bbs.len(),
    ensures
        ({
            let after = widened(g, next)->Some_0.0;
            let layout = g.layout()->Some_0;
            let addrs = Seq::new(layout.len(), |q: int| place_start(g.bbs, layout, q));
            &&& g.layout() is Some
            &&& after.len() == g.bbs.len()
            &&& exists|a: int| #[trigger]
                widened_block(g.bbs[v], laid_out(g.bbs, layout), addrs, a) == Some(after[v])
        }),
{
    let layout = g.layout()->Some_0;
    let addrs = Seq::new(layout.len(), |q: int| place_start(g.bbs, layout, q));
    let found = starts(g.bbs, layout)->Some_0;
    assert(found =~= addrs) by {
        assert forall|q: int| 0 <= q < found.len() implies found[q] == addrs[q] by {
            starts_are(g.bbs, layout, q);
        }
    }
    widened_at(g.bbs, laid_out(g.bbs, layout), addrs, 0, next, v);
}

} // verus!
