//! Widening of jumps whose targets are out of reach.
use crate::bb::{bb_views, last_below, last_below_is_greatest, BBView, VCodeBB};
use crate::cfg::VCodeCFG;
use crate::inst::{views, IssueKind, MInst, MInstOf, MInstView};
use crate::isa;
use crate::isatype::IsaType;
use crate::issues::{find_jmp_issues, issue_is_listed, jump_issues, jumps_wf};
use crate::label::{spec_jump_offset, LabelUse};
use crate::layout::{
    block_of, insertion_keeps_exit, issue_update_keeps_exit, layout_depends_on_exits_alone,
    plain_update_keeps_exit, same_exit, same_exit_trans, Shape,
};
use crate::pass::refused;
use crate::passes::branches::{block_place, find_block_place, laid_out};
use crate::passes::frame::{splice, spliced};
use crate::passes::triggers::{
    all_emittable, check_emittable, emitted_span, emitted_span_bounds, measure_emitted,
};
use crate::reg::{ran_out, vreg, Block, CodegenError, Reg, VRegAllocator, VREG_LIMIT};
use vstd::prelude::*;

verus! {

broadcast use {crate::inst::views_update, crate::inst::views_push};

/// The largest number of machine instructions of a function: byte offsets of the
/// two-byte instructions fit 32 bits.
pub const MAX_CODE: u32 = 0x7fff_ffff;

/// How many machine instructions the blocks before place `p` of a layout emit.
pub open spec fn start_of(bbs: Seq<BBView>, layout: Seq<usize>, p: int) -> int
    decreases p,
{
    if p <= 0 {
        0
    } else {
        let insts = bbs[layout[p - 1] as int].inst;
        start_of(bbs, layout, p - 1) + emitted_span(insts, 0, insts.len() as int)
    }
}

/// Where the blocks of a layout start, `None` where they cannot be emitted or are
/// too many instructions.
pub open spec fn starts(bbs: Seq<BBView>, layout: Seq<usize>) -> Option<Seq<int>> {
    if blocks_emittable(bbs, layout) && start_of(bbs, layout, layout.len() as int) <= MAX_CODE {
        Some(Seq::new(layout.len(), |p: int| start_of(bbs, layout, p)))
    } else {
        None
    }
}

/// Whether the blocks of a shape can be laid out and emitted, but are too many
/// instructions.
pub open spec fn code_too_long(g: Shape) -> bool {
    &&& g.layout() matches Some(layout)
    &&& blocks_emittable(g.bbs, layout)
    &&& start_of(g.bbs, layout, layout.len() as int) > MAX_CODE
}

/// Whether the blocks of a layout can be emitted.
pub open spec fn blocks_emittable(bbs: Seq<BBView>, layout: Seq<usize>) -> bool {
    forall|p: int|
        0 <= p < layout.len() ==> all_emittable(
            bbs[(#[trigger] layout[p]) as int].inst,
            0,
            bbs[layout[p] as int].inst.len() as int,
        )
}

/// What is done about a jump issue.
#[verifier::ext_equal]
pub enum Edit {
    /// Nothing.
    Keep,
    /// It becomes a far issue with the given offset.
    Widen(int),
    /// Its offset chain, at the given position, is widened to 32 bits.
    Grow(int),
    /// It breaks what the pass relies on.
    Bad,
}

/// The offset with which the issue at `i` reaches its target; `None` where the
/// target follows the trigger.
pub open spec fn offset_of(insts: Seq<MInstView>, base: int, i: int, trigger: int, target: int) -> Option<
    int,
> {
    spec_jump_offset(
        base + emitted_span(insts, 0, i),
        emitted_span(insts, i + 1, trigger),
        target,
    )
}

/// The position of the nearest offset chain before `i`, or -1.
pub open spec fn chain_before(insts: Seq<MInstView>, i: int) -> int {
    last_below(|k: int| insts[k] is JumpOffset, i)
}

/// The far form of a label use, whose reach depends on its size alone.
pub open spec fn far_use(size_pow2: u16) -> LabelUse {
    LabelUse::JmpFar { size_pow2, gap: 0, trig: 0 }
}

/// What is done about the instruction at `i` of a block that starts at `base`.
pub open spec fn decision(
    insts: Seq<MInstView>,
    base: int,
    order: Seq<Block>,
    addrs: Seq<int>,
    i: int,
    trigger: int,
) -> Edit {
    match insts[i] {
        MInstOf::ImmJump { .. } => Edit::Bad,
        MInstOf::JumpIssue { dst, kind, .. } => {
            let p = block_place(order, block_of(dst), 0);
            if p >= order.len() {
                Edit::Bad
            } else {
                let offset = offset_of(insts, base, i, trigger, addrs[p]);
                match kind {
                    IssueKind::Far { .. } => {
                        let c = chain_before(insts, i);
                        if offset is None || c < 0 || insts[c]->JumpOffset_size_pow2 > 2 {
                            Edit::Bad
                        } else if far_use(insts[c]->JumpOffset_size_pow2).reaches(
                            offset->Some_0,
                        ) {
                            Edit::Keep
                        } else if insts[c]->JumpOffset_size_pow2 == 2 {
                            Edit::Bad
                        } else {
                            Edit::Grow(c)
                        }
                    },
                    // No offset means a fall-through, which is never far.
                    _ => if offset is None || LabelUse::JmpLoc7.reaches(offset->Some_0) {
                        Edit::Keep
                    } else {
                        Edit::Widen(offset->Some_0)
                    },
                }
            }
        },
        _ => Edit::Keep,
    }
}

/// The width for an offset, leaving 4 bits of slack for the widening itself.
pub open spec fn width_for(offset: int) -> u16 {
    if -0x800 <= offset <= 0x7ff {
        1
    } else {
        2
    }
}

/// The far form of an issue, the instructions inserted before it, and the index
/// of the next register; `None` where a branch has the other direction's sense.
///
/// A far branch keeps its condition; a far unconditional jump gets a constant
/// condition of the direction's sense: zero takes a forward jump, non-zero a
/// backward one. The offset's chain comes last, so that the condition arrives
/// before the offset.
pub open spec fn far_form(inst: MInstView, offset: int, next: int) -> Option<
    (MInstView, Seq<MInstView>, int),
> {
    match inst {
        MInstOf::JumpIssue { link, dst, kind, trig } => {
            let dir = offset > 0;
            let chain: MInstView = MInstOf::JumpOffset {
                rd: vreg(next),
                dst,
                size_pow2: width_for(offset),
                gap: 0,
                trig: 0,
            };
            match kind {
                IssueKind::Jump => {
                    let cond: MInstView = MInstOf::Const {
                        ty: IsaType::Known(isa::Type::Uint(0)),
                        rd: vreg(next + 1),
                        imm: if dir {
                            0
                        } else {
                            1
                        },
                    };
                    Some(
                        (
                            MInstOf::JumpIssue {
                                link,
                                dst,
                                kind: IssueKind::Far {
                                    conditional: false,
                                    dir,
                                    cond: vreg(next + 1),
                                    offset: vreg(next),
                                },
                                trig,
                            },
                            seq![cond, chain],
                            next + 2,
                        ),
                    )
                },
                IssueKind::Branch { dir: sense, cond } => if sense == dir {
                    Some(
                        (
                            MInstOf::JumpIssue {
                                link,
                                dst,
                                kind: IssueKind::Far {
                                    conditional: true,
                                    dir,
                                    cond,
                                    offset: vreg(next),
                                },
                                trig,
                            },
                            seq![chain],
                            next + 1,
                        ),
                    )
                } else {
                    None
                },
                IssueKind::Far { .. } => None,
            }
        },
        _ => None,
    }
}

/// The offset chain widened to 32 bits.
pub open spec fn grown_chain(inst: MInstView) -> MInstView {
    match inst {
        MInstOf::JumpOffset { rd, dst, gap, trig, .. } => MInstOf::JumpOffset {
            rd,
            dst,
            size_pow2: 2,
            gap,
            trig,
        },
        _ => inst,
    }
}

/// The instructions with an edit applied to the issue at `i`.
pub open spec fn edited(cur: Seq<MInstView>, i: int, edit: Edit, next: int) -> Option<
    (Seq<MInstView>, int),
> {
    match edit {
        Edit::Keep => Some((cur, next)),
        Edit::Bad => None,
        Edit::Grow(c) => Some((cur.update(c, grown_chain(cur[c])), next)),
        Edit::Widen(offset) => match far_form(cur[i], offset, next) {
            Some((far, inserts, n)) => Some((spliced(cur.update(i, far), i, inserts), n)),
            None => None,
        },
    }
}

/// The instructions `cur` with the edits decided on `insts` applied to those
/// below `k`, the last first.
pub open spec fn edited_below(
    insts: Seq<MInstView>,
    cur: Seq<MInstView>,
    base: int,
    order: Seq<Block>,
    addrs: Seq<int>,
    trigger: int,
    k: int,
    next: int,
) -> Option<(Seq<MInstView>, int)>
    decreases k,
{
    if k <= 0 {
        Some((cur, next))
    } else {
        match edited(cur, k - 1, decision(insts, base, order, addrs, k - 1, trigger), next) {
            Some((c, n)) => edited_below(insts, c, base, order, addrs, trigger, k - 1, n),
            None => None,
        }
    }
}

/// A block with its jumps widened as far as needed.
pub open spec fn block_widened(bb: BBView, order: Seq<Block>, addrs: Seq<int>, next: int) -> Option<
    (BBView, int),
> {
    let here = block_place(order, bb.vcode_bb, 0);
    if !jumps_wf(bb.inst) || here >= order.len() {
        None
    } else {
        match jump_issues(bb.inst) {
            None => Some((bb, next)),
            Some((_, trigger)) => match edited_below(
                bb.inst,
                bb.inst,
                addrs[here],
                order,
                addrs,
                trigger as int,
                bb.inst.len() as int,
                next,
            ) {
                Some((inst, n)) => Some((BBView { inst, ..bb }, n)),
                None => None,
            },
        }
    }
}

/// The blocks from `v` on with their jumps widened.
pub open spec fn blocks_widened(
    bbs: Seq<BBView>,
    order: Seq<Block>,
    addrs: Seq<int>,
    v: int,
    next: int,
) -> Option<(Seq<BBView>, int)>
    decreases bbs.len() - v,
{
    if v >= bbs.len() {
        Some((Seq::empty(), next))
    } else {
        match block_widened(bbs[v], order, addrs, next) {
            None => None,
            Some((b, n)) => match blocks_widened(bbs, order, addrs, v + 1, n) {
                None => None,
                Some((rest, m)) => Some((seq![b] + rest, m)),
            },
        }
    }
}

/// All blocks with their jumps widened as far as the distances of their layout
/// need it.
pub open spec fn widened(g: Shape, next: int) -> Option<(Seq<BBView>, int)> {
    match g.layout() {
        None => None,
        Some(layout) => match starts(g.bbs, layout) {
            None => None,
            Some(addrs) => blocks_widened(g.bbs, laid_out(g.bbs, layout), addrs, 0, next),
        },
    }
}

/// Whether an instruction is an offset chain that can still be widened.
pub open spec fn is_small_chain(inst: MInstView) -> bool {
    inst matches MInstOf::JumpOffset { size_pow2, .. } && size_pow2 < 2
}

/// How many offset chains can still be widened.
pub open spec fn small_chains(insts: Seq<MInstView>) -> nat
    decreases insts.len(),
{
    if insts.len() == 0 {
        0
    } else {
        small_chains(insts.drop_last()) + (if is_small_chain(insts.last()) {
            1nat
        } else {
            0nat
        })
    }
}

/// How many offset chains of the blocks below `v` can still be widened.
pub open spec fn all_small_chains(bbs: Seq<BBView>, v: int) -> nat
    decreases v,
{
    if v <= 0 {
        0
    } else {
        all_small_chains(bbs, v - 1) + small_chains(bbs[v - 1].inst)
    }
}

/// Chains are counted over joined lists.
pub proof fn small_chains_add(a: Seq<MInstView>, b: Seq<MInstView>)
    ensures
        small_chains(a + b) == small_chains(a) + small_chains(b),
    decreases b.len(),
{
    if b.len() == 0 {
        assert(a + b =~= a);
    } else {
        small_chains_add(a, b.drop_last());
        assert((a + b).drop_last() =~= a + b.drop_last());
    }
}

/// Replacing an instruction changes the count by that instruction.
pub proof fn small_chains_update(a: Seq<MInstView>, i: int, x: MInstView)
    requires
        0 <= i < a.len(),
    ensures
        small_chains(a.update(i, x)) + (if is_small_chain(a[i]) {
            1int
        } else {
            0int
        }) == small_chains(a) + (if is_small_chain(x) {
            1int
        } else {
            0int
        }),
    decreases a.len(),
{
    if i < a.len() - 1 {
        small_chains_update(a.drop_last(), i, x);
        assert(a.update(i, x).drop_last() =~= a.drop_last().update(i, x));
    } else {
        assert(a.update(i, x).drop_last() =~= a.drop_last());
    }
}

/// Whether rewriting took registers for new instructions, widened chains, or left
/// everything as it was.
pub open spec fn progressed(a: Seq<MInstView>, next: int, b: Seq<MInstView>, n: int) -> bool {
    ||| (b == a && n == next)
    ||| (b.len() > a.len() && n > next)
    ||| (b.len() == a.len() && n == next && small_chains(b) < small_chains(a))
}

proof fn edited_progresses(cur: Seq<MInstView>, i: int, edit: Edit, next: int)
    requires
        0 <= i < cur.len(),
        edit matches Edit::Grow(c) ==> 0 <= c < i && cur[c] is JumpOffset && (
        cur[c]->JumpOffset_size_pow2 <= 2),
    ensures
        edited(cur, i, edit, next) matches Some((c, n)) ==> progressed(cur, next, c, n),
{
    if let Edit::Grow(c) = edit {
        small_chains_update(cur, c, grown_chain(cur[c]));
        if !is_small_chain(cur[c]) && edited(cur, i, edit, next) is Some {
            if cur[c]->JumpOffset_size_pow2 == 2 {
                assert(cur.update(c, grown_chain(cur[c])) =~= cur);
            }
        }
    }
}

/// Whether two lists start alike up to `k`, but for the sizes of chains.
spec fn alike_below(insts: Seq<MInstView>, cur: Seq<MInstView>, k: int) -> bool {
    &&& k <= cur.len()
    &&& k <= insts.len()
    &&& forall|j: int|
        0 <= j < k ==> (#[trigger] cur[j]) == insts[j] || (is_small_chain(insts[j]) && cur[j]
            == grown_chain(insts[j]))
}

proof fn decision_grows_before(
    insts: Seq<MInstView>,
    base: int,
    order: Seq<Block>,
    addrs: Seq<int>,
    i: int,
    trigger: int,
)
    requires
        0 <= i < insts.len(),
    ensures
        decision(insts, base, order, addrs, i, trigger) matches Edit::Grow(c) ==> 0 <= c < i
            && is_small_chain(insts[c]),
{
    let p = |k: int| insts[k] is JumpOffset;
    last_below_is_greatest(p, i);
    assert(chain_before(insts, i) == last_below(p, i));
}

proof fn edited_keeps_alike(insts: Seq<MInstView>, cur: Seq<MInstView>, i: int, edit: Edit, next: int)
    requires
        0 <= i,
        alike_below(insts, cur, i + 1),
        edit matches Edit::Grow(c) ==> 0 <= c < i && is_small_chain(insts[c]),
    ensures
        edited(cur, i, edit, next) matches Some((c, n)) ==> alike_below(insts, c, i),
{
    if let Some((c, n)) = edited(cur, i, edit, next) {
        assert forall|j: int| 0 <= j < i implies (#[trigger] c[j]) == insts[j] || (is_small_chain(
            insts[j],
        ) && c[j] == grown_chain(insts[j])) by {
            assert(cur[j] == insts[j] || (is_small_chain(insts[j]) && cur[j] == grown_chain(
                insts[j],
            )));
        }
    }
}

/// Applying the edits takes registers or widens chains, unless it leaves
/// everything as it was.
proof fn edited_below_progresses(
    insts: Seq<MInstView>,
    cur: Seq<MInstView>,
    base: int,
    order: Seq<Block>,
    addrs: Seq<int>,
    trigger: int,
    k: int,
    next: int,
)
    requires
        alike_below(insts, cur, k),
    ensures
        edited_below(insts, cur, base, order, addrs, trigger, k, next) matches Some((c, n))
            ==> progressed(cur, next, c, n),
    decreases k,
{
    if k > 0 {
        let i = k - 1;
        let edit = decision(insts, base, order, addrs, i, trigger);
        decision_grows_before(insts, base, order, addrs, i, trigger);
        if let Edit::Grow(c) = edit {
            assert(cur[c] == insts[c] || cur[c] == grown_chain(insts[c]));
        }
        edited_progresses(cur, i, edit, next);
        edited_keeps_alike(insts, cur, i, edit, next);
        if let Some((c, n)) = edited(cur, i, edit, next) {
            edited_below_progresses(insts, c, base, order, addrs, trigger, i, n);
        }
    }
}

proof fn block_progresses(bb: BBView, order: Seq<Block>, addrs: Seq<int>, next: int)
    ensures
        block_widened(bb, order, addrs, next) matches Some((b, n)) ==> {
            &&& progressed(bb.inst, next, b.inst, n)
            &&& b == (BBView { inst: b.inst, ..bb })
        },
{
    if let Some((_, trigger)) = jump_issues(bb.inst) {
        edited_below_progresses(
            bb.inst,
            bb.inst,
            addrs[block_place(order, bb.vcode_bb, 0)],
            order,
            addrs,
            trigger as int,
            bb.inst.len() as int,
            next,
        );
    }
}

/// The nearest offset chain before an instruction.
fn find_chain(insts: &Vec<MInst>, i: usize) -> (r: Option<usize>)
    requires
        i <= insts@.len(),
    ensures
        match r {
            Some(c) => c == chain_before(views(insts@), i as int) && c < i && views(
                insts@,
            )[c as int] is JumpOffset,
            None => chain_before(views(insts@), i as int) < 0,
        },
{
    let ghost all = views(insts@);
    let ghost p = |k: int| all[k] is JumpOffset;
    let mut k: usize = i;
    while k > 0
        invariant
            k <= i <= insts@.len(),
            all == views(insts@),
            p == (|k: int| all[k] is JumpOffset),
            chain_before(all, i as int) == last_below(p, k as int),
        decreases k,
    {
        k = k - 1;
        assert(all[k as int] == insts@[k as int]@);
        match &insts[k] {
            MInst::JumpOffset { .. } => {
                assert(p(k as int));
                return Some(k);
            },
            _ => {},
        }
    }
    None
}

/// What is done about a jump issue.
pub enum Choice {
    Keep,
    Widen(i64),
    Grow(usize),
    Bad,
}

/// The choice as a mathematical value.
spec fn choice_view(c: Choice) -> Edit {
    match c {
        Choice::Keep => Edit::Keep,
        Choice::Widen(o) => Edit::Widen(o as int),
        Choice::Grow(c) => Edit::Grow(c as int),
        Choice::Bad => Edit::Bad,
    }
}

/// The addresses as integers.
spec fn addr_ints(addrs: Seq<u32>) -> Seq<int> {
    Seq::new(addrs.len(), |i: int| addrs[i] as int)
}

/// Whether a block fits the code it is laid out in.
spec fn block_fits(insts: Seq<MInstView>, base: int, order: Seq<Block>, addrs: Seq<u32>) -> bool {
    &&& order.len() == addrs.len()
    &&& all_emittable(insts, 0, insts.len() as int)
    &&& 0 <= base
    &&& base + emitted_span(insts, 0, insts.len() as int) <= MAX_CODE
    &&& forall|p: int| 0 <= p < addrs.len() ==> (#[trigger] addrs[p]) <= MAX_CODE
}

/// Decides about the instruction at `i`.
fn decide(
    insts: &Vec<MInst>,
    base: u32,
    order: &Vec<Block>,
    addrs: &Vec<u32>,
    i: usize,
    trigger: usize,
) -> (r: Choice)
    requires
        i < insts@.len(),
        trigger < insts@.len(),
        insts@[i as int]@ is JumpIssue ==> i < trigger,
        block_fits(views(insts@), base as int, order@, addrs@),
    ensures
        choice_view(r) == decision(
            views(insts@),
            base as int,
            order@,
            addr_ints(addrs@),
            i as int,
            trigger as int,
        ),
{
    let ghost all = views(insts@);
    let n: usize = insts.len();
    assert(all[i as int] == insts@[i as int]@);
    match &insts[i] {
        MInst::ImmJump { .. } => Choice::Bad,
        MInst::JumpIssue { dst, kind, .. } => {
            let p: usize = find_block_place(order, Block { index: dst.index });
            if p >= order.len() {
                return Choice::Bad;
            }
            proof {
                emitted_span_bounds(all, 0, i as int, n as int);
                emitted_span_bounds(all, 0, i + 1, n as int);
                emitted_span_bounds(all, i + 1, trigger as int, n as int);
                emitted_span_bounds(all, 0, i as int, i as int);
            }
            let before: u32 = match measure_emitted(insts, 0, i, MAX_CODE) {
                Some(len) => len,
                None => 0,
            };
            let trig: u32 = match measure_emitted(insts, i + 1, trigger, MAX_CODE) {
                Some(len) => len,
                None => 0,
            };
            let jump: i64 = base as i64 + before as i64;
            let target: i64 = addrs[p] as i64;
            assert(addr_ints(addrs@)[p as int] == target);
            assert(target <= MAX_CODE) by {
                assert(addrs@[p as int] <= MAX_CODE);
            }
            let offset: Option<i64> = LabelUse::jump_offset(jump, trig as i64, target);
            match kind {
                IssueKind::Far { .. } => {
                    let o: i64 = match offset {
                        Some(o) => o,
                        None => {
                            return Choice::Bad;
                        },
                    };
                    let c: usize = match find_chain(insts, i) {
                        Some(c) => c,
                        None => {
                            return Choice::Bad;
                        },
                    };
                    assert(all[c as int] == insts@[c as int]@);
                    let size: u16 = match &insts[c] {
                        MInst::JumpOffset { size_pow2, .. } => *size_pow2,
                        _ => 3,
                    };
                    if size > 2 {
                        return Choice::Bad;
                    }
                    let far = LabelUse::JmpFar { size_pow2: size, gap: 0, trig: 0 };
                    if far.can_reach(o) {
                        Choice::Keep
                    } else if size == 2 {
                        Choice::Bad
                    } else {
                        Choice::Grow(c)
                    }
                },
                _ => match offset {
                    Some(o) => {
                        if LabelUse::JmpLoc7.can_reach(o) {
                            Choice::Keep
                        } else {
                            Choice::Widen(o)
                        }
                    },
                    None => Choice::Keep,
                },
            }
        },
        _ => Choice::Keep,
    }
}

/// The far form of an issue and the instructions inserted before it.
fn make_far(inst: &MInst, offset: i64, vregs: &mut VRegAllocator) -> (r: Result<
    (MInst, Vec<MInst>),
    CodegenError,
>)
    requires
        old(vregs).wf(),
    ensures
        final(vregs).wf(),
        ({
            let s = far_form(inst@, offset as int, old(vregs).next as int);
            match r {
                Ok((far, inserts)) => s == Some((far@, views(inserts@), final(vregs).next as int)),
                Err(e) => match s {
                    None => e is Malformed || ran_out(e, final(vregs).next),
                    Some((_, _, n)) => n > VREG_LIMIT && ran_out(e, final(vregs).next),
                },
            }
        }),
{
    let ghost s = far_form(inst@, offset as int, vregs.next as int);
    match inst {
        MInst::JumpIssue { link, dst, kind, trig } => {
            let dir: bool = offset > 0;
            let size_pow2: u16 = if -0x800 <= offset && offset <= 0x7ff {
                1
            } else {
                2
            };
            let (conditional, sense_cond): (bool, Option<Reg>) = match kind {
                IssueKind::Jump => (false, None),
                IssueKind::Branch { dir: sense, cond } => {
                    if *sense != dir {
                        return Err(CodegenError::Malformed);
                    }
                    (true, Some(*cond))
                },
                IssueKind::Far { .. } => {
                    return Err(CodegenError::Malformed);
                },
            };
            let offset_r = match vregs.fresh() {
                Ok(r) => r,
                Err(e) => {
                    return Err(e);
                },
            };
            let mut inserts: Vec<MInst> = Vec::new();
            let cond: Reg = match sense_cond {
                Some(cond) => cond,
                None => {
                    let cond = match vregs.fresh() {
                        Ok(r) => r,
                        Err(e) => {
                            return Err(e);
                        },
                    };
                    let imm: i64 = if dir {
                        0
                    } else {
                        1
                    };
                    inserts.push(
                        MInst::Const { ty: IsaType::Known(isa::Type::Uint(0)), rd: cond, imm },
                    );
                    cond
                },
            };
            inserts.push(
                MInst::JumpOffset { rd: offset_r, dst: *dst, size_pow2, gap: 0, trig: 0 },
            );
            let far = MInst::JumpIssue {
                link: *link,
                dst: *dst,
                kind: IssueKind::Far { conditional, dir, cond, offset: offset_r },
                trig: *trig,
            };
            assert(views(inserts@) =~= s->Some_0.1);
            Ok((far, inserts))
        },
        _ => Err(CodegenError::Malformed),
    }
}

/// Applies an edit. Returns whether anything changed.
fn apply_edit(b: &mut VCodeBB, i: usize, choice: Choice, vregs: &mut VRegAllocator) -> (r: Result<
    bool,
    CodegenError,
>)
    requires
        old(vregs).wf(),
        i < old(b).inst@.len(),
        choice matches Choice::Grow(c) ==> c < i && old(b)@.inst[c as int] is JumpOffset && (
        old(b)@.inst[c as int]->JumpOffset_size_pow2 <= 2),
    ensures
        final(vregs).wf(),
        ({
            let s = edited(
                old(b)@.inst,
                i as int,
                choice_view(choice),
                old(vregs).next as int,
            );
            match r {
                Ok(changed) => {
                    &&& s == Some((final(b)@.inst, final(vregs).next as int))
                    &&& final(b)@ == (BBView { inst: final(b)@.inst, ..old(b)@ })
                    &&& changed == (final(b)@.inst != old(b)@.inst)
                },
                Err(e) => refused(s, e, final(vregs).next),
            }
        }),
{
    let ghost before = b@.inst;
    match choice {
        Choice::Keep => Ok(false),
        Choice::Bad => Err(CodegenError::Malformed),
        Choice::Grow(c) => {
            assert(before[c as int] == b.inst@[c as int]@);
            match &b.inst[c] {
                MInst::JumpOffset { rd, dst, size_pow2, gap, trig } => {
                    let small: bool = *size_pow2 < 2;
                    let grown = MInst::JumpOffset {
                        rd: *rd,
                        dst: *dst,
                        size_pow2: 2,
                        gap: *gap,
                        trig: *trig,
                    };
                    b.inst.set(c, grown);
                    proof {
                        if !small {
                            assert(b@.inst =~= before);
                        } else if b@.inst == before {
                            assert(b@.inst[c as int] == before[c as int]);
                        }
                    }
                    Ok(small)
                },
                _ => Err(CodegenError::Malformed),
            }
        },
        Choice::Widen(offset) => {
            assert(before[i as int] == b.inst@[i as int]@);
            match make_far(&b.inst[i], offset, vregs) {
                Ok((far, inserts)) => {
                    b.inst.set(i, far);
                    b.inst = splice(&b.inst, i, inserts);
                    assert(b@.inst.len() > before.len());
                    Ok(true)
                },
                Err(e) => Err(e),
            }
        },
    }
}

/// Widens the jumps of a block. Returns whether anything changed.
fn widen_block(
    bb: &VCodeBB,
    order: &Vec<Block>,
    addrs: &Vec<u32>,
    vregs: &mut VRegAllocator,
) -> (r: Result<(VCodeBB, bool), CodegenError>)
    requires
        old(vregs).wf(),
        order@.len() == addrs@.len(),
        block_place(order@, bb@.vcode_bb, 0) < order@.len(),
        block_fits(
            bb@.inst,
            addrs@[block_place(order@, bb@.vcode_bb, 0)] as int,
            order@,
            addrs@,
        ),
    ensures
        final(vregs).wf(),
        ({
            let s = block_widened(bb@, order@, addr_ints(addrs@), old(vregs).next as int);
            match r {
                Ok((b, changed)) => s == Some((b@, final(vregs).next as int)) && changed == (b@.inst
                    != bb@.inst),
                Err(e) => refused(s, e, final(vregs).next),
            }
        }),
{
    let ghost insts = bb@.inst;
    let ghost ai = addr_ints(addrs@);
    let here: usize = find_block_place(order, bb.vcode_bb);
    let (issues, trigger) = match find_jmp_issues(&bb.inst) {
        Err(e) => {
            return Err(e);
        },
        Ok(None) => {
            return Ok((bb.copy(), false));
        },
        Ok(Some(found)) => found,
    };
    let n: usize = bb.inst.len();
    proof {
        assert forall|i: int| 0 <= i < bb.inst@.len() && (#[trigger] bb.inst@[i])@ is JumpIssue implies i
            < trigger by {
            assert(insts[i] == bb.inst@[i]@);
            issue_is_listed(insts, i);
            let k = choose|k: int| 0 <= k < issues@.len() && issues@[k] == i as usize;
            assert(issues@[k] <= trigger);
        }
    }
    let base: u32 = addrs[here];
    assert(ai[here as int] == base);
    let mut b = bb.copy();
    let mut changed: bool = false;
    let mut k: usize = n;
    let ghost whole = edited_below(
        insts,
        insts,
        base as int,
        order@,
        ai,
        trigger as int,
        n as int,
        vregs.next as int,
    );
    while k > 0
        invariant
            vregs.wf(),
            insts == bb@.inst,
            insts == views(bb.inst@),
            n == bb.inst@.len(),
            ai == addr_ints(addrs@),
            trigger < n,
            k <= n,
            jumps_wf(insts),
            jump_issues(insts) == Some((issues@, trigger)),
            here == block_place(order@, bb@.vcode_bb, 0),
            here < order@.len(),
            ai[here as int] == base,
            block_fits(insts, base as int, order@, addrs@),
            forall|i: int|
                0 <= i < bb.inst@.len() && (#[trigger] bb.inst@[i])@ is JumpIssue ==> i < trigger,
            alike_below(insts, b@.inst, k as int),
            b@ == (BBView { inst: b@.inst, ..bb@ }),
            changed == (b@.inst != insts),
            progressed(insts, old(vregs).next as int, b@.inst, vregs.next as int),
            whole == edited_below(
                insts,
                insts,
                base as int,
                order@,
                ai,
                trigger as int,
                n as int,
                old(vregs).next as int,
            ),
            whole == edited_below(
                insts,
                b@.inst,
                base as int,
                order@,
                ai,
                trigger as int,
                k as int,
                vregs.next as int,
            ),
        decreases k,
    {
        k = k - 1;
        let choice = decide(&bb.inst, base, order, addrs, k, trigger);
        let ghost edit = choice_view(choice);
        let ghost cur = b@.inst;
        let ghost next = vregs.next as int;
        proof {
            decision_grows_before(insts, base as int, order@, ai, k as int, trigger as int);
            if let Edit::Grow(c) = edit {
                assert(cur[c] == insts[c] || cur[c] == grown_chain(insts[c]));
            }
            edited_progresses(cur, k as int, edit, next);
            edited_keeps_alike(insts, cur, k as int, edit, next);
            if let Some((c, n2)) = edited(cur, k as int, edit, next) {
                edited_below_progresses(
                    insts,
                    c,
                    base as int,
                    order@,
                    ai,
                    trigger as int,
                    k as int,
                    n2,
                );
            }
            assert(b.inst@.len() == b@.inst.len());
        }
        match apply_edit(&mut b, k, choice, vregs) {
            Ok(c) => {
                changed = changed || c;
            },
            Err(e) => {
                return Err(e);
            },
        }
    }
    Ok((b, changed))
}

/// Widening takes registers or widens chains, unless it leaves everything as it
/// was; and it keeps which blocks there are.
pub proof fn blocks_progress(
    bbs: Seq<BBView>,
    order: Seq<Block>,
    addrs: Seq<int>,
    v: int,
    next: int,
)
    requires
        0 <= v <= bbs.len(),
    ensures
        blocks_widened(bbs, order, addrs, v, next) matches Some((r, n)) ==> {
            &&& n >= next
            &&& r.len() == bbs.len() - v
            &&& forall|i: int|
                0 <= i < r.len() ==> (#[trigger] r[i]).vcode_bb == bbs[v + i].vcode_bb
            &&& r == bbs.skip(v) ==> n == next
            &&& n == next ==> all_small_chains(r, r.len() as int) + all_small_chains(bbs, v)
                <= all_small_chains(bbs, bbs.len() as int)
            &&& n == next && r != bbs.skip(v) ==> all_small_chains(r, r.len() as int)
                + all_small_chains(bbs, v) < all_small_chains(bbs, bbs.len() as int)
        },
    decreases bbs.len() - v,
{
    if v < bbs.len() {
        block_progresses(bbs[v], order, addrs, next);
        if let Some((b, n)) = block_widened(bbs[v], order, addrs, next) {
            blocks_progress(bbs, order, addrs, v + 1, n);
            if let Some((rest, m)) = blocks_widened(bbs, order, addrs, v + 1, n) {
                let r = seq![b] + rest;
                assert forall|i: int| 0 <= i < r.len() implies (#[trigger] r[i]).vcode_bb == bbs[v
                    + i].vcode_bb by {
                    if i > 0 {
                        assert(r[i] == rest[i - 1]);
                        assert(bbs[(v + 1) + (i - 1)] == bbs[v + i]);
                    }
                }
                all_small_cons(b, rest, rest.len() as int);
                if r == bbs.skip(v) {
                    assert(r[0] == bbs[v]);
                    assert(rest =~= r.skip(1));
                    assert(bbs.skip(v).skip(1) =~= bbs.skip(v + 1));
                }
                if m == next && r != bbs.skip(v) {
                    if b.inst == bbs[v].inst {
                        assert(b == bbs[v]);
                        if rest == bbs.skip(v + 1) {
                            assert(r =~= bbs.skip(v));
                        }
                    }
                }
            }
        }
    } else {
        assert(bbs.skip(v) =~= Seq::<BBView>::empty());
    }
}

/// The chains of a list of blocks are those of its first and of the others.
pub proof fn all_small_cons(b: BBView, rest: Seq<BBView>, k: int)
    requires
        0 <= k <= rest.len(),
    ensures
        all_small_chains(seq![b] + rest, k + 1) == small_chains(b.inst) + all_small_chains(rest, k),
    decreases k,
{
    let r = seq![b] + rest;
    if k > 0 {
        all_small_cons(b, rest, k - 1);
        assert(r[k] == rest[k - 1]);
    } else {
        reveal_with_fuel(all_small_chains, 2);
        assert(r[0] == b);
    }
}

proof fn start_of_part(bbs: Seq<BBView>, layout: Seq<usize>, p: int, n: int)
    requires
        0 <= p <= n <= layout.len(),
        forall|q: int|
            0 <= q < n ==> all_emittable(
                bbs[(#[trigger] layout[q]) as int].inst,
                0,
                bbs[layout[q] as int].inst.len() as int,
            ),
    ensures
        0 <= start_of(bbs, layout, p) <= start_of(bbs, layout, n),
    decreases n,
{
    if n > 0 {
        let insts = bbs[layout[n - 1] as int].inst;
        emitted_span_bounds(insts, 0, 0, insts.len() as int);
        if p < n {
            start_of_part(bbs, layout, p, n - 1);
        } else {
            start_of_part(bbs, layout, n - 1, n - 1);
        }
    }
}

/// Finds where the blocks of a layout start.
fn find_starts(cfg: &VCodeCFG, layout: &Vec<usize>) -> (r: Result<Vec<u32>, CodegenError>)
    requires
        forall|k: int| 0 <= k < layout@.len() ==> #[trigger] layout@[k] < cfg.blocks@.len(),
    ensures
        match r {
            Ok(addrs) => starts(cfg.bbs(), layout@) == Some(addr_ints(addrs@)),
            Err(e) => {
                &&& starts(cfg.bbs(), layout@) is None
                &&& e == (if blocks_emittable(cfg.bbs(), layout@) {
                    CodegenError::CodeTooLarge
                } else {
                    CodegenError::Malformed
                })
            },
        },
{
    let ghost bbs = cfg.bbs();
    let ghost l = layout@;
    for p in 0..layout.len()
        invariant
            bbs == cfg.bbs(),
            l == layout@,
            forall|k: int| 0 <= k < l.len() ==> #[trigger] l[k] < cfg.blocks@.len(),
            forall|q: int|
                0 <= q < p ==> all_emittable(
                    bbs[(#[trigger] l[q]) as int].inst,
                    0,
                    bbs[l[q] as int].inst.len() as int,
                ),
    {
        let v: usize = layout[p];
        assert(bbs[v as int].inst == views(cfg.blocks@[v as int].inst@));
        if !check_emittable(&cfg.blocks[v].inst) {
            assert(!all_emittable(
                bbs[l[p as int] as int].inst,
                0,
                bbs[l[p as int] as int].inst.len() as int,
            ));
            return Err(CodegenError::Malformed);
        }
    }
    assert(blocks_emittable(bbs, l));
    let mut addrs: Vec<u32> = Vec::new();
    let mut addr: u32 = 0;
    for p in 0..layout.len()
        invariant
            bbs == cfg.bbs(),
            l == layout@,
            forall|k: int| 0 <= k < l.len() ==> #[trigger] l[k] < cfg.blocks@.len(),
            addrs@.len() == p,
            addr == start_of(bbs, l, p as int),
            addr <= MAX_CODE,
            forall|q: int| 0 <= q < p ==> #[trigger] addrs@[q] == start_of(bbs, l, q),
            blocks_emittable(bbs, l),
    {
        addrs.push(addr);
        let v: usize = layout[p];
        let ghost insts = bbs[v as int].inst;
        assert(insts == views(cfg.blocks@[v as int].inst@));
        let n: usize = cfg.blocks[v].inst.len();
        match measure_emitted(&cfg.blocks[v].inst, 0, n, MAX_CODE - addr) {
            Some(len) => {
                addr = addr + len;
            },
            None => {
                proof {
                    assert(all_emittable(
                        bbs[l[p as int] as int].inst,
                        0,
                        bbs[l[p as int] as int].inst.len() as int,
                    ));
                    start_of_part(bbs, l, p as int + 1, l.len() as int);
                }
                return Err(CodegenError::CodeTooLarge);
            },
        }
    }
    assert(addr_ints(addrs@) =~= Seq::new(l.len(), |p: int| start_of(bbs, l, p)));
    Ok(addrs)
}

proof fn place_in_layout(bbs: Seq<BBView>, layout: Seq<usize>, m: int, k: int)
    requires
        0 <= k <= m < layout.len(),
        forall|i: int| 0 <= i < layout.len() ==> #[trigger] layout[i] < bbs.len(),
        layout.no_duplicates(),
        crate::cfg::blocks_distinct(bbs),
    ensures
        block_place(laid_out(bbs, layout), bbs[layout[m] as int].vcode_bb, k) == m,
    decreases m - k,
{
    let order = laid_out(bbs, layout);
    if k < m {
        let a = layout[k] as int;
        let b = layout[m] as int;
        assert(a != b);
        if a < b {
            assert(bbs[a].vcode_bb != bbs[b].vcode_bb);
        } else {
            assert(bbs[b].vcode_bb != bbs[a].vcode_bb);
        }
        assert(order[k] != bbs[b].vcode_bb);
        place_in_layout(bbs, layout, m, k + 1);
    } else {
        assert(order[m] == bbs[layout[m] as int].vcode_bb);
    }
}

/// A list without duplicates that is as long as its range has every number.
proof fn layout_has(layout: Seq<usize>, v: int)
    requires
        layout.no_duplicates(),
        forall|i: int| 0 <= i < layout.len() ==> #[trigger] layout[i] < layout.len(),
        0 <= v < layout.len(),
        layout.len() <= usize::MAX,
    ensures
        layout.contains(v as usize),
{
    if !layout.contains(v as usize) {
        let ids = Seq::new(layout.len(), |i: int| layout[i] as int);
        assert(ids.no_duplicates());
        ids.unique_seq_to_set();
        let all = vstd::set_lib::set_int_range(0, layout.len() as int);
        vstd::set_lib::lemma_int_range(0, layout.len() as int);
        let less = all.remove(v);
        assert(ids.to_set().subset_of(less)) by {
            assert forall|c: int| ids.to_set().contains(c) implies less.contains(c) by {
                let i = choose|i: int| 0 <= i < ids.len() && ids[i] == c;
                assert(layout[i] < layout.len());
                assert(layout[i] as int == c);
            }
        }
        vstd::set_lib::lemma_len_subset(ids.to_set(), less);
    }
}

/// Turns every jump issue whose target the short jump's immediate cannot reach
/// into a far issue, which takes its target offset from an operand materialized
/// by a preceding offset chain, and widens the chain of any far issue that has
/// outgrown its width.
///
/// Distances are measured on the block layout with the exact emitted lengths. As
/// widening lengthens the code, which may push other jumps out of range, and the
/// inserted instructions need reference distances of their own, the caller
/// alternates those passes until nothing changes; a jump is only ever widened,
/// never shortened.
///
/// Returns whether anything was changed.
pub fn widen_far_jumps(cfg: VCodeCFG, vregs: &mut VRegAllocator) -> (r: Result<
    (VCodeCFG, bool),
    CodegenError,
>)
    requires
        old(vregs).wf(),
        cfg.wf(),
    ensures
        final(vregs).wf(),
        ({
            let whole = widened(cfg.shape(), old(vregs).next as int);
            match r {
                Ok((c, changed)) => {
                    &&& c.wf()
                    &&& c.graph == cfg.graph
                    &&& c.root == cfg.root
                    &&& whole == Some((c.bbs(), final(vregs).next as int))
                    &&& changed == (c.bbs() != cfg.bbs())
                },
                Err(e) => if code_too_long(cfg.shape()) {
                    whole is None && e is CodeTooLarge
                } else {
                    refused(whole, e, final(vregs).next)
                },
            }
        }),
{
    let ghost bbs = cfg.bbs();
    let (layout, order) = match cfg.block_order() {
        Ok(found) => found,
        Err(e) => {
            return Err(e);
        },
    };
    let addrs = match find_starts(&cfg, &layout) {
        Ok(addrs) => addrs,
        Err(e) => {
            return Err(e);
        },
    };
    let ghost l = layout@;
    let ghost ai = addr_ints(addrs@);
    let n: usize = cfg.blocks.len();
    proof {
        assert(ai.len() == addrs@.len());
        assert forall|p: int| 0 <= p < addrs@.len() implies (#[trigger] addrs@[p]) <= MAX_CODE by {
            start_of_part(bbs, l, p, l.len() as int);
            assert(ai[p] == start_of(bbs, l, p));
        }
    }
    let mut blocks: Vec<VCodeBB> = Vec::new();
    let mut changed: bool = false;
    let ghost whole = blocks_widened(bbs, order@, ai, 0, vregs.next as int);
    assert(bb_views(blocks@) =~= bbs.take(0));
    for v in 0..n
        invariant
            cfg.wf(),
            n == cfg.blocks@.len(),
            vregs.wf(),
            bbs == cfg.bbs(),
            bbs.len() == n,
            l == layout@,
            l.len() == n,
            l.no_duplicates(),
            forall|k: int| 0 <= k < l.len() ==> #[trigger] l[k] < n,
            order@ == laid_out(bbs, l),
            ai == addr_ints(addrs@),
            starts(bbs, l) == Some(ai),
            addrs@.len() == n,
            forall|p: int| 0 <= p < addrs@.len() ==> (#[trigger] addrs@[p]) <= MAX_CODE,
            cfg.shape().layout() == Some(l),
            blocks@.len() == v,
            changed == (bb_views(blocks@) != bbs.take(v as int)),
            whole == blocks_widened(bbs, order@, ai, 0, old(vregs).next as int),
            whole == (match blocks_widened(bbs, order@, ai, v as int, vregs.next as int) {
                None => None,
                Some((rest, m)) => Some((bb_views(blocks@) + rest, m)),
            }),
    {
        broadcast use crate::bb::bb_views_push;

        assert(bbs[v as int] == cfg.blocks@[v as int]@);
        proof {
            layout_has(l, v as int);
            let m = choose|m: int| 0 <= m < l.len() && l[m] == v;
            place_in_layout(bbs, l, m, 0);
            assert(all_emittable(bbs[l[m] as int].inst, 0, bbs[l[m] as int].inst.len() as int));
            start_of_part(bbs, l, m, l.len() as int);
            start_of_part(bbs, l, m + 1, l.len() as int);
            assert(ai[m] == start_of(bbs, l, m));
            assert(addrs@[m] == ai[m]);
            block_progresses(bbs[v as int], order@, ai, vregs.next as int);
            if let Some((b, n2)) = block_widened(bbs[v as int], order@, ai, vregs.next as int) {
                blocks_progress(bbs, order@, ai, v as int + 1, n2);
            }
        }
        match widen_block(&cfg.blocks[v], &order, &addrs, vregs) {
            Err(e) => {
                return Err(e);
            },
            Ok((b, c)) => {
                let ghost before = bb_views(blocks@);
                let ghost bv = b@;
                blocks.push(b);
                proof {
                    let after = bb_views(blocks@);
                    if let Some((rest, m)) = blocks_widened(
                        bbs,
                        order@,
                        ai,
                        v as int + 1,
                        vregs.next as int,
                    ) {
                        assert(before + (seq![bv] + rest) =~= after + rest);
                    }
                    assert(bbs.take(v as int + 1) =~= bbs.take(v as int).push(bbs[v as int]));
                    if c {
                        assert(bv != bbs[v as int]);
                        assert(after[v as int] != bbs.take(v as int + 1)[v as int]);
                    } else {
                        assert(bv == bbs[v as int]);
                        if changed && after == bbs.take(v as int + 1) {
                            assert(before =~= after.drop_last());
                            assert(bbs.take(v as int) =~= bbs.take(v as int + 1).drop_last());
                        }
                    }
                }
                changed = changed || c;
            },
        }
    }
    proof {
        assert(bbs.take(n as int) =~= bbs);
        assert(bb_views(blocks@) + Seq::<BBView>::empty() =~= bb_views(blocks@));
        blocks_progress(bbs, order@, ai, 0, old(vregs).next as int);
    }
    let c = cfg.with_blocks(blocks);
    assert(c.wf()) by {
        let r = c.bbs();
        assert forall|i: int, j: int| 0 <= i < j < r.len() implies (#[trigger] r[i]).vcode_bb != (
        #[trigger] r[j]).vcode_bb by {
            assert(bbs[i].vcode_bb != bbs[j].vcode_bb);
            assert(bbs[0 + i] == bbs[i] && bbs[0 + j] == bbs[j]);
        }
    }
    Ok((c, changed))
}

/// Where applying the edits leaves everything as it was, there were none.
proof fn unchanged_means_kept(
    insts: Seq<MInstView>,
    base: int,
    order: Seq<Block>,
    addrs: Seq<int>,
    trigger: int,
    k: int,
    next: int,
    i: int,
)
    requires
        0 <= i < k <= insts.len(),
        edited_below(insts, insts, base, order, addrs, trigger, k, next) == Some((insts, next)),
    ensures
        decision(insts, base, order, addrs, i, trigger) is Keep,
    decreases k,
{
    let t = k - 1;
    let edit = decision(insts, base, order, addrs, t, trigger);
    decision_grows_before(insts, base, order, addrs, t, trigger);
    edited_progresses(insts, t, edit, next);
    edited_keeps_alike(insts, insts, t, edit, next);
    let (c, n) = edited(insts, t, edit, next)->Some_0;
    edited_below_progresses(insts, c, base, order, addrs, trigger, t, n);
    if let Edit::Grow(g) = edit {
        small_chains_update(insts, g, grown_chain(insts[g]));
        assert(small_chains(c) < small_chains(insts));
    }
    assert(edit is Keep);
    if i < t {
        unchanged_means_kept(insts, base, order, addrs, trigger, t, next, i);
    }
}

/// A block that widening leaves as it was has all its jumps in reach: the offset
/// of every short jump that is no fall-through fits the short form, and that of
/// every far jump fits its offset chain.
pub proof fn settled_jumps_are_in_reach(
    bb: BBView,
    order: Seq<Block>,
    addrs: Seq<int>,
    next: int,
    i: int,
)
    requires
        block_widened(bb, order, addrs, next) == Some((bb, next)),
        0 <= i < bb.inst.len(),
        bb.inst[i] is JumpIssue,
        jump_issues(bb.inst) is Some,
    ensures
        ({
            let dst = bb.inst[i]->JumpIssue_dst;
            let p = block_place(order, block_of(dst), 0);
            let trigger = jump_issues(bb.inst)->Some_0.1 as int;
            let base = addrs[block_place(order, bb.vcode_bb, 0)];
            let offset = offset_of(bb.inst, base, i, trigger, addrs[p]);
            &&& p < order.len()
            &&& !(bb.inst[i]->JumpIssue_kind is Far) ==> offset is None
                || LabelUse::JmpLoc7.reaches(offset->Some_0)
            &&& bb.inst[i]->JumpIssue_kind is Far ==> {
                let c = chain_before(bb.inst, i);
                &&& offset is Some
                &&& c >= 0
                &&& far_use(bb.inst[c]->JumpOffset_size_pow2).reaches(offset->Some_0)
            }
        }),
{
    let trigger = jump_issues(bb.inst)->Some_0.1 as int;
    unchanged_means_kept(
        bb.inst,
        addrs[block_place(order, bb.vcode_bb, 0)],
        order,
        addrs,
        trigger,
        bb.inst.len() as int,
        next,
        i,
    );
}

proof fn edited_keeps_exit(cur: Seq<MInstView>, i: int, edit: Edit, next: int)
    requires
        0 <= i < cur.len(),
        cur.len() + 2 < usize::MAX,
        edit matches Edit::Grow(c) ==> 0 <= c < i && cur[c] is JumpOffset,
    ensures
        edited(cur, i, edit, next) matches Some((c, n)) ==> same_exit(cur, c) && c.len()
            <= cur.len() + 2,
{
    match edit {
        Edit::Grow(c) => {
            plain_update_keeps_exit(cur, c, grown_chain(cur[c]));
        },
        Edit::Widen(offset) => {
            if let Some((far, inserts, n)) = far_form(cur[i], offset, next) {
                let a = cur.update(i, far);
                let b = a.insert(i, inserts.last());
                issue_update_keeps_exit(cur, i, far);
                insertion_keeps_exit(a, i, inserts.last());
                same_exit_trans(cur, a, b);
                if inserts.len() == 1 {
                    assert(spliced(a, i, inserts) =~= b);
                } else {
                    let c = b.insert(i, inserts[0]);
                    insertion_keeps_exit(b, i, inserts[0]);
                    same_exit_trans(cur, b, c);
                    assert(spliced(a, i, inserts) =~= c);
                }
            }
        },
        _ => {},
    }
}

proof fn edited_below_keeps_exit(
    insts: Seq<MInstView>,
    cur: Seq<MInstView>,
    base: int,
    order: Seq<Block>,
    addrs: Seq<int>,
    trigger: int,
    k: int,
    next: int,
)
    requires
        alike_below(insts, cur, k),
        cur.len() + 2 * k < usize::MAX,
    ensures
        edited_below(insts, cur, base, order, addrs, trigger, k, next) matches Some((c, n))
            ==> same_exit(cur, c),
    decreases k,
{
    if k > 0 {
        let i = k - 1;
        let edit = decision(insts, base, order, addrs, i, trigger);
        decision_grows_before(insts, base, order, addrs, i, trigger);
        if let Edit::Grow(c) = edit {
            assert(cur[c] == insts[c] || cur[c] == grown_chain(insts[c]));
        }
        edited_keeps_exit(cur, i, edit, next);
        edited_keeps_alike(insts, cur, i, edit, next);
        if let Some((c, n)) = edited(cur, i, edit, next) {
            edited_below_keeps_exit(insts, c, base, order, addrs, trigger, i, n);
            if let Some((d, m)) = edited_below(insts, c, base, order, addrs, trigger, i, n) {
                same_exit_trans(cur, c, d);
            }
        }
    }
}

proof fn widened_blocks_end_alike(
    bbs: Seq<BBView>,
    order: Seq<Block>,
    addrs: Seq<int>,
    v: int,
    next: int,
    w: int,
)
    requires
        0 <= v <= w < bbs.len(),
        blocks_widened(bbs, order, addrs, v, next) is Some,
        3 * bbs[w].inst.len() < usize::MAX,
    ensures
        ({
            let after = blocks_widened(bbs, order, addrs, v, next)->Some_0.0;
            &&& after.len() == bbs.len() - v
            &&& after[w - v].vcode_bb == bbs[w].vcode_bb
            &&& same_exit(bbs[w].inst, after[w - v].inst)
        }),
    decreases w - v,
{
    let (b, n) = block_widened(bbs[v], order, addrs, next)->Some_0;
    widened_count(bbs, order, addrs, v, next);
    if v < w {
        widened_blocks_end_alike(bbs, order, addrs, v + 1, n, w);
    } else if let Some((_, trigger)) = jump_issues(bbs[v].inst) {
        edited_below_keeps_exit(
            bbs[v].inst,
            bbs[v].inst,
            addrs[block_place(order, bbs[v].vcode_bb, 0)],
            order,
            addrs,
            trigger as int,
            bbs[v].inst.len() as int,
            next,
        );
    }
}

proof fn widened_count(bbs: Seq<BBView>, order: Seq<Block>, addrs: Seq<int>, v: int, next: int)
    requires
        0 <= v <= bbs.len(),
        blocks_widened(bbs, order, addrs, v, next) is Some,
    ensures
        blocks_widened(bbs, order, addrs, v, next)->Some_0.0.len() == bbs.len() - v,
    decreases bbs.len() - v,
{
    if v < bbs.len() {
        let n = block_widened(bbs[v], order, addrs, next)->Some_0.1;
        widened_count(bbs, order, addrs, v + 1, n);
    }
}

/// Widening the jumps for a layout keeps that layout.
pub proof fn widening_keeps_the_layout(g: Shape, next: int)
    requires
        g.wf(),
        widened(g, next) is Some,
        forall|v: int| 0 <= v < g.bbs.len() ==> 3 * (#[trigger] g.bbs[v]).inst.len() < usize::MAX,
    ensures
        (Shape { bbs: widened(g, next)->Some_0.0, ..g }).layout() == g.layout(),
{
    let layout = g.layout()->Some_0;
    let order = laid_out(g.bbs, layout);
    let addrs = starts(g.bbs, layout)->Some_0;
    let h = Shape { bbs: widened(g, next)->Some_0.0, ..g };
    widened_count(g.bbs, order, addrs, 0, next);
    assert forall|v: int| 0 <= v < g.bbs.len() implies {
        &&& (#[trigger] g.bbs[v]).vcode_bb == h.bbs[v].vcode_bb
        &&& same_exit(g.bbs[v].inst, h.bbs[v].inst)
    } by {
        widened_blocks_end_alike(g.bbs, order, addrs, 0, next, v);
    }
    layout_depends_on_exits_alone(g, h);
}

} // verus!
