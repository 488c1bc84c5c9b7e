//! Returns, triggers and labels.
use crate::bb::{last_below_is_greatest, BBView};
use crate::cfg::{all_rewritten, rewritten_from, rewritten_keeps_blocks, BlockPass};
use crate::emission::{built_from, corrected, corrected_from, new_number};
use crate::inst::{MInstOf, MInstView};
use crate::issues::{
    issue_is_listed, issue_positions, jump_issues, trigger_positions,
};
use crate::label::LabelUse;
use crate::passes::rets::{last_rets, IssueRets};
use crate::passes::triggers::{
    chained, chained_from, emitted_span, emitted_span_bounds, next_far, offsets_set, triggered, triggered_from,
};
use vstd::arithmetic::power2::pow2;
use vstd::prelude::*;

verus! {

proof fn issued_block(bbs: Seq<BBView>, v: int, next: int, w: int)
    requires
        0 <= v <= w < bbs.len(),
        rewritten_from(IssueRets, bbs, v, next) is Some,
    ensures
        rewritten_from(IssueRets, bbs, v, next)->Some_0.0.len() == bbs.len() - v,
        rewritten_from(IssueRets, bbs, v, next)->Some_0.0[w - v] == IssueRets.rewritten(
            w,
            bbs[w],
            0,
        )->Some_0.0,
    decreases bbs.len() - v,
{
    rewritten_keeps_blocks(IssueRets, bbs, v, next);
    let (b, n) = IssueRets.rewritten(v, bbs[v], next)->Some_0;
    let rest = rewritten_from(IssueRets, bbs, v + 1, n)->Some_0.0;
    if w > v {
        issued_block(bbs, v + 1, n, w);
        assert((seq![b] + rest)[w - v] == rest[w - (v + 1)]);
    }
}

/// Every block that returns issues its return directly before the last list of
/// return values; a block that does not return stays as it is.
pub proof fn returns_are_issued_before_their_values(bbs: Seq<BBView>, next: int, v: int, at: int)
    requires
        0 <= v < bbs.len(),
        all_rewritten(IssueRets, bbs, next) is Some,
    ensures
        ({
            let after = all_rewritten(IssueRets, bbs, next)->Some_0.0;
            let before = bbs[v].inst;
            &&& after.len() == bbs.len()
            &&& after[v] == (BBView { inst: after[v].inst, ..bbs[v] })
            &&& 0 <= at < before.len() && before[at] is Rets && (forall|k: int|
                at < k < before.len() ==> !(#[trigger] before[k] is Rets)) ==> after[v].inst
                == before.take(at) + seq![MInstOf::Ret { trig: 0 }] + before.skip(at)
            &&& (forall|k: int| 0 <= k < before.len() ==> !(#[trigger] before[k] is Rets))
                ==> after[v].inst == before
        }),
{
    issued_block(bbs, 0, next, v);
    let before = bbs[v].inst;
    let p = |i: int| before[i] is Rets;
    last_below_is_greatest(p, before.len() as int);
    let l = last_rets(before);
    if 0 <= at < before.len() && before[at] is Rets && (forall|k: int|
        at < k < before.len() ==> !(#[trigger] before[k] is Rets)) {
        assert(p(at));
        assert(l == at) by {
            if l > at {
                assert(p(l));
                assert(before[l] is Rets);
            }
        }
        let ret: MInstView = MInstOf::Ret { trig: 0 };
        assert(before.insert(at, ret) =~= before.take(at) + seq![ret] + before.skip(at));
    }
    if forall|k: int| 0 <= k < before.len() ==> !(#[trigger] before[k] is Rets) {
        if l >= 0 {
            assert(p(l));
            assert(before[l] is Rets);
        }
    }
}

/// How many machine instructions the instructions from position `i` on and before
/// `j` emit.
pub open spec fn length_between(insts: Seq<MInstView>, i: int, j: int) -> int
    decreases j - i,
{
    if i >= j {
        0
    } else {
        length_between(insts, i, j - 1) + insts[j - 1].spec_emitted_length()
    }
}

/// The two ways to add up the lengths agree.
pub proof fn span_is_length(insts: Seq<MInstView>, i: int, j: int)
    ensures
        emitted_span(insts, i, j) == length_between(insts, i, j),
    decreases j - i,
{
    if i < j {
        span_is_length(insts, i, j - 1);
        span_appends(insts, i, j);
    }
}

proof fn span_appends(insts: Seq<MInstView>, i: int, j: int)
    requires
        i < j,
    ensures
        emitted_span(insts, i, j) == emitted_span(insts, i, j - 1) + insts[j
            - 1].spec_emitted_length(),
    decreases j - i,
{
    if i + 1 < j {
        span_appends(insts, i + 1, j);
    } else {
        assert(emitted_span(insts, i + 1, j) == 0);
        assert(emitted_span(insts, i, j - 1) == 0);
    }
}

proof fn triggered_at(insts: Seq<MInstView>, trigger: int, i: int, k: int)
    requires
        0 <= i <= insts.len(),
        triggered_from(insts, trigger, i) is Some,
    ensures
        triggered_from(insts, trigger, i)->Some_0.len() == insts.len() - i,
        i <= k < insts.len() ==> triggered(insts, k, trigger) == Some(
            triggered_from(insts, trigger, i)->Some_0[k - i],
        ),
    decreases insts.len() - i,
{
    if i < insts.len() {
        triggered_at(insts, trigger, i + 1, k);
        let first = triggered(insts, i, trigger)->Some_0;
        let rest = triggered_from(insts, trigger, i + 1)->Some_0;
        if i < k < insts.len() {
            assert((seq![first] + rest)[k - i] == rest[k - (i + 1)]);
        }
    }
}

proof fn chained_at(insts: Seq<MInstView>, i: int, k: int)
    requires
        0 <= i <= insts.len(),
        chained_from(insts, i) is Some,
    ensures
        chained_from(insts, i)->Some_0.len() == insts.len() - i,
        i <= k < insts.len() ==> chained(insts, k) == Some(chained_from(insts, i)->Some_0[k - i]),
    decreases insts.len() - i,
{
    if i < insts.len() {
        chained_at(insts, i + 1, k);
        let first = chained(insts, i)->Some_0;
        let rest = chained_from(insts, i + 1)->Some_0;
        if i < k < insts.len() {
            assert((seq![first] + rest)[k - i] == rest[k - (i + 1)]);
        }
    }
}

proof fn length_depends_on_lengths(a: Seq<MInstView>, b: Seq<MInstView>, i: int, j: int)
    requires
        forall|k: int|
            i <= k < j ==> (#[trigger] a[k]).spec_emitted_length() == b[k].spec_emitted_length(),
    ensures
        length_between(a, i, j) == length_between(b, i, j),
    decreases j - i,
{
    if i < j {
        length_depends_on_lengths(a, b, i, j - 1);
        assert(a[j - 1].spec_emitted_length() == b[j - 1].spec_emitted_length());
    }
}

proof fn trigger_is_contained(insts: Seq<MInstView>, i: int)
    requires
        0 <= i < insts.len(),
        insts[i].is_trigger(),
        insts.len() <= usize::MAX,
    ensures
        trigger_positions(insts).contains(i as usize),
    decreases insts.len(),
{
    let init = insts.drop_last();
    if i < insts.len() - 1 {
        trigger_is_contained(init, i);
        let k = choose|k: int|
            0 <= k < trigger_positions(init).len() && trigger_positions(init)[k] == i as usize;
        assert(trigger_positions(insts)[k] == i as usize);
    } else {
        assert(trigger_positions(insts)[trigger_positions(insts).len() - 1] == i as usize);
    }
}

/// Whether an instruction issues a jump that takes its offset from an operand.
pub open spec fn issues_far(inst: MInstView) -> bool {
    inst is JumpIssue && inst->JumpIssue_kind is Far
}

proof fn next_far_is(insts: Seq<MInstView>, i: int, f: int)
    requires
        0 <= i <= f < insts.len(),
        issues_far(insts[f]),
        forall|k: int| i <= k < f ==> !issues_far(#[trigger] insts[k]),
    ensures
        next_far(insts, i) == f,
    decreases f - i,
{
    if i < f {
        assert(!issues_far(insts[i]));
        next_far_is(insts, i + 1, f);
    }
}

proof fn next_far_found(insts: Seq<MInstView>, i: int)
    requires
        0 <= i <= insts.len(),
    ensures
        i <= next_far(insts, i) <= insts.len(),
        next_far(insts, i) < insts.len() ==> issues_far(insts[next_far(insts, i)]),
        forall|k: int| i <= k < next_far(insts, i) ==> !issues_far(#[trigger] insts[k]),
    decreases insts.len() - i,
{
    if i < insts.len() && !issues_far(insts[i]) {
        next_far_found(insts, i + 1);
    }
}

/// Setting the offsets of a block changes nothing but the offsets.
pub proof fn setting_offsets_keeps_instructions(insts: Seq<MInstView>, j: int)
    requires
        offsets_set(insts) is Some,
        0 <= j < insts.len(),
    ensures
        ({
            let now = offsets_set(insts)->Some_0;
            &&& now.len() == insts.len()
            &&& !(insts[j] is JumpIssue) && !(insts[j] is JumpOffset) ==> now[j] == insts[j]
            &&& insts[j] matches MInstOf::JumpIssue { link, dst, kind, .. } ==> {
                &&& now[j] is JumpIssue
                &&& now[j]->JumpIssue_link == link
                &&& now[j]->JumpIssue_dst == dst
                &&& now[j]->JumpIssue_kind == kind
            }
            &&& insts[j] matches MInstOf::JumpOffset { rd, dst, size_pow2, .. } ==> {
                &&& now[j] is JumpOffset
                &&& now[j]->JumpOffset_rd == rd
                &&& now[j]->JumpOffset_dst == dst
                &&& now[j]->JumpOffset_size_pow2 == size_pow2
            }
            &&& now[j].spec_emitted_length() == insts[j].spec_emitted_length()
        }),
{
    if let Some((_, trigger)) = jump_issues(insts) {
        let t = triggered_from(insts, trigger as int, 0)->Some_0;
        triggered_at(insts, trigger as int, 0, j);
        chained_at(t, 0, j);
    }
}

/// The trigger offset of a jump is the number of machine instructions between
/// its issue and the block's trigger, which stands behind it.
pub proof fn trigger_offsets_count_instructions(insts: Seq<MInstView>, j: int, t: int)
    requires
        offsets_set(insts) is Some,
        insts.len() <= usize::MAX,
        0 <= j < insts.len(),
        0 <= t < insts.len(),
        insts[j] is JumpIssue,
        insts[t] is JumpTrigger,
    ensures
        ({
            let now = offsets_set(insts)->Some_0;
            &&& j < t
            &&& now[j]->JumpIssue_trig == length_between(now, j + 1, t)
            &&& now[j]->JumpIssue_trig < 64
        }),
{
    trigger_is_contained(insts, t);
    issue_is_listed(insts, j);
    let k = choose|k: int|
        0 <= k < issue_positions(insts).len() && issue_positions(insts)[k] == j as usize;
    assert(issue_positions(insts)[k] <= trigger_positions(insts)[0]);
    let now = offsets_set(insts)->Some_0;
    let trigger = trigger_positions(insts)[0] as int;
    assert(trigger == t);
    let mid = triggered_from(insts, trigger, 0)->Some_0;
    triggered_at(insts, trigger, 0, j);
    chained_at(mid, 0, j);
    assert forall|k: int| j + 1 <= k < t implies (#[trigger] now[k]).spec_emitted_length()
        == insts[k].spec_emitted_length() by {
        setting_offsets_keeps_instructions(insts, k);
    }
    length_depends_on_lengths(now, insts, j + 1, t);
    span_is_length(insts, j + 1, t);
    emitted_span_bounds(insts, j + 1, t, t);
}

/// The gap of an offset chain is the number of machine instructions between it
/// and its jump, the first far issue behind it, and it carries that jump's trigger
/// offset.
pub proof fn chain_gaps_count_instructions(insts: Seq<MInstView>, j: int)
    requires
        offsets_set(insts) is Some,
        insts.len() <= usize::MAX,
        0 <= j < insts.len(),
        insts[j] is JumpOffset,
        exists|t: int| 0 <= t < insts.len() && #[trigger] insts[t] is JumpTrigger,
    ensures
        ({
            let now = offsets_set(insts)->Some_0;
            exists|f: int|
                {
                    &&& j < f < now.len()
                    &&& issues_far(#[trigger] now[f])
                    &&& forall|k: int| j < k < f ==> !issues_far(#[trigger] now[k])
                    &&& now[j]->JumpOffset_gap == length_between(now, j + 1, f)
                    &&& now[j]->JumpOffset_trig == now[f]->JumpIssue_trig
                }
        }),
{
    let t = choose|t: int| 0 <= t < insts.len() && #[trigger] insts[t] is JumpTrigger;
    trigger_is_contained(insts, t);
    let now = offsets_set(insts)->Some_0;
    let trigger = trigger_positions(insts)[0] as int;
    let mid = triggered_from(insts, trigger, 0)->Some_0;
    triggered_at(insts, trigger, 0, j);
    chained_at(mid, 0, j);
    let f = next_far(mid, j + 1);
    next_far_found(mid, j + 1);
    setting_offsets_keeps_instructions(insts, j);
    triggered_at(insts, trigger, 0, f);
    chained_at(mid, 0, f);
    assert(now[f] == mid[f]);
    assert forall|k: int| j < k < f implies !issues_far(#[trigger] now[k]) by {
        triggered_at(insts, trigger, 0, k);
        chained_at(mid, 0, k);
        assert(!issues_far(mid[k]));
    }
    assert forall|k: int| j + 1 <= k < f implies (#[trigger] now[k]).spec_emitted_length()
        == mid[k].spec_emitted_length() by {
        chained_at(mid, 0, k);
    }
    length_depends_on_lengths(now, mid, j + 1, f);
    span_is_length(mid, j + 1, f);
    emitted_span_bounds(mid, j + 1, f, f);
    assert(issues_far(now[f]));
}

proof fn new_number_is(bbs: Seq<BBView>, layout: Seq<usize>, number: u32, k: int)
    requires
        0 <= k <= layout.len(),
    ensures
        k <= new_number(bbs, layout, number, k) <= layout.len(),
        new_number(bbs, layout, number, k) < layout.len() ==> bbs[layout[new_number(
            bbs,
            layout,
            number,
            k,
        )] as int].vcode_bb.index == number,
    decreases layout.len() - k,
{
    if k < layout.len() && bbs[layout[k] as int].vcode_bb.index != number {
        new_number_is(bbs, layout, number, k + 1);
    }
}

proof fn corrected_at(
    bbs: Seq<BBView>,
    layout: Seq<usize>,
    insts: Seq<MInstView>,
    i: int,
    k: int,
)
    requires
        0 <= i <= insts.len(),
        corrected_from(bbs, layout, insts, i) is Some,
    ensures
        corrected_from(bbs, layout, insts, i)->Some_0.len() == insts.len() - i,
        i <= k < insts.len() ==> corrected(bbs, layout, insts[k]) == Some(
            corrected_from(bbs, layout, insts, i)->Some_0[k - i],
        ),
    decreases insts.len() - i,
{
    if i < insts.len() {
        corrected_at(bbs, layout, insts, i + 1, k);
        let first = corrected(bbs, layout, insts[i])->Some_0;
        let rest = corrected_from(bbs, layout, insts, i + 1)->Some_0;
        if i < k < insts.len() {
            assert((seq![first] + rest)[k - i] == rest[k - (i + 1)]);
        }
    }
}

proof fn built_at(bbs: Seq<BBView>, layout: Seq<usize>, p: int, q: int)
    requires
        0 <= p <= layout.len(),
        built_from(bbs, layout, p) is Some,
    ensures
        built_from(bbs, layout, p)->Some_0.len() == layout.len() - p,
        p <= q < layout.len() ==> corrected_from(bbs, layout, bbs[layout[q] as int].inst, 0) == Some(
            built_from(bbs, layout, p)->Some_0[q - p],
        ),
    decreases layout.len() - p,
{
    if p < layout.len() {
        built_at(bbs, layout, p + 1, q);
        let first = corrected_from(bbs, layout, bbs[layout[p] as int].inst, 0)->Some_0;
        let rest = built_from(bbs, layout, p + 1)->Some_0;
        if p < q < layout.len() {
            assert((seq![first] + rest)[q - p] == rest[q - (p + 1)]);
        }
    }
}

/// Whether a label names the place of the block that another label named by its
/// number.
pub open spec fn names_place(bbs: Seq<BBView>, layout: Seq<usize>, old_index: u32, place: u32) -> bool {
    place < layout.len() && bbs[layout[place as int] as int].vcode_bb.index == old_index
}

/// In the final code the blocks stand in the order of the layout, with all their
/// instructions in order; the label of a jump is the place of its target's block,
/// and nothing else changes.
pub proof fn labels_name_the_places_of_blocks(bbs: Seq<BBView>, layout: Seq<usize>, p: int, j: int)
    requires
        built_from(bbs, layout, 0) is Some,
        0 <= p < layout.len(),
    ensures
        ({
            let built = built_from(bbs, layout, 0)->Some_0;
            let before = bbs[layout[p] as int].inst;
            &&& built.len() == layout.len()
            &&& built[p].len() == before.len()
            &&& 0 <= j < before.len() ==> match before[j] {
                MInstOf::JumpIssue { link, dst, kind, trig } => built[p][j] matches MInstOf::JumpIssue {
                    link: l,
                    dst: d,
                    kind: k,
                    trig: t,
                } && l == link && k == kind && t == trig && names_place(
                    bbs,
                    layout,
                    dst.index,
                    d.index,
                ),
                MInstOf::JumpOffset {
                    rd,
                    dst,
                    size_pow2,
                    gap,
                    trig,
                } => built[p][j] matches MInstOf::JumpOffset {
                    rd: r,
                    dst: d,
                    size_pow2: s,
                    gap: g,
                    trig: t,
                } && r == rd && s == size_pow2 && g == gap && t == trig && names_place(
                    bbs,
                    layout,
                    dst.index,
                    d.index,
                ),
                _ => built[p][j] == before[j],
            }
        }),
{
    built_at(bbs, layout, 0, p);
    let before = bbs[layout[p] as int].inst;
    corrected_at(bbs, layout, before, 0, j);
    if 0 <= j < before.len() {
        match before[j] {
            MInstOf::JumpIssue { dst, .. } => {
                new_number_is(bbs, layout, dst.index, 0);
            },
            MInstOf::JumpOffset { dst, .. } => {
                new_number_is(bbs, layout, dst.index, 0);
            },
            _ => {},
        }
    }
}

/// A short jump reaches what seven bits with a sign hold, and a far jump what its
/// offset's bytes hold.
pub proof fn reaches_are_what_the_bits_hold(offset: int, size_pow2: u16, gap: u16, trig: u16)
    ensures
        LabelUse::JmpLoc7.reaches(offset) <==> -pow2(6) <= offset < pow2(6),
        size_pow2 == 0 ==> ((LabelUse::JmpFar { size_pow2, gap, trig }).reaches(offset) <==> -pow2(7)
            <= offset < pow2(7)),
        size_pow2 == 1 ==> ((LabelUse::JmpFar { size_pow2, gap, trig }).reaches(offset) <==> -pow2(
            15,
        ) <= offset < pow2(15)),
        size_pow2 == 2 ==> ((LabelUse::JmpFar { size_pow2, gap, trig }).reaches(offset) <==> -pow2(
            31,
        ) <= offset < pow2(31)),
{
    vstd::arithmetic::power2::lemma2_to64();
}

} // verus!
