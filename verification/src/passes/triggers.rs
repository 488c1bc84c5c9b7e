//! The offsets between jump issues and their triggers.
use crate::bb::{BBView, VCodeBB};
use crate::cfg::{all_rewritten, run_pass, BlockPass, VCodeCFG};
use crate::inst::{views, IssueKind, MInst, MInstOf, MInstView};
use crate::issues::{find_jmp_issues, jump_issues, jumps_wf};
use crate::isatype::IsaType;
use crate::length::emitted_length_bounds;
use crate::pass::refused;
use crate::reg::{CodegenError, VRegAllocator};
use vstd::prelude::*;

verus! {

broadcast use crate::inst::views_update;

/// How many machine instructions are emitted from position `i` to position `j`.
pub open spec fn emitted_span(insts: Seq<MInstView>, i: int, j: int) -> int
    decreases j - i,
{
    if i >= j {
        0
    } else {
        insts[i].spec_emitted_length() + emitted_span(insts, i + 1, j)
    }
}

/// Whether all instructions from position `i` to position `j` can be emitted.
pub open spec fn all_emittable(insts: Seq<MInstView>, i: int, j: int) -> bool {
    forall|k: int| i <= k < j ==> (#[trigger] insts[k]).emittable()
}

/// The largest trigger offset.
pub const MAX_TRIGGER: u16 = 63;

/// The instruction at `i` with its offset to the trigger.
pub open spec fn triggered(insts: Seq<MInstView>, i: int, trigger: int) -> Option<MInstView> {
    match insts[i] {
        MInstOf::JumpIssue { link, dst, kind, .. } => {
            let offset = emitted_span(insts, i + 1, trigger);
            if !all_emittable(insts, i + 1, trigger) || offset > MAX_TRIGGER {
                None
            } else {
                Some(MInstOf::JumpIssue { link, dst, kind, trig: offset as u16 })
            }
        },
        _ => Some(insts[i]),
    }
}

/// The instructions, those from `i` on with their offsets to the trigger.
pub open spec fn triggered_from(insts: Seq<MInstView>, trigger: int, i: int) -> Option<
    Seq<MInstView>,
>
    decreases insts.len() - i,
{
    if i >= insts.len() {
        Some(Seq::empty())
    } else {
        match (triggered(insts, i, trigger), triggered_from(insts, trigger, i + 1)) {
            (Some(first), Some(rest)) => Some(seq![first] + rest),
            _ => None,
        }
    }
}

/// Whether the instruction is a far jump issue.
pub open spec fn is_far(inst: MInstView) -> bool {
    inst matches MInstOf::JumpIssue { kind: IssueKind::Far { .. }, .. }
}

/// The first far jump issue from `i` on.
pub open spec fn next_far(insts: Seq<MInstView>, i: int) -> int
    decreases insts.len() - i,
{
    if i >= insts.len() || is_far(insts[i]) {
        i
    } else {
        next_far(insts, i + 1)
    }
}

/// The offset chain at `i` with its distance to its jump, the first far issue
/// behind it, and with that issue's trigger offset.
pub open spec fn chained(insts: Seq<MInstView>, i: int) -> Option<MInstView> {
    match insts[i] {
        MInstOf::JumpOffset { rd, dst, size_pow2, .. } => {
            let issue = next_far(insts, i + 1);
            let gap = emitted_span(insts, i + 1, issue);
            if issue >= insts.len() || !all_emittable(insts, i + 1, issue) || gap > u16::MAX {
                None
            } else {
                Some(
                    MInstOf::JumpOffset {
                        rd,
                        dst,
                        size_pow2,
                        gap: gap as u16,
                        trig: insts[issue]->JumpIssue_trig,
                    },
                )
            }
        },
        _ => Some(insts[i]),
    }
}

/// The instructions, the offset chains from `i` on being filled in.
pub open spec fn chained_from(insts: Seq<MInstView>, i: int) -> Option<Seq<MInstView>>
    decreases insts.len() - i,
{
    if i >= insts.len() {
        Some(Seq::empty())
    } else {
        match (chained(insts, i), chained_from(insts, i + 1)) {
            (Some(first), Some(rest)) => Some(seq![first] + rest),
            _ => None,
        }
    }
}

/// A block's instructions with all offsets filled in.
pub open spec fn offsets_set(insts: Seq<MInstView>) -> Option<Seq<MInstView>> {
    if !jumps_wf(insts) {
        None
    } else {
        match jump_issues(insts) {
            None => Some(insts),
            Some((_, trigger)) => match triggered_from(insts, trigger as int, 0) {
                Some(t) => chained_from(t, 0),
                None => None,
            },
        }
    }
}

/// Spans of instructions that can be emitted are not negative, and grow.
pub proof fn emitted_span_bounds(insts: Seq<MInstView>, i: int, j: int, n: int)
    requires
        i <= j <= n,
        all_emittable(insts, i, n),
    ensures
        0 <= emitted_span(insts, i, j) <= emitted_span(insts, i, n),
        emitted_span(insts, i, n) == emitted_span(insts, i, j) + emitted_span(insts, j, n),
        0 <= emitted_span(insts, j, n),
    decreases n - i,
{
    if i < n {
        assert(insts[i].emittable());
        emitted_length_bounds(insts[i]);
        if i < j {
            emitted_span_bounds(insts, i + 1, j, n);
        } else {
            emitted_span_bounds(insts, i + 1, i + 1, n);
        }
    }
}

/// Whether an instruction can be emitted.
pub fn can_emit(inst: &MInst) -> (r: bool)
    ensures
        r == inst@.emittable(),
{
    match inst {
        MInst::ImmJump { .. }
        | MInst::IntCmp { .. }
        | MInst::BinaryAlu { .. }
        | MInst::DoubleAlu { .. }
        | MInst::Resize { .. }
        | MInst::StoreStackArg { .. } => false,
        MInst::Const { ty, .. } => match ty {
            IsaType::Known(t) => t.size_pow2() <= 3,
            _ => true,
        },
        MInst::JumpOffset { size_pow2, .. } => *size_pow2 <= 3,
        _ => true,
    }
}

/// Whether all instructions can be emitted.
pub fn check_emittable(insts: &Vec<MInst>) -> (r: bool)
    ensures
        r == all_emittable(views(insts@), 0, insts@.len() as int),
{
    let ghost all = views(insts@);
    for i in 0..insts.len()
        invariant
            all == views(insts@),
            forall|k: int| 0 <= k < i ==> (#[trigger] all[k]).emittable(),
    {
        assert(all[i as int] == insts@[i as int]@);
        if !can_emit(&insts[i]) {
            assert(!all[i as int].emittable());
            return false;
        }
    }
    true
}

/// How many machine instructions are emitted from position `i` to position `j`,
/// where they can be emitted and are at most `max`.
pub fn measure_emitted(insts: &Vec<MInst>, i: usize, j: usize, max: u32) -> (r: Option<u32>)
    requires
        i <= j <= insts@.len(),
    ensures
        match r {
            Some(n) => all_emittable(views(insts@), i as int, j as int) && n == emitted_span(
                views(insts@),
                i as int,
                j as int,
            ) && n <= max,
            None => !all_emittable(views(insts@), i as int, j as int) || emitted_span(
                views(insts@),
                i as int,
                j as int,
            ) > max,
        },
{
    let ghost all = views(insts@);
    let mut total: u32 = 0;
    let mut k: usize = j;
    while k > i
        invariant
            i <= k <= j <= insts@.len(),
            all == views(insts@),
            total <= max,
            all_emittable(all, k as int, j as int),
            total == emitted_span(all, k as int, j as int),
        decreases k,
    {
        k = k - 1;
        assert(all[k as int] == insts@[k as int]@);
        if !can_emit(&insts[k]) {
            assert(!all[k as int].emittable());
            return None;
        }
        let len: usize = insts[k].emitted_length();
        if len > (max - total) as usize {
            proof {
                if all_emittable(all, i as int, j as int) {
                    emitted_span_bounds(all, i as int, k as int, j as int);
                }
            }
            return None;
        }
        total = total + len as u32;
    }
    Some(total)
}

fn set_issue(insts: &Vec<MInst>, i: usize, trigger: usize) -> (r: Option<MInst>)
    requires
        i < insts@.len(),
        trigger < insts@.len(),
        insts@[i as int]@ is JumpIssue ==> i < trigger,
    ensures
        match r {
            Some(done) => triggered(views(insts@), i as int, trigger as int) == Some(done@),
            None => triggered(views(insts@), i as int, trigger as int) is None,
        },
{
    let ghost all = views(insts@);
    assert(all[i as int] == insts@[i as int]@);
    match &insts[i] {
        MInst::JumpIssue { link, dst, kind, .. } => match measure_emitted(
            insts,
            i + 1,
            trigger,
            MAX_TRIGGER as u32,
        ) {
            Some(offset) => {
                proof {
                    emitted_span_bounds(all, i + 1, trigger as int, trigger as int);
                }
                Some(MInst::JumpIssue { link: *link, dst: *dst, kind: *kind, trig: offset as u16 })
            },
            None => None,
        },
        other => Some(other.copy()),
    }
}

fn set_issues(insts: &Vec<MInst>, trigger: usize) -> (r: Option<Vec<MInst>>)
    requires
        trigger < insts@.len(),
        forall|i: int| 0 <= i < insts@.len() && (#[trigger] insts@[i])@ is JumpIssue ==> i < trigger,
    ensures
        match r {
            Some(done) => triggered_from(views(insts@), trigger as int, 0) == Some(views(done@)),
            None => triggered_from(views(insts@), trigger as int, 0) is None,
        },
{
    let ghost all = views(insts@);
    let mut r: Vec<MInst> = Vec::new();
    for i in 0..insts.len()
        invariant
            trigger < insts@.len(),
            forall|i: int|
                0 <= i < insts@.len() && (#[trigger] insts@[i])@ is JumpIssue ==> i < trigger,
            all == views(insts@),
            triggered_from(all, trigger as int, 0) == (match triggered_from(
                all,
                trigger as int,
                i as int,
            ) {
                Some(rest) => Some(views(r@) + rest),
                None => None,
            }),
    {
        broadcast use crate::inst::views_push;

        let ghost before = views(r@);
        match set_issue(insts, i, trigger) {
            Some(done) => {
                r.push(done);
                proof {
                    if let Some(rest) = triggered_from(all, trigger as int, i as int + 1) {
                        assert(before + (seq![done@] + rest) =~= views(r@) + rest);
                    }
                }
            },
            None => {
                return None;
            },
        }
    }
    assert(views(r@) + Seq::<MInstView>::empty() =~= views(r@));
    Some(r)
}

fn set_chain(insts: &Vec<MInst>, i: usize) -> (r: Option<MInst>)
    requires
        i < insts@.len(),
    ensures
        match r {
            Some(done) => chained(views(insts@), i as int) == Some(done@),
            None => chained(views(insts@), i as int) is None,
        },
{
    let ghost all = views(insts@);
    assert(all[i as int] == insts@[i as int]@);
    match &insts[i] {
        MInst::JumpOffset { rd, dst, size_pow2, .. } => {
            let n: usize = insts.len();
            let mut k: usize = i + 1;
            while k < n
                invariant
                    n == insts@.len(),
                    i < k <= n,
                    i < n,
                    all == views(insts@),
                    all[i as int] == (MInstView::JumpOffset {
                        rd: *rd,
                        dst: *dst,
                        size_pow2: *size_pow2,
                        gap: all[i as int]->JumpOffset_gap,
                        trig: all[i as int]->JumpOffset_trig,
                    }),
                    next_far(all, i + 1) == next_far(all, k as int),
                decreases n - k,
            {
                assert(all[k as int] == insts@[k as int]@);
                match &insts[k] {
                    MInst::JumpIssue { kind, trig, .. } => {
                        match kind {
                            IssueKind::Far { .. } => {
                                return match measure_emitted(insts, i + 1, k, 65535) {
                                    Some(gap) => {
                                        proof {
                                            emitted_span_bounds(all, i + 1, k as int, k as int);
                                        }
                                        Some(
                                            MInst::JumpOffset {
                                                rd: *rd,
                                                dst: *dst,
                                                size_pow2: *size_pow2,
                                                gap: gap as u16,
                                                trig: *trig,
                                            },
                                        )
                                    },
                                    None => None,
                                };
                            },
                            _ => {},
                        }
                    },
                    _ => {},
                }
                k = k + 1;
            }
            None
        },
        other => Some(other.copy()),
    }
}

fn set_chains(insts: &Vec<MInst>) -> (r: Option<Vec<MInst>>)
    ensures
        match r {
            Some(done) => chained_from(views(insts@), 0) == Some(views(done@)),
            None => chained_from(views(insts@), 0) is None,
        },
{
    let ghost all = views(insts@);
    let mut r: Vec<MInst> = Vec::new();
    for i in 0..insts.len()
        invariant
            all == views(insts@),
            chained_from(all, 0) == (match chained_from(all, i as int) {
                Some(rest) => Some(views(r@) + rest),
                None => None,
            }),
    {
        broadcast use crate::inst::views_push;

        let ghost before = views(r@);
        match set_chain(insts, i) {
            Some(done) => {
                r.push(done);
                proof {
                    if let Some(rest) = chained_from(all, i as int + 1) {
                        assert(before + (seq![done@] + rest) =~= views(r@) + rest);
                    }
                }
            },
            None => {
                return None;
            },
        }
    }
    assert(views(r@) + Seq::<MInstView>::empty() =~= views(r@));
    Some(r)
}

/// Fills in the offsets of a block.
pub struct SetTriggerOffsets;

impl BlockPass for SetTriggerOffsets {
    open spec fn ready(&self) -> bool {
        true
    }

    open spec fn rewritten(&self, v: int, bb: BBView, next: int) -> Option<(BBView, int)> {
        match offsets_set(bb.inst) {
            Some(inst) => Some((BBView { inst, ..bb }, next)),
            None => None,
        }
    }

    proof fn grows(&self, v: int, bb: BBView, next: int) {
    }

    fn run(&self, v: usize, bb: &VCodeBB, vregs: &mut VRegAllocator) -> Result<
        VCodeBB,
        CodegenError,
    > {
        let ghost all = bb@.inst;
        match find_jmp_issues(&bb.inst) {
            Err(e) => Err(e),
            Ok(None) => Ok(bb.copy()),
            Ok(Some((issues, trigger))) => {
                let n: usize = bb.inst.len();
                proof {
                    assert forall|i: int|
                        0 <= i < bb.inst@.len() && (#[trigger] bb.inst@[i])@ is JumpIssue implies i
                        < trigger by {
                        assert(all[i] == bb.inst@[i]@);
                        crate::issues::issue_is_listed(all, i);
                        let k = choose|k: int| 0 <= k < issues@.len() && issues@[k] == i as usize;
                        assert(issues@[k] <= trigger);
                    }
                }
                match set_issues(&bb.inst, trigger) {
                    Some(done) => match set_chains(&done) {
                        Some(inst) => Ok(bb.with_insts(inst)),
                        None => Err(CodegenError::Malformed),
                    },
                    None => Err(CodegenError::Malformed),
                }
            },
        }
    }
}

/// Fills in each jump issue's trigger offset, and each offset chain's distance to
/// its jump.
///
/// Must run last: any pass that adds or removes instructions after an issue
/// invalidates the offsets.
pub fn set_trigger_offsets(cfg: VCodeCFG, vregs: &mut VRegAllocator) -> (r: Result<
    VCodeCFG,
    CodegenError,
>)
    requires
        old(vregs).wf(),
        cfg.wf(),
    ensures
        final(vregs).wf(),
        match r {
            Ok(c) => {
                &&& c.wf()
                &&& c.graph == cfg.graph
                &&& c.root == cfg.root
                &&& all_rewritten(SetTriggerOffsets, cfg.bbs(), old(vregs).next as int) == Some(
                    (c.bbs(), final(vregs).next as int),
                )
            },
            Err(e) => refused(
                all_rewritten(SetTriggerOffsets, cfg.bbs(), old(vregs).next as int),
                e,
                final(vregs).next,
            ),
        },
{
    run_pass(&SetTriggerOffsets, cfg, vregs)
}

} // verus!
