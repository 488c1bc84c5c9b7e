//! The jumps of a block: which instructions issue them and which triggers them.
use crate::bb::VCodeBB;
use crate::inst::{views, MInst, MInstView};
use crate::reg::CodegenError;
use vstd::prelude::*;

verus! {

impl MInstView {
    /// Whether the instruction issues a jump.
    pub open spec fn is_issue(self) -> bool {
        self is JumpIssue || self is ImmJump
    }

    /// Whether the instruction triggers the block's jumps.
    pub open spec fn is_trigger(self) -> bool {
        self is JumpTrigger || self is ImmJump
    }
}

/// The positions of the instructions that issue jumps.
pub open spec fn issue_positions(insts: Seq<MInstView>) -> Seq<usize>
    decreases insts.len(),
{
    if insts.len() == 0 {
        Seq::empty()
    } else if insts.last().is_issue() {
        issue_positions(insts.drop_last()).push((insts.len() - 1) as usize)
    } else {
        issue_positions(insts.drop_last())
    }
}

/// The positions of the instructions that trigger jumps.
pub open spec fn trigger_positions(insts: Seq<MInstView>) -> Seq<usize>
    decreases insts.len(),
{
    if insts.len() == 0 {
        Seq::empty()
    } else if insts.last().is_trigger() {
        trigger_positions(insts.drop_last()).push((insts.len() - 1) as usize)
    } else {
        trigger_positions(insts.drop_last())
    }
}

/// A block has no jumps, or a single trigger behind all issues. A jump that is
/// its own trigger stands alone.
pub open spec fn jumps_wf(insts: Seq<MInstView>) -> bool {
    let issues = issue_positions(insts);
    let triggers = trigger_positions(insts);
    if triggers.len() == 0 {
        issues.len() == 0
    } else {
        &&& triggers.len() == 1
        &&& issues.len() > 0
        &&& forall|k: int| 0 <= k < issues.len() ==> #[trigger] issues[k] <= triggers[0]
        &&& insts[triggers[0] as int] is ImmJump ==> issues.len() == 1
    }
}

/// The positions of the block's issues and of their shared trigger.
pub open spec fn jump_issues(insts: Seq<MInstView>) -> Option<(Seq<usize>, usize)> {
    if trigger_positions(insts).len() == 0 {
        None
    } else {
        Some((issue_positions(insts), trigger_positions(insts)[0]))
    }
}

/// Each position in the list is that of an issue.
pub proof fn issue_is_position(insts: Seq<MInstView>, k: int)
    requires
        0 <= k < issue_positions(insts).len(),
        insts.len() <= usize::MAX,
    ensures
        0 <= issue_positions(insts)[k] < insts.len(),
        insts[issue_positions(insts)[k] as int].is_issue(),
        forall|j: int|
            0 <= j < k ==> #[trigger] issue_positions(insts)[j] < issue_positions(insts)[k],
    decreases insts.len(),
{
    let init = insts.drop_last();
    if insts.last().is_issue() {
        assert forall|j: int| 0 <= j < issue_positions(init).len() implies #[trigger] issue_positions(
            init,
        )[j] < insts.len() - 1 by {
            issue_is_position(init, j);
        }
        assert forall|j: int| 0 <= j < k implies #[trigger] issue_positions(insts)[j]
            < issue_positions(insts)[k] by {
            if k < issue_positions(init).len() {
                issue_is_position(init, k);
                assert(issue_positions(init)[j] < issue_positions(init)[k]);
            } else {
                assert(issue_positions(init)[j] < insts.len() - 1);
            }
        }
    }
    if k < issue_positions(init).len() {
        issue_is_position(init, k);
    }
}

/// Each position in the list is that of a trigger.
pub proof fn trigger_is_position(insts: Seq<MInstView>, k: int)
    requires
        0 <= k < trigger_positions(insts).len(),
        insts.len() <= usize::MAX,
    ensures
        0 <= trigger_positions(insts)[k] < insts.len(),
        insts[trigger_positions(insts)[k] as int].is_trigger(),
    decreases insts.len(),
{
    if k < trigger_positions(insts.drop_last()).len() {
        trigger_is_position(insts.drop_last(), k);
    }
}

/// A trigger's position is in the list.
pub proof fn trigger_is_listed(insts: Seq<MInstView>, i: int)
    requires
        0 <= i < insts.len(),
        insts[i].is_trigger(),
    ensures
        trigger_positions(insts).len() > 0,
    decreases insts.len(),
{
    if i < insts.len() - 1 {
        trigger_is_listed(insts.drop_last(), i);
    }
}

/// An issue's position is in the list.
pub proof fn issue_is_listed(insts: Seq<MInstView>, i: int)
    requires
        0 <= i < insts.len(),
        insts[i].is_issue(),
        insts.len() <= usize::MAX,
    ensures
        issue_positions(insts).contains(i as usize),
    decreases insts.len(),
{
    let init = insts.drop_last();
    if i < insts.len() - 1 {
        issue_is_listed(init, i);
        let k = choose|k: int|
            0 <= k < issue_positions(init).len() && issue_positions(init)[k] == i as usize;
        assert(issue_positions(insts)[k] == i as usize);
    } else {
        assert(issue_positions(insts)[issue_positions(insts).len() - 1] == i as usize);
    }
}

/// Finds the issues and the trigger of a list of instructions, or refuses jumps
/// that are not well-formed.
pub fn find_jmp_issues(insts: &Vec<MInst>) -> (r: Result<Option<(Vec<usize>, usize)>, CodegenError>)
    ensures
        match r {
            Ok(None) => jumps_wf(views(insts@)) && jump_issues(views(insts@)) is None,
            Ok(Some((issues, trigger))) => {
                &&& jumps_wf(views(insts@))
                &&& jump_issues(views(insts@)) == Some((issues@, trigger))
                &&& trigger < insts@.len()
                &&& forall|k: int|
                    0 <= k < issues@.len() ==> #[trigger] issues@[k] <= trigger && insts@[issues@[k] as int]@.is_issue()
                &&& insts@[trigger as int]@.is_trigger()
                &&& issues@.len() > 0
            },
            Err(e) => e is Malformed && !jumps_wf(views(insts@)),
        },
{
    let ghost all = views(insts@);
    let n: usize = insts.len();
    let mut issues: Vec<usize> = Vec::new();
    let mut triggers: Vec<usize> = Vec::new();
    for i in 0..n
        invariant
            n == insts@.len(),
            all == views(insts@),
            issues@ == issue_positions(all.take(i as int)),
            triggers@ == trigger_positions(all.take(i as int)),
    {
        proof {
            assert(all.take(i as int + 1).drop_last() =~= all.take(i as int));
            assert(all[i as int] == insts@[i as int]@);
        }
        match &insts[i] {
            MInst::JumpIssue { .. } => {
                issues.push(i);
            },
            MInst::JumpTrigger { .. } => {
                triggers.push(i);
            },
            MInst::ImmJump { .. } => {
                issues.push(i);
                triggers.push(i);
            },
            _ => {},
        }
    }
    assert(all.take(n as int) =~= all);
    if triggers.len() == 0 {
        if issues.len() == 0 {
            return Ok(None);
        }
        return Err(CodegenError::Malformed);
    }
    if triggers.len() != 1 || issues.len() == 0 {
        return Err(CodegenError::Malformed);
    }
    let trigger: usize = triggers[0];
    proof {
        trigger_is_position(all, 0);
    }
    let imm: bool = match &insts[trigger] {
        MInst::ImmJump { .. } => true,
        _ => false,
    };
    if imm && issues.len() != 1 {
        return Err(CodegenError::Malformed);
    }
    for k in 0..issues.len()
        invariant
            all == views(insts@),
            n == insts@.len(),
            issues@ == issue_positions(all),
            triggers@ == trigger_positions(all),
            triggers@.len() == 1,
            trigger == triggers@[0],
            forall|j: int|
                0 <= j < k ==> #[trigger] issues@[j] <= trigger && insts@[issues@[j] as int]@.is_issue(),
    {
        proof {
            issue_is_position(all, k as int);
        }
        if issues[k] > trigger {
            return Err(CodegenError::Malformed);
        }
    }
    Ok(Some((issues, trigger)))
}

/// Returns the block's list of the indices of issuing instructions and their
/// shared trigger.
pub fn get_jmp_issues(block: &VCodeBB) -> (r: Option<(Vec<usize>, usize)>)
    requires
        jumps_wf(block@.inst),
    ensures
        match r {
            None => jump_issues(block@.inst) is None,
            Some((issues, trigger)) => jump_issues(block@.inst) == Some((issues@, trigger)),
        },
{
    match find_jmp_issues(&block.inst) {
        Ok(found) => found,
        Err(_) => None,
    }
}

} // verus!
