//! Where a jump table goes.
use crate::inst::{IssueKind, MInstOf, MInstView};
use crate::ir::IntCC;
use crate::isatype::IsaType;
use crate::lower::{br_table, table_tests};
use crate::reg::{vreg, MachLabel, Reg, VREG_LIMIT};
use vstd::prelude::*;

verus! {

/// Whether an issued jump is taken, given the values of the registers: a
/// conditional one on zero or on non-zero, as its sense says.
pub open spec fn taken(kind: IssueKind, values: Map<Reg, int>) -> bool {
    match kind {
        IssueKind::Jump => true,
        IssueKind::Branch { dir, cond } => if dir {
            values[cond] == 0
        } else {
            values[cond] != 0
        },
        IssueKind::Far { dir, cond, .. } => if dir {
            values[cond] == 0
        } else {
            values[cond] != 0
        },
    }
}

/// Where control goes when the instructions from the `k`th on are executed up to
/// the trigger with the given link: to the target of the jump that was taken last.
/// `target` is that of the jumps taken before.
pub open spec fn goes_to(
    insts: Seq<MInstView>,
    k: int,
    link: Reg,
    values: Map<Reg, int>,
    target: Option<MachLabel>,
) -> Option<MachLabel>
    decreases insts.len() - k,
{
    if k >= insts.len() {
        None
    } else {
        match insts[k] {
            MInstOf::Const { rd, imm, .. } => goes_to(
                insts,
                k + 1,
                link,
                values.insert(rd, imm as int),
                target,
            ),
            MInstOf::IntCmp { cc: IntCC::Equal, rd, rs1, rs2 } => goes_to(
                insts,
                k + 1,
                link,
                values.insert(
                    rd,
                    if values[rs1] == values[rs2] {
                        1
                    } else {
                        0
                    },
                ),
                target,
            ),
            MInstOf::JumpIssue { link: l, dst, kind, .. } => goes_to(
                insts,
                k + 1,
                link,
                values,
                if l == link && taken(kind, values) {
                    Some(dst)
                } else {
                    target
                },
            ),
            MInstOf::JumpTrigger { link: l, .. } => if l == link {
                target
            } else {
                goes_to(insts, k + 1, link, values, target)
            },
            _ => goes_to(insts, k + 1, link, values, target),
        }
    }
}

/// Whether a register was there before the one with the given index was taken.
pub open spec fn older_than(r: Reg, next: int) -> bool {
    r matches Reg::Virtual(i) ==> i < next
}

proof fn tests_at(idx: Reg, cases: int, k: int, next: int, j: int)
    requires
        0 <= k <= j < cases,
        cases <= i64::MAX,
    ensures
        table_tests(idx, cases, k, next).len() == 2 * (cases - k),
        table_tests(idx, cases, k, next)[2 * (j - k)] == (MInstView::Const {
            ty: IsaType::Invalid,
            rd: vreg(next + 2 * (j - k)),
            imm: j as i64,
        }),
        table_tests(idx, cases, k, next)[2 * (j - k) + 1] == (MInstView::IntCmp {
            cc: IntCC::Equal,
            rd: vreg(next + 2 * (j - k) + 1),
            rs1: idx,
            rs2: vreg(next + 2 * (j - k)),
        }),
    decreases cases - k,
{
    let rest = table_tests(idx, cases, k + 1, next + 2);
    if k + 1 < cases {
        tests_at(
            idx,
            cases,
            k + 1,
            next + 2,
            if j > k {
                j
            } else {
                k + 1
            },
        );
    } else {
        assert(rest.len() == 0);
    }
    if j > k {
        assert(table_tests(idx, cases, k, next)[2 * (j - k)] == rest[2 * (j - (k + 1))]);
        assert(table_tests(idx, cases, k, next)[2 * (j - k) + 1] == rest[2 * (j - (k + 1)) + 1]);
    }
}

proof fn table_at(idx: Reg, targets: Seq<MachLabel>, args: Seq<Reg>, next: int, j: int)
    requires
        0 <= j < targets.len(),
        targets.len() <= i64::MAX,
    ensures
        ({
            let t = br_table(idx, targets, args, next);
            let cases = targets.len() - 1;
            let link = vreg(next + 2 * cases);
            &&& t.len() == 3 * cases + 2
            &&& j < cases ==> t[2 * j] == (MInstView::Const {
                ty: IsaType::Invalid,
                rd: vreg(next + 2 * j),
                imm: j as i64,
            })
            &&& j < cases ==> t[2 * j + 1] == (MInstView::IntCmp {
                cc: IntCC::Equal,
                rd: vreg(next + 2 * j + 1),
                rs1: idx,
                rs2: vreg(next + 2 * j),
            })
            &&& t[2 * cases] == (MInstView::JumpIssue {
                link,
                dst: targets[0],
                kind: IssueKind::Jump,
                trig: 0,
            })
            &&& j < cases ==> t[2 * cases + 1 + j] == (MInstView::JumpIssue {
                link,
                dst: targets[j + 1],
                kind: IssueKind::Branch { dir: false, cond: vreg(next + 2 * j + 1) },
                trig: 0,
            })
            &&& t[3 * cases + 1] == (MInstView::JumpTrigger { link, args })
        }),
{
    let cases = targets.len() - 1;
    if cases > 0 {
        tests_at(
            idx,
            cases,
            0,
            next,
            if j < cases {
                j
            } else {
                0
            },
        );
    } else {
        assert(table_tests(idx, cases, 0, next).len() == 0);
    }
}

proof fn tests_run(
    idx: Reg,
    targets: Seq<MachLabel>,
    args: Seq<Reg>,
    next: int,
    k: int,
    values: Map<Reg, int>,
) -> (end: Map<Reg, int>)
    requires
        targets.len() > 0,
        0 <= k <= targets.len() - 1,
        0 <= next,
        next + 2 * (targets.len() - 1) + 1 <= VREG_LIMIT,
        older_than(idx, next),
        forall|j: int|
            0 <= j < k ==> #[trigger] values[vreg(next + 2 * j + 1)] == (if values[idx] == j {
                1int
            } else {
                0
            }),
    ensures
        ({
            let t = br_table(idx, targets, args, next);
            let cases = targets.len() - 1;
            let link = vreg(next + 2 * cases);
            goes_to(t, 2 * k, link, values, None) == goes_to(t, 2 * cases, link, end, None)
        }),
        end[idx] == values[idx],
        forall|j: int|
            0 <= j < targets.len() - 1 ==> #[trigger] end[vreg(next + 2 * j + 1)] == (if values[idx]
                == j {
                1int
            } else {
                0
            }),
    decreases targets.len() - k,
{
    let t = br_table(idx, targets, args, next);
    let cases = targets.len() - 1;
    let link = vreg(next + 2 * cases);
    if k == cases {
        values
    } else {
        table_at(idx, targets, args, next, k);
        let first = values.insert(vreg(next + 2 * k), k);
        let bit: int = if values[idx] == k {
            1
        } else {
            0
        };
        let second = first.insert(vreg(next + 2 * k + 1), bit);
        assert(goes_to(t, 2 * k, link, values, None) == goes_to(t, 2 * k + 1, link, first, None));
        assert(first[idx] == values[idx]);
        assert(first[vreg(next + 2 * k)] == k);
        assert(goes_to(t, 2 * k + 1, link, first, None) == goes_to(
            t,
            2 * (k + 1),
            link,
            second,
            None,
        ));
        assert(second[idx] == values[idx]);
        assert forall|j: int| 0 <= j < k + 1 implies #[trigger] second[vreg(next + 2 * j + 1)] == (
        if values[idx] == j {
            1int
        } else {
            0
        }) by {
            if j < k {
                assert(vreg(next + 2 * j + 1) != vreg(next + 2 * k + 1));
                assert(vreg(next + 2 * j + 1) != vreg(next + 2 * k));
                assert(values[vreg(next + 2 * j + 1)] == second[vreg(next + 2 * j + 1)]);
            }
        }
        tests_run(idx, targets, args, next, k + 1, second)
    }
}

/// The target of an index among the cases below `k`: the default where it is none
/// of them.
pub open spec fn table_target(targets: Seq<MachLabel>, k: int, i: int) -> MachLabel {
    if 0 <= i < k {
        targets[i + 1]
    } else {
        targets[0]
    }
}

proof fn issues_run(
    idx: Reg,
    targets: Seq<MachLabel>,
    args: Seq<Reg>,
    next: int,
    k: int,
    values: Map<Reg, int>,
)
    requires
        targets.len() > 0,
        0 <= k <= targets.len() - 1,
        0 <= next,
        next + 2 * (targets.len() - 1) + 1 <= VREG_LIMIT,
        forall|j: int|
            0 <= j < targets.len() - 1 ==> #[trigger] values[vreg(next + 2 * j + 1)] == (
            if values[idx] == j {
                1int
            } else {
                0
            }),
    ensures
        ({
            let t = br_table(idx, targets, args, next);
            let cases = targets.len() - 1;
            let link = vreg(next + 2 * cases);
            goes_to(
                t,
                2 * cases + 1 + k,
                link,
                values,
                Some(table_target(targets, k, values[idx])),
            ) == Some(table_target(targets, cases, values[idx]))
        }),
    decreases targets.len() - k,
{
    let t = br_table(idx, targets, args, next);
    let cases = targets.len() - 1;
    table_at(idx, targets, args, next, k);
    if k < cases {
        assert(values[vreg(next + 2 * k + 1)] == (if values[idx] == k {
            1int
        } else {
            0
        }));
        issues_run(idx, targets, args, next, k + 1, values);
    }
}

/// A jump table goes to the target of its index: index `i` to the label behind
/// the default's that `i` counts, and any other value to the default. The
/// trigger passes on the arguments.
pub proof fn tables_go_to_their_case(
    idx: Reg,
    targets: Seq<MachLabel>,
    args: Seq<Reg>,
    next: int,
    values: Map<Reg, int>,
)
    requires
        targets.len() > 0,
        0 <= next,
        next + 2 * (targets.len() - 1) + 1 <= VREG_LIMIT,
        older_than(idx, next),
    ensures
        br_table(idx, targets, args, next).last() matches MInstOf::JumpTrigger { link, args: passed }
            && {
            &&& passed == args
            &&& goes_to(br_table(idx, targets, args, next), 0, link, values, None) == Some(
                if 0 <= values[idx] < targets.len() - 1 {
                    targets[values[idx] + 1]
                } else {
                    targets[0]
                },
            )
        },
{
    let t = br_table(idx, targets, args, next);
    let cases = targets.len() - 1;
    let link = vreg(next + 2 * cases);
    table_at(idx, targets, args, next, 0);
    let end = tests_run(idx, targets, args, next, 0, values);
    issues_run(idx, targets, args, next, 0, end);
    assert(goes_to(t, 2 * cases, link, end, None) == goes_to(
        t,
        2 * cases + 1,
        link,
        end,
        Some(targets[0]),
    ));
}

/// Whether the jump issued at position `i` is guarded by a comparison, at `t`, of
/// a register with a constant, defined at `c`.
pub open spec fn guarded(
    insts: Seq<MInstView>,
    idx: Reg,
    number: int,
    dst: MachLabel,
    c: int,
    t: int,
    i: int,
) -> bool {
    &&& 0 <= c < t < i < insts.len()
    &&& insts[c] is Const
    &&& insts[c]->Const_imm == number
    &&& insts[t] is IntCmp
    &&& insts[t]->IntCmp_cc is Equal
    &&& insts[t]->IntCmp_rs1 == idx
    &&& insts[t]->IntCmp_rs2 == insts[c]->Const_rd
    &&& insts[i] is JumpIssue
    &&& insts[i]->JumpIssue_dst == dst
    &&& insts[i]->JumpIssue_kind == (IssueKind::Branch { dir: false, cond: insts[t]->IntCmp_rd })
}

/// Every case of a jump table is guarded by a comparison of the index with a
/// constant of the case's number.
pub proof fn cases_compare_their_number(
    idx: Reg,
    targets: Seq<MachLabel>,
    args: Seq<Reg>,
    next: int,
    k: int,
)
    requires
        0 <= k < targets.len() - 1,
        targets.len() <= i64::MAX,
    ensures
        exists|c: int, t: int, i: int| #[trigger]
            guarded(br_table(idx, targets, args, next), idx, k, targets[k + 1], c, t, i),
{
    table_at(idx, targets, args, next, k);
    let cases = targets.len() - 1;
    assert(guarded(
        br_table(idx, targets, args, next),
        idx,
        k,
        targets[k + 1],
        2 * k,
        2 * k + 1,
        2 * cases + 1 + k,
    ));
}

} // verus!
