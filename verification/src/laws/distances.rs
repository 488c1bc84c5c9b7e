//! Where references lead.
use crate::bb::BBView;
use crate::cfg::BlockPass;
use crate::inst::{MInstOf, MInstView};
use crate::laws::operations::machine_results;
use crate::passes::distances::{
    bridged, dead_removed, references_lead_to_consumers, refs_hold, span, use_at, use_below,
    InsertRefDistances, Visit,
};
use crate::passes::order::place_of;
use crate::reg::Reg;
use crate::rename::replace_each;
use crate::typemap::TypesView;
use vstd::prelude::*;

verus! {

/// How far an operand in flight travels across the instructions from position `i`
/// on and before `j`.
pub open spec fn travelled(insts: Seq<MInstView>, i: int, j: int) -> int
    decreases j - i,
{
    if i >= j {
        0
    } else {
        travelled(insts, i, j - 1) + insts[j - 1].spec_reference_length()
    }
}

proof fn span_is_travelled(insts: Seq<MInstView>, i: int, j: int)
    ensures
        span(insts, i, j) == travelled(insts, i, j),
    decreases j - i,
{
    if i < j {
        span_is_travelled(insts, i, j - 1);
        span_joins(insts, i, j);
    }
}

proof fn span_joins(insts: Seq<MInstView>, i: int, j: int)
    requires
        i < j,
    ensures
        span(insts, i, j) == span(insts, i, j - 1) + insts[j - 1].spec_reference_length(),
    decreases j - i,
{
    if i + 1 < j {
        span_joins(insts, i + 1, j);
    } else {
        assert(span(insts, i + 1, j) == 0);
        assert(span(insts, i, j - 1) == 0);
    }
}

/// The instruction that a value is delivered to once the parameters of a block
/// are handed out: the first takes four, every further one two.
pub open spec fn delivered_to(place: int) -> int {
    if place < 4 {
        0
    } else {
        (place - 2) / 2
    }
}

/// The reference that an instruction names for its output `k`, in the order of
/// production; outputs without one go to the next instruction.
pub open spec fn reference(inst: MInstView, k: int) -> Option<int> {
    match inst {
        MInstOf::Alu1 { out, .. } => Some(out as int),
        MInstOf::UnaryAlu { out, .. } => Some(out as int),
        MInstOf::Pick { out, .. } => Some(out as int),
        MInstOf::Load { out, .. } => Some(out as int),
        MInstOf::Cast { out, .. } => Some(out as int),
        MInstOf::Reorder { out, .. } => Some(out as int),
        MInstOf::EchoLong { out, .. } if k == 0 => Some(out as int),
        MInstOf::Alu2 { outs, .. } if k < outs.len() => Some(outs[k] as int),
        MInstOf::EchoChain { out2, .. } if k == 0 => Some(out2 as int),
        MInstOf::EchoChain { out1, .. } if k == 1 => Some(out1 as int),
        MInstOf::EchoSplit { out1, .. } if k == 0 => Some(out1 as int),
        MInstOf::EchoSplit { out2, .. } => Some(out2 as int),
        MInstOf::Duplicate { out1, .. } if k == 0 => Some(out1 as int),
        MInstOf::Duplicate { out2, .. } => Some(out2 as int),
        MInstOf::Const { .. }
        | MInstOf::LoadExtName { .. }
        | MInstOf::JumpOffset { .. }
        | MInstOf::LoadStack { .. }
        | MInstOf::SAddr { .. }
        | MInstOf::CallArgs { .. } => Some(0),
        _ => None,
    }
}

proof fn use_is_last(insts: Seq<MInstView>, i: int, r: Reg, n: int)
    requires
        0 <= i,
        n <= insts.len(),
        use_below(insts, i, r, n) >= 0,
    ensures
        i <= use_below(insts, i, r, n) < n,
        insts[use_below(insts, i, r, n)].uses().contains(r),
        forall|x: int|
            use_below(insts, i, r, n) < x < n ==> !(#[trigger] insts[x]).uses().contains(r),
    decreases n - i,
{
    if n > i && !insts[n - 1].uses().contains(r) {
        use_is_last(insts, i, r, n - 1);
    }
}

proof fn place_holds(regs: Seq<Reg>, r: Reg, k: int)
    requires
        0 <= k <= regs.len(),
    ensures
        k <= place_of(regs, r, k) <= regs.len(),
        place_of(regs, r, k) < regs.len() ==> regs[place_of(regs, r, k)] == r,
        forall|i: int| k <= i < place_of(regs, r, k) ==> #[trigger] regs[i] != r,
    decreases regs.len() - k,
{
    if k < regs.len() && regs[k] != r {
        place_holds(regs, r, k + 1);
    }
}

/// Whether `u` is where an output of the instruction at `i` goes: it is read there,
/// behind the instruction, and nowhere further on.
pub open spec fn goes_to_user(insts: Seq<MInstView>, i: int, r: Reg, u: int) -> bool {
    &&& i < u < insts.len()
    &&& insts[u].uses().contains(r)
    &&& forall|x: int| u < x < insts.len() ==> !(#[trigger] insts[x]).uses().contains(r)
}

/// After the pass, every output is read further on in its block, and its reference
/// counts exactly what lies between: the instructions that it crosses, and, for a
/// value that is passed to a successor, those of the successor that come before the
/// one that takes the value. A reference is at most 31, that of a long echo 1023.
pub proof fn references_count_what_they_cross(bb: BBView, next: int, i: int, k: int)
    requires
        InsertRefDistances.rewritten(0, bb, next) is Some,
        0 <= i < InsertRefDistances.rewritten(0, bb, next)->Some_0.0.inst.len(),
        0 <= k < InsertRefDistances.rewritten(0, bb, next)->Some_0.0.inst[i].defs().len(),
    ensures
        ({
            let insts = InsertRefDistances.rewritten(0, bb, next)->Some_0.0.inst;
            let r = insts[i].defs()[k];
            exists|u: int|
                {
                    &&& #[trigger] goes_to_user(insts, i, r, u)
                    &&& reference(insts[i], k) matches Some(d) ==> {
                        &&& d <= (if insts[i] is EchoLong {
                            1023int
                        } else {
                            31
                        })
                        &&& if insts[u] is JumpTrigger {
                            exists|p: int|
                                {
                                    &&& 0 <= p < insts[u]->JumpTrigger_args.len()
                                    &&& #[trigger] insts[u]->JumpTrigger_args[p] == r
                                    &&& d == travelled(insts, i + 1, u) + delivered_to(p)
                                }
                        } else {
                            d == travelled(insts, i + 1, u)
                        }
                    }
                }
        }),
{
    references_lead_to_consumers(bb, next, i);
    let insts = InsertRefDistances.rewritten(0, bb, next)->Some_0.0.inst;
    let r = insts[i].defs()[k];
    assert(refs_hold(insts, i));
    let u = use_at(insts, i, r);
    use_is_last(insts, i, r, insts.len() as int);
    span_is_travelled(insts, i + 1, u);
    assert(goes_to_user(insts, i, r, u));
    if let MInstOf::JumpTrigger { args, .. } = insts[u] {
        place_holds(args, r, 0);
        let p = place_of(args, r, 0);
        if p == args.len() {
            let x = choose|x: int| 0 <= x < args.len() && args[x] == r;
            assert(args[x] != r);
        }
        assert(insts[u]->JumpTrigger_args[p] == r);
        assert(p >= 4 ==> (p - 2) / 2 == 1 + (p - 4) / 2);
    }
}

/// What operands in flight travel across an instruction: nothing for the arrival
/// of parameters, one for each machine instruction of a chain, and one otherwise.
pub proof fn crossing_lengths(inst: MInstView)
    ensures
        inst is Args ==> inst.spec_reference_length() == 0,
        inst is Const || inst is LoadExtName || inst is JumpOffset || inst is Echo
            ==> inst.spec_reference_length() == inst.spec_emitted_length(),
        !(inst is Args || inst is Const || inst is LoadExtName || inst is JumpOffset || inst is Echo)
            ==> inst.spec_reference_length() == 1,
{
}

/// An operation with two outputs of which one is not needed delivers the other,
/// with the value that it had.
pub proof fn dropping_an_output_keeps_the_other(
    bb: BBView,
    next: int,
    i: int,
    k: int,
    types: TypesView,
    w: nat,
    values: Map<Reg, int>,
)
    requires
        0 <= i < bb.inst.len(),
        0 <= k < 2,
        bb.inst[i] is Alu2,
        bb.inst[i]->Alu2_rds.len() == 2,
        bb.inst[i]->Alu2_outs.len() == 2,
        !(bb.inst[i]->Alu2_out_var is LowOnly || bb.inst[i]->Alu2_out_var is HighOnly),
    ensures
        dead_removed(bb, next, i, k) matches Visit::Edit(b, n) && {
            &&& n == next
            &&& b == (BBView { inst: b.inst, ..bb })
            &&& b.inst.len() == bb.inst.len()
            &&& machine_results(b.inst[i], types, w, values) == seq![
                machine_results(bb.inst[i], types, w, values)[1 - k],
            ]
            &&& forall|x: int|
                0 <= x < bb.inst.len() && x != i ==> #[trigger] b.inst[x] == bb.inst[x]
        },
{
    let b = dead_removed(bb, next, i, k)->Edit_0;
    assert(bb.inst[i].defs() == bb.inst[i]->Alu2_rds);
    assert(machine_results(b.inst[i], types, w, values) =~= seq![
        machine_results(bb.inst[i], types, w, values)[1 - k],
    ]);
}

/// Any other output that is not needed is dropped directly behind its instruction;
/// nothing else changes.
pub proof fn unneeded_outputs_are_dropped(bb: BBView, next: int, i: int, k: int)
    requires
        0 <= i < bb.inst.len(),
        0 <= k < bb.inst[i].defs().len(),
        !(bb.inst[i] is Alu2 && bb.inst[i].defs().len() == 2),
    ensures
        dead_removed(bb, next, i, k) matches Visit::Edit(b, n) && {
            &&& n == next
            &&& b == (BBView { inst: b.inst, ..bb })
            &&& b.inst.len() == bb.inst.len() + 1
            &&& b.inst[i + 1] == (MInstView::Discard { rss: seq![bb.inst[i].defs()[k]] })
            &&& forall|x: int| 0 <= x <= i ==> #[trigger] b.inst[x] == bb.inst[x]
            &&& forall|x: int| i + 1 < x < b.inst.len() ==> #[trigger] b.inst[x] == bb.inst[x - 1]
        },
{
}

/// An output that cannot be sent far enough is carried on by a long echo directly
/// behind: whatever read the output reads what the echo delivers.
pub proof fn bridges_carry_their_output(bb: BBView, i: int, rd: Reg, fresh: Reg, x: int)
    requires
        0 <= i < bb.inst.len(),
        0 <= x < bb.inst.len(),
    ensures
        ({
            let b = bridged(bb, i, rd, fresh);
            let now = if x <= i {
                b.inst[x]
            } else {
                b.inst[x + 1]
            };
            &&& b.inst.len() == bb.inst.len() + 1
            &&& b.inst[i + 1] == (MInstView::EchoLong { rds: seq![fresh], rss: seq![rd], out: 0 })
            &&& now == bb.inst[x].with_uses(now.uses())
            &&& now.uses().len() == bb.inst[x].uses().len()
            &&& forall|u: int|
                0 <= u < now.uses().len() ==> #[trigger] now.uses()[u] == (if bb.inst[x].uses()[u]
                    == rd {
                    fresh
                } else {
                    bb.inst[x].uses()[u]
                })
        }),
{
    let us = replace_each(bb.inst[x].uses(), rd, fresh);
    crate::operands::with_uses_sets_uses(bb.inst[x], us);
}

} // verus!
