//! The references with which instructions send their outputs: how many
//! instructions further on the consumer sits.
use crate::bb::{first_from, first_from_is_least, replace_range, BBView, VCodeBB};
use crate::cfg::{all_rewritten, run_pass, BlockPass, VCodeCFG};
use crate::chain::{chain_of_grows, delivery_group, spec_delivery_group};
use crate::inst::{views, MInst, MInstOf, MInstView};
use crate::isa::Alu2OutputVariant;
use crate::passes::echoes::{expanded, zip_regs, zipped};
use crate::passes::order::{find_place, place_of};
use crate::passes::far_jumps::{
    is_small_chain, small_chains, small_chains_add, small_chains_update,
};
use crate::pass::{
    refused, settled, settled_done, settled_keeps, settled_next, settled_stuck, Step,
};
use crate::reg::{ran_out, vreg, CodegenError, Reg, VRegAllocator, VREG_LIMIT};
use crate::rename::{contains_reg, fresh_regs, renamed, renamed_each, renamed_each_keeps};
use vstd::prelude::*;

verus! {

broadcast use {crate::inst::views_insert, crate::inst::views_update};

/// The position of the last instruction from `i` on, below `n`, that uses a
/// register, or -1.
pub open spec fn use_below(insts: Seq<MInstView>, i: int, r: Reg, n: int) -> int
    decreases n - i,
{
    if n <= i {
        -1
    } else if insts[n - 1].uses().contains(r) {
        n - 1
    } else {
        use_below(insts, i, r, n - 1)
    }
}

/// The position of the last instruction from `i` on that uses a register, or -1.
pub open spec fn use_at(insts: Seq<MInstView>, i: int, r: Reg) -> int {
    use_below(insts, i, r, insts.len() as int)
}

/// How far operands in flight travel from position `i` to position `j`.
pub open spec fn span(insts: Seq<MInstView>, i: int, j: int) -> int
    decreases j - i,
{
    if i >= j {
        0
    } else {
        insts[i].spec_reference_length() + span(insts, i + 1, j)
    }
}

/// The additional distance of a value to its consumer. A trigger's reference
/// points at the successor's first instruction; an argument that does not fit
/// its queue goes to a later one.
pub open spec fn extra(inst: MInstView, r: Reg) -> int {
    match inst {
        MInstOf::JumpTrigger { args, .. } => spec_delivery_group(place_of(args, r, 0)),
        _ => 0,
    }
}

/// How many instructions lie between the instruction at `i` and the consumer of
/// its output `r`.
pub open spec fn distance(insts: Seq<MInstView>, i: int, r: Reg) -> int {
    let u = use_at(insts, i, r);
    span(insts, i + 1, u) + extra(insts[u], r)
}

/// The distances of the outputs of an instruction.
pub open spec fn distances(insts: Seq<MInstView>, i: int) -> Seq<int> {
    Seq::new(insts[i].defs().len(), |k: int| distance(insts, i, insts[i].defs()[k]))
}

/// Whether every output is consumed behind its instruction, at a distance that
/// can be counted.
pub open spec fn consumed_later(insts: Seq<MInstView>, i: int) -> bool {
    forall|k: int|
        0 <= k < insts[i].defs().len() ==> use_at(insts, i, #[trigger] insts[i].defs()[k]) > i
            && distance(insts, i, insts[i].defs()[k]) <= u16::MAX
}

/// The first output without a consumer.
pub open spec fn first_dead(insts: Seq<MInstView>, i: int) -> int {
    first_from(
        |k: int| use_at(insts, i, insts[i].defs()[k]) < 0,
        0,
        insts[i].defs().len() as int,
    )
}

/// Whether the outputs go to the next instruction, as the encoding has no output
/// reference.
pub open spec fn next_only(inst: MInstView) -> bool {
    inst is Const || inst is LoadExtName || inst is JumpOffset || inst is LoadStack
        || inst is SAddr
}

/// The largest output reference of an instruction.
pub open spec fn max_ref(inst: MInstView) -> int {
    if inst is EchoLong {
        1023
    } else {
        31
    }
}

/// The first output whose distance is out of range.
pub open spec fn first_far(inst: MInstView, ds: Seq<int>) -> int {
    first_from(|k: int| ds[k] > max_ref(inst), 0, ds.len() as int)
}

/// The output that must be carried on by an echo because the instruction cannot
/// send it far enough. Two outputs of one operation cannot have two different
/// references.
pub open spec fn bridge_of(inst: MInstView, ds: Seq<int>) -> Option<Reg> {
    if next_only(inst) && ds[0] > 0 {
        Some(inst.defs()[0])
    } else if inst is Alu2 && inst.defs().len() == 2 && ds[0] != ds[1] && ds[0] > 0 && ds[1] > 0 {
        Some(inst.defs()[1])
    } else if first_far(inst, ds) < ds.len() {
        Some(inst.defs()[first_far(inst, ds)])
    } else {
        None
    }
}

/// The instruction with its output references set.
pub open spec fn with_refs(inst: MInstView, ds: Seq<int>) -> Option<MInstView> {
    match inst {
        MInstOf::Alu1 { var, rd, rss, .. } => Some(
            MInstOf::Alu1 { var, rd, rss, out: ds[0] as u16 },
        ),
        MInstOf::UnaryAlu { op, rd, rs, .. } => Some(
            MInstOf::UnaryAlu { op, rd, rs, out: ds[0] as u16 },
        ),
        MInstOf::Pick { rd, cond, if_zero, if_nonzero, .. } => Some(
            MInstOf::Pick { rd, cond, if_zero, if_nonzero, out: ds[0] as u16 },
        ),
        MInstOf::Load { ty, rd, rs, .. } => Some(MInstOf::Load { ty, rd, rs, out: ds[0] as u16 }),
        MInstOf::Cast { rd, ty, rs, .. } => Some(MInstOf::Cast { rd, ty, rs, out: ds[0] as u16 }),
        MInstOf::EchoLong { rds, rss, .. } => Some(
            MInstOf::EchoLong { rds, rss, out: ds[0] as u16 },
        ),
        MInstOf::Alu2 { var, out_var, rds, rss, outs } => if outs.len() <= ds.len() {
            Some(
                MInstOf::Alu2 {
                    var,
                    out_var,
                    rds,
                    rss,
                    outs: Seq::new(outs.len(), |k: int| ds[k] as u16),
                },
            )
        } else {
            None
        },
        // The second input comes first in production order.
        MInstOf::EchoChain { rd1, rd2, rs1, rs2, rd_chain, rs_chain, .. } => Some(
            MInstOf::EchoChain {
                rd1,
                rd2,
                rs1,
                rs2,
                out1: ds[1] as u16,
                out2: ds[0] as u16,
                rd_chain,
                rs_chain,
            },
        ),
        MInstOf::EchoSplit { rd1, rd2, rs1, rs2, .. } => Some(
            MInstOf::EchoSplit {
                rd1,
                rd2,
                rs1,
                rs2,
                out1: ds[0] as u16,
                out2: ds[1] as u16,
            },
        ),
        MInstOf::Duplicate { rd1, rd2, rs, .. } => Some(
            MInstOf::Duplicate { rd1, rd2, rs, out1: ds[0] as u16, out2: ds[1] as u16 },
        ),
        // Two outputs that go to different consumers are split instead.
        MInstOf::Reorder { rd1, rd2, rs1, rs2, .. } => Some(
            if ds[0] == ds[1] {
                MInstOf::Reorder { rd1, rd2, rs1, rs2, out: ds[0] as u16 }
            } else {
                MInstOf::EchoSplit {
                    rd1,
                    rd2,
                    rs1,
                    rs2,
                    out1: ds[1] as u16,
                    out2: ds[0] as u16,
                }
            },
        ),
        _ => Some(inst),
    }
}

/// What is done about one instruction.
#[verifier::ext_equal]
pub enum Visit {
    /// Its references are set.
    Keep(MInstView),
    /// The block is changed, after which all its instructions are visited anew.
    Edit(BBView, int),
    /// The instruction breaks what the pass relies on.
    Stuck,
}

/// An output without a consumer: the second output of an operation is not
/// produced, any other value is discarded.
pub open spec fn dead_removed(bb: BBView, next: int, i: int, k: int) -> Visit {
    let inst = bb.inst[i];
    if inst is Alu2 && inst.defs().len() == 2 {
        match inst {
            MInstOf::Alu2 { var, out_var, rds, rss, outs } => if k < outs.len() {
                Visit::Edit(
                    BBView {
                        inst: bb.inst.update(
                            i,
                            MInstOf::Alu2 {
                                var,
                                out_var: if k == 1 {
                                    Alu2OutputVariant::LowOnly
                                } else {
                                    Alu2OutputVariant::HighOnly
                                },
                                rds: rds.remove(k),
                                rss,
                                outs: outs.remove(k),
                            },
                        ),
                        ..bb
                    },
                    next,
                )
            } else {
                Visit::Stuck
            },
            _ => Visit::Stuck,
        }
    } else {
        Visit::Edit(
            BBView {
                inst: bb.inst.insert(i + 1, MInstOf::Discard { rss: seq![inst.defs()[k]] }),
                ..bb
            },
            next,
        )
    }
}

/// An echo behind the instruction at `i` that carries its output on under a
/// fresh register.
pub open spec fn bridged(bb: BBView, i: int, rd: Reg, fresh: Reg) -> BBView {
    let b = renamed(bb, rd, fresh);
    BBView {
        inst: b.inst.insert(i + 1, MInstOf::EchoLong { rds: seq![fresh], rss: seq![rd], out: 0 }),
        ..b
    }
}

/// An echo behind the call trigger at `i` that receives its return values.
pub open spec fn received(bb: BBView, i: int, next: int) -> BBView {
    let rss = bb.inst[i].defs();
    let b = renamed_each(bb, rss, next, rss.len() as int);
    BBView {
        inst: b.inst.insert(i + 1, MInstOf::Echo { rds: fresh_regs(next, rss.len()), rss }),
        ..b
    }
}

/// What is done about the instruction at `i`, those behind it being done.
pub open spec fn visit(bb: BBView, next: int, i: int) -> Visit {
    let inst = bb.inst[i];
    if inst is Echo {
        let (chain, n) = expanded(inst, next);
        Visit::Edit(BBView { inst: bb.inst.take(i) + chain + bb.inst.skip(i + 1), ..bb }, n)
    } else if !inst.crossable() || span(bb.inst, i, bb.inst.len() as int) > u16::MAX {
        Visit::Stuck
    } else if first_dead(bb.inst, i) < inst.defs().len() {
        dead_removed(bb, next, i, first_dead(bb.inst, i))
    } else if !consumed_later(bb.inst, i) {
        Visit::Stuck
    } else if inst.defs().len() == 0 {
        Visit::Keep(inst)
    } else {
        let ds = distances(bb.inst, i);
        match bridge_of(inst, ds) {
            Some(rd) => Visit::Edit(bridged(bb, i, rd, vreg(next)), next + 1),
            None => if inst is CallArgs && exists|k: int| 0 <= k < ds.len() && ds[k] > 0 {
                Visit::Edit(received(bb, i, next), next + inst.defs().len())
            } else {
                match with_refs(inst, ds) {
                    Some(done) => Visit::Keep(done),
                    None => Visit::Stuck,
                }
            },
        }
    }
}

/// A block, the index of the next register, and whether all instructions are
/// done.
pub type State = (BBView, int, bool);

/// The instructions below position `k` visited from the last to the first, up to
/// one that changes the block.
pub open spec fn scan(bb: BBView, next: int, k: int) -> Step<State>
    decreases k,
{
    if k <= 0 {
        Step::Next((bb, next, true))
    } else {
        match visit(bb, next, k - 1) {
            Visit::Keep(inst) => scan(
                BBView { inst: bb.inst.update(k - 1, inst), ..bb },
                next,
                k - 1,
            ),
            Visit::Edit(b, n) => Step::Next((b, n, false)),
            Visit::Stuck => Step::Stuck,
        }
    }
}

/// One step: a scan of the block.
pub open spec fn distance_step(s: State) -> Step<State> {
    if s.2 {
        Step::Done
    } else {
        scan(s.0, s.1, s.0.inst.len() as int)
    }
}

/// The steps as a function.
pub open spec fn distance_steps() -> spec_fn(State) -> Step<State> {
    |s: State| distance_step(s)
}


/// Setting references changes neither what an instruction uses nor how operands
/// cross it.
proof fn with_refs_keeps(inst: MInstView, ds: Seq<int>)
    ensures
        with_refs(inst, ds) matches Some(done) ==> {
            &&& done.uses() == inst.uses()
            &&& done.spec_reference_length() == inst.spec_reference_length()
            &&& done.crossable() == inst.crossable()
            &&& done is JumpTrigger <==> inst is JumpTrigger
            &&& inst is JumpTrigger ==> done == inst
            &&& done is Echo <==> inst is Echo
            &&& inst is Reorder || done.defs() == inst.defs()
            &&& inst is Reorder ==> inst.defs().len() == 2 && (done.defs() == inst.defs()
                || done.defs() == seq![inst.defs()[1], inst.defs()[0]])
        },
{
    if let Some(done) = with_refs(inst, ds) {
        assert(done.uses() =~= inst.uses());
        if !(inst is Reorder) {
            assert(done.defs() =~= inst.defs());
        } else if done is Reorder {
            assert(done.defs() =~= inst.defs());
        } else {
            assert(done.defs() =~= seq![inst.defs()[1], inst.defs()[0]]);
        }
    }
}

/// A visit that keeps the block sets the references of the instruction.
proof fn visit_keeps(bb: BBView, next: int, i: int)
    ensures
        visit(bb, next, i) matches Visit::Keep(done) ==> {
            let inst = bb.inst[i];
            &&& done.uses() == inst.uses()
            &&& done.spec_reference_length() == inst.spec_reference_length()
            &&& done.crossable()
            &&& inst.crossable()
            &&& done is JumpTrigger <==> inst is JumpTrigger
            &&& inst is JumpTrigger ==> done == inst
            &&& !(done is Echo)
            &&& !(inst is Echo)
            &&& inst is Reorder || done.defs() == inst.defs()
            &&& inst is Reorder ==> inst.defs().len() == 2 && (done.defs() == inst.defs()
                || done.defs() == seq![inst.defs()[1], inst.defs()[0]])
        },
{
    with_refs_keeps(bb.inst[i], distances(bb.inst, i));
}

/// How many echo pseudo-instructions there are.
spec fn echo_count(insts: Seq<MInstView>) -> nat
    decreases insts.len(),
{
    if insts.len() == 0 {
        0
    } else {
        echo_count(insts.drop_last()) + (if insts.last() is Echo {
            1nat
        } else {
            0nat
        })
    }
}

proof fn echo_count_add(a: Seq<MInstView>, b: Seq<MInstView>)
    ensures
        echo_count(a + b) == echo_count(a) + echo_count(b),
    decreases b.len(),
{
    if b.len() == 0 {
        assert(a + b =~= a);
    } else {
        echo_count_add(a, b.drop_last());
        assert((a + b).drop_last() =~= a + b.drop_last());
    }
}

proof fn echo_count_none(a: Seq<MInstView>)
    requires
        forall|k: int| 0 <= k < a.len() ==> !(#[trigger] a[k] is Echo),
    ensures
        echo_count(a) == 0,
    decreases a.len(),
{
    if a.len() > 0 {
        assert forall|k: int| 0 <= k < a.drop_last().len() implies !(#[trigger] a.drop_last()[k]
            is Echo) by {
            assert(a.drop_last()[k] == a[k]);
        }
        echo_count_none(a.drop_last());
    }
}

proof fn echo_count_update(a: Seq<MInstView>, i: int, x: MInstView)
    requires
        0 <= i < a.len(),
        x is Echo <==> a[i] is Echo,
    ensures
        echo_count(a.update(i, x)) == echo_count(a),
    decreases a.len(),
{
    if i < a.len() - 1 {
        echo_count_update(a.drop_last(), i, x);
        assert(a.update(i, x).drop_last() =~= a.drop_last().update(i, x));
    } else {
        assert(a.update(i, x).drop_last() =~= a.drop_last());
    }
}

/// Whether a register is used.
spec fn used(insts: Seq<MInstView>, r: Reg) -> bool {
    exists|j: int| 0 <= j < insts.len() && (#[trigger] insts[j]).uses().contains(r)
}

/// How many of the registers are not used.
spec fn unused_count(ds: Seq<Reg>, insts: Seq<MInstView>) -> nat
    decreases ds.len(),
{
    if ds.len() == 0 {
        0
    } else {
        unused_count(ds.drop_last(), insts) + (if used(insts, ds.last()) {
            0nat
        } else {
            1nat
        })
    }
}

/// How many definitions are not used from their instruction on.
spec fn dead_count(insts: Seq<MInstView>) -> nat
    decreases insts.len(),
{
    if insts.len() == 0 {
        0
    } else {
        unused_count(insts[0].defs(), insts) + dead_count(insts.skip(1))
    }
}

proof fn unused_count_mono(ds: Seq<Reg>, a: Seq<MInstView>, b: Seq<MInstView>)
    requires
        forall|r: Reg| #[trigger] used(a, r) ==> used(b, r),
    ensures
        unused_count(ds, b) <= unused_count(ds, a),
    decreases ds.len(),
{
    if ds.len() > 0 {
        unused_count_mono(ds.drop_last(), a, b);
    }
}

proof fn unused_count_strict(ds: Seq<Reg>, a: Seq<MInstView>, b: Seq<MInstView>, k: int)
    requires
        forall|r: Reg| #[trigger] used(a, r) ==> used(b, r),
        0 <= k < ds.len(),
        !used(a, ds[k]),
        used(b, ds[k]),
    ensures
        unused_count(ds, b) < unused_count(ds, a),
    decreases ds.len(),
{
    unused_count_mono(ds.drop_last(), a, b);
    if k < ds.len() - 1 {
        unused_count_strict(ds.drop_last(), a, b, k);
    }
}

/// Whether every register used in `a` is used in `b`.
spec fn uses_kept(a: Seq<MInstView>, b: Seq<MInstView>) -> bool {
    forall|r: Reg| #[trigger] used(a, r) ==> used(b, r)
}

proof fn uses_kept_update(a: Seq<MInstView>, i: int, x: MInstView)
    requires
        0 <= i < a.len(),
        x.uses() == a[i].uses(),
    ensures
        uses_kept(a, a.update(i, x)),
        uses_kept(a.update(i, x), a),
{
    let b = a.update(i, x);
    assert forall|r: Reg| #[trigger] used(a, r) implies used(b, r) by {
        let j = choose|j: int| 0 <= j < a.len() && (#[trigger] a[j]).uses().contains(r);
        assert(b[j].uses().contains(r));
    }
    assert forall|r: Reg| #[trigger] used(b, r) implies used(a, r) by {
        let j = choose|j: int| 0 <= j < b.len() && (#[trigger] b[j]).uses().contains(r);
        assert(a[j].uses().contains(r));
    }
}

proof fn uses_kept_insert(a: Seq<MInstView>, i: int, x: MInstView)
    requires
        0 <= i <= a.len(),
    ensures
        uses_kept(a, a.insert(i, x)),
{
    let b = a.insert(i, x);
    assert forall|r: Reg| #[trigger] used(a, r) implies used(b, r) by {
        let j = choose|j: int| 0 <= j < a.len() && (#[trigger] a[j]).uses().contains(r);
        if j < i {
            assert(b[j] == a[j]);
        } else {
            assert(b[j + 1] == a[j]);
        }
    }
}

/// Setting references keeps the number of unused definitions.
proof fn dead_count_keep(a: Seq<MInstView>, i: int, x: MInstView)
    requires
        0 <= i < a.len(),
        x.uses() == a[i].uses(),
        x.defs() == a[i].defs() || (a[i].defs().len() == 2 && x.defs() == seq![
            a[i].defs()[1],
            a[i].defs()[0],
        ]),
    ensures
        dead_count(a.update(i, x)) == dead_count(a),
    decreases a.len(),
{
    let b = a.update(i, x);
    uses_kept_update(a, i, x);
    if i == 0 {
        assert(b.skip(1) =~= a.skip(1));
        unused_count_mono(x.defs(), a, b);
        unused_count_mono(x.defs(), b, a);
        if x.defs() != a[0].defs() {
            reveal_with_fuel(unused_count, 3);
            let ds = a[0].defs();
            let es = x.defs();
            assert(ds.drop_last().last() == ds[0]);
            assert(es.drop_last().last() == es[0]);
            assert(ds.drop_last().drop_last().len() == 0);
            assert(es.drop_last().drop_last().len() == 0);
        }
    } else {
        assert(b.skip(1) =~= a.skip(1).update(i - 1, x));
        dead_count_keep(a.skip(1), i - 1, x);
        unused_count_mono(a[0].defs(), a, b);
        unused_count_mono(a[0].defs(), b, a);
    }
}

/// Discarding an unused definition leaves fewer of them.
proof fn dead_count_discard(a: Seq<MInstView>, i: int, k: int)
    requires
        0 <= i < a.len(),
        0 <= k < a[i].defs().len(),
        !used(a.skip(i), a[i].defs()[k]),
    ensures
        dead_count(a.insert(i + 1, MInstOf::Discard { rss: seq![a[i].defs()[k]] })) < dead_count(a),
    decreases a.len(),
{
    let x: MInstView = MInstOf::Discard { rss: seq![a[i].defs()[k]] };
    let b = a.insert(i + 1, x);
    uses_kept_insert(a, i + 1, x);
    if i == 0 {
        let r = a[0].defs()[k];
        assert(a.skip(0) =~= a);
        assert(x.uses()[0] == r);
        assert(b[1].uses().contains(r));
        unused_count_strict(a[0].defs(), a, b, k);
        assert(b.skip(1)[0] == x);
        assert(b.skip(1).skip(1) =~= a.skip(1));
        assert(x.defs().len() == 0);
        assert(unused_count(x.defs(), b.skip(1)) == 0);
        assert(dead_count(b.skip(1)) == dead_count(a.skip(1)));
    } else {
        assert(a.skip(1).skip(i - 1) =~= a.skip(i));
        dead_count_discard(a.skip(1), i - 1, k);
        assert(b.skip(1) =~= a.skip(1).insert(i, x));
        unused_count_mono(a[0].defs(), a, b);
    }
}

proof fn unused_count_remove(ds: Seq<Reg>, insts: Seq<MInstView>, k: int)
    requires
        0 <= k < ds.len(),
        !used(insts, ds[k]),
    ensures
        unused_count(ds.remove(k), insts) + 1 == unused_count(ds, insts),
    decreases ds.len(),
{
    if k < ds.len() - 1 {
        unused_count_remove(ds.drop_last(), insts, k);
        assert(ds.remove(k).drop_last() =~= ds.drop_last().remove(k));
    } else {
        assert(ds.remove(k) =~= ds.drop_last());
    }
}

/// Not producing an unused definition leaves fewer of them.
proof fn dead_count_remove(a: Seq<MInstView>, i: int, k: int, x: MInstView)
    requires
        0 <= i < a.len(),
        0 <= k < a[i].defs().len(),
        !used(a.skip(i), a[i].defs()[k]),
        x.uses() == a[i].uses(),
        x.defs() == a[i].defs().remove(k),
    ensures
        dead_count(a.update(i, x)) < dead_count(a),
    decreases a.len(),
{
    let b = a.update(i, x);
    uses_kept_update(a, i, x);
    if i == 0 {
        assert(a.skip(0) =~= a);
        assert(b.skip(1) =~= a.skip(1));
        unused_count_remove(a[0].defs(), a, k);
        unused_count_mono(x.defs(), a, b);
    } else {
        assert(a.skip(1).skip(i - 1) =~= a.skip(i));
        dead_count_remove(a.skip(1), i - 1, k, x);
        assert(b.skip(1) =~= a.skip(1).update(i - 1, x));
        unused_count_mono(a[0].defs(), a, b);
    }
}

/// A definition without a consumer is not used from its instruction on.
proof fn unfound_is_unused(insts: Seq<MInstView>, i: int, r: Reg, n: int)
    requires
        0 <= i <= n <= insts.len(),
        use_below(insts, i, r, n) < 0,
    ensures
        forall|j: int| i <= j < n ==> !(#[trigger] insts[j]).uses().contains(r),
    decreases n - i,
{
    if i < n {
        unfound_is_unused(insts, i, r, n - 1);
    }
}

/// Whether the measure of the work left goes down.
spec fn less_work(a: Seq<MInstView>, b: Seq<MInstView>) -> bool {
    echo_count(b) < echo_count(a) || (echo_count(b) == echo_count(a) && dead_count(b)
        < dead_count(a))
}

/// An edit takes registers or leaves less work.
proof fn edit_progresses(bb: BBView, next: int, i: int)
    requires
        0 <= i < bb.inst.len(),
    ensures
        visit(bb, next, i) matches Visit::Edit(b, n) ==> {
            &&& n >= next
            &&& n > next || less_work(bb.inst, b.inst)
            &&& b.vcode_bb == bb.vcode_bb
        },
{
    let inst = bb.inst[i];
    let insts = bb.inst;
    if let Visit::Edit(b, n) = visit(bb, next, i) {
        if let MInstOf::Echo { rds, rss } = inst {
            let ops = zipped(rds, rss);
            chain_of_grows(ops, next);
            let chain = expanded(inst, next).0;
            assert forall|k: int| 0 <= k < chain.len() implies !(#[trigger] chain[k] is Echo) by {
                let g = crate::chain::first_group(ops.len() as int);
                crate::passes::echoes::chain_is_concrete(ops.take(g), ops.skip(g), next, k);
            }
            echo_count_none(chain);
            echo_count_add(insts.take(i), chain);
            echo_count_add(insts.take(i) + chain, insts.skip(i + 1));
            assert(insts =~= insts.take(i) + (seq![inst] + insts.skip(i + 1)));
            echo_count_add(insts.take(i), seq![inst] + insts.skip(i + 1));
            echo_count_add(seq![inst], insts.skip(i + 1));
            reveal_with_fuel(echo_count, 2);
        } else if first_dead(insts, i) < inst.defs().len() {
            let k = first_dead(insts, i);
            let p = |k: int| use_at(insts, i, insts[i].defs()[k]) < 0;
            first_from_is_least(p, 0, inst.defs().len() as int);
            assert(p(k));
            unfound_is_unused(insts, i, inst.defs()[k], insts.len() as int);
            assert(!used(insts.skip(i), inst.defs()[k])) by {
                if used(insts.skip(i), inst.defs()[k]) {
                    let j = choose|j: int|
                        0 <= j < insts.skip(i).len() && (
                        #[trigger] insts.skip(i)[j]).uses().contains(inst.defs()[k]);
                    assert(insts[i + j].uses().contains(inst.defs()[k]));
                }
            }
            if inst is Alu2 && inst.defs().len() == 2 {
                let x = b.inst[i];
                echo_count_update(insts, i, x);
                dead_count_remove(insts, i, k, x);
            } else {
                let x: MInstView = MInstOf::Discard { rss: seq![inst.defs()[k]] };
                dead_count_discard(insts, i, k);
                assert(b.inst =~= insts.take(i + 1) + (seq![x] + insts.skip(i + 1)));
                assert(insts =~= insts.take(i + 1) + insts.skip(i + 1));
                echo_count_add(insts.take(i + 1), seq![x] + insts.skip(i + 1));
                echo_count_add(seq![x], insts.skip(i + 1));
                echo_count_add(insts.take(i + 1), insts.skip(i + 1));
                reveal_with_fuel(echo_count, 2);
            }
        } else if bridge_of(inst, distances(insts, i)) is Some {
        } else {
            renamed_each_keeps(bb, inst.defs(), next, inst.defs().len() as int);
        }
    }
}

/// A scan that does not finish takes registers or leaves less work.
proof fn scan_progresses(bb: BBView, next: int, k: int)
    requires
        k <= bb.inst.len(),
    ensures
        !(scan(bb, next, k) is Done),
        scan(bb, next, k) matches Step::Next((b, n, done)) ==> {
            &&& n >= next
            &&& done || n > next || less_work(bb.inst, b.inst)
            &&& b.vcode_bb == bb.vcode_bb
        },
    decreases k,
{
    if k > 0 {
        match visit(bb, next, k - 1) {
            Visit::Keep(inst) => {
                visit_keeps(bb, next, k - 1);
                echo_count_update(bb.inst, k - 1, inst);
                dead_count_keep(bb.inst, k - 1, inst);
                scan_progresses(
                    BBView { inst: bb.inst.update(k - 1, inst), ..bb },
                    next,
                    k - 1,
                );
            },
            _ => {
                edit_progresses(bb, next, k - 1);
            },
        }
    }
}

/// The last instruction from `i` on that uses a register.
fn find_use(insts: &Vec<MInst>, i: usize, r: Reg) -> (u: Option<usize>)
    requires
        i <= insts@.len(),
    ensures
        match u {
            Some(u) => u == use_at(views(insts@), i as int, r) && i <= u < insts@.len()
                && insts@[u as int]@.uses().contains(r),
            None => use_at(views(insts@), i as int, r) < 0,
        },
{
    let ghost all = views(insts@);
    let mut n: usize = insts.len();
    while n > i
        invariant
            i <= n <= insts@.len(),
            all == views(insts@),
            use_at(all, i as int, r) == use_below(all, i as int, r, n as int),
        decreases n,
    {
        n = n - 1;
        assert(all[n as int] == insts@[n as int]@);
        let uses = insts[n].get_uses();
        if contains_reg(&uses, r) {
            return Some(n);
        }
    }
    None
}

/// Whether operands may cross all instructions from `i` on.
spec fn all_crossable(insts: Seq<MInstView>, i: int) -> bool {
    forall|j: int| i <= j < insts.len() ==> (#[trigger] insts[j]).crossable()
}

/// Spans are not negative, and a part of one is no longer than the whole.
proof fn span_bounds(insts: Seq<MInstView>, i: int, j: int, n: int)
    requires
        0 <= i <= j <= n <= insts.len(),
        all_crossable(insts, i),
    ensures
        0 <= span(insts, i, j) <= span(insts, i, n),
        span(insts, i, n) == span(insts, i, j) + span(insts, j, n),
        0 <= span(insts, j, n),
    decreases n - i,
{
    if i < n {
        crate::length::emitted_length_bounds(insts[i]);
        if i < j {
            span_bounds(insts, i + 1, j, n);
        } else {
            span_bounds(insts, i + 1, i + 1, n);
        }
    }
}

/// How far operands in flight travel from position `i` to position `j`.
fn measure_span(insts: &Vec<MInst>, i: usize, j: usize) -> (r: usize)
    requires
        i <= j <= insts@.len(),
        all_crossable(views(insts@), i as int),
        span(views(insts@), i as int, insts@.len() as int) <= u16::MAX,
    ensures
        r == span(views(insts@), i as int, j as int),
        r <= u16::MAX,
{
    let ghost all = views(insts@);
    proof {
        span_bounds(all, i as int, j as int, insts@.len() as int);
    }
    let mut k: usize = j;
    let mut total: usize = 0;
    while k > i
        invariant
            i <= k <= j <= insts@.len(),
            all == views(insts@),
            all_crossable(all, i as int),
            span(all, i as int, j as int) <= u16::MAX,
            total == span(all, k as int, j as int),
        decreases k,
    {
        k = k - 1;
        assert(all[k as int] == insts@[k as int]@);
        let len: usize = insts[k].reference_length();
        proof {
            span_bounds(all, i as int, k as int, j as int);
        }
        total = len + total;
    }
    total
}

/// The distance from an instruction to the consumer of its output, where there
/// is one behind it at a distance that can be counted.
fn measure_distance(insts: &Vec<MInst>, i: usize, r: Reg) -> (d: Option<u16>)
    requires
        i < insts@.len(),
        all_crossable(views(insts@), i as int),
        span(views(insts@), i as int, insts@.len() as int) <= u16::MAX,
    ensures
        match d {
            Some(d) => d == distance(views(insts@), i as int, r) && use_at(
                views(insts@),
                i as int,
                r,
            ) > i,
            None => use_at(views(insts@), i as int, r) <= i || distance(
                views(insts@),
                i as int,
                r,
            ) > u16::MAX,
        },
{
    let ghost all = views(insts@);
    let u: usize = match find_use(insts, i, r) {
        Some(u) => u,
        None => {
            return None;
        },
    };
    if u == i {
        return None;
    }
    proof {
        span_bounds(all, i as int, i + 1, all.len() as int);
    }
    let base: usize = measure_span(insts, i + 1, u);
    assert(all[u as int] == insts@[u as int]@);
    let more: usize = match &insts[u] {
        MInst::JumpTrigger { args, .. } => {
            let place: usize = find_place(args, r);
            delivery_group(place)
        },
        _ => 0,
    };
    if more > 65535 || base + more > 65535 {
        return None;
    }
    Some((base + more) as u16)
}

/// The distances as integers.
spec fn ints(ds: Seq<u16>) -> Seq<int> {
    Seq::new(ds.len(), |k: int| ds[k] as int)
}

/// The distances of the outputs of an instruction.
fn measure_distances(insts: &Vec<MInst>, i: usize) -> (r: Option<Vec<u16>>)
    requires
        i < insts@.len(),
        all_crossable(views(insts@), i as int),
        span(views(insts@), i as int, insts@.len() as int) <= u16::MAX,
    ensures
        match r {
            Some(ds) => consumed_later(views(insts@), i as int) && ints(ds@) == distances(
                views(insts@),
                i as int,
            ),
            None => !consumed_later(views(insts@), i as int),
        },
{
    let ghost all = views(insts@);
    assert(all[i as int] == insts@[i as int]@);
    let defs = insts[i].get_defs();
    let mut ds: Vec<u16> = Vec::new();
    for k in 0..defs.len()
        invariant
            all == views(insts@),
            i < insts@.len(),
            defs@ == all[i as int].defs(),
            all_crossable(all, i as int),
            span(all, i as int, all.len() as int) <= u16::MAX,
            ds@.len() == k,
            forall|j: int|
                0 <= j < k ==> use_at(all, i as int, #[trigger] defs@[j]) > i && distance(
                    all,
                    i as int,
                    defs@[j],
                ) == ds@[j],
    {
        match measure_distance(insts, i, defs[k]) {
            Some(d) => {
                ds.push(d);
            },
            None => {
                assert(!consumed_later(all, i as int)) by {
                    let r = all[i as int].defs()[k as int];
                    assert(r == defs@[k as int]);
                }
                return None;
            },
        }
    }
    proof {
        assert forall|k: int| 0 <= k < all[i as int].defs().len() implies use_at(
            all,
            i as int,
            #[trigger] all[i as int].defs()[k],
        ) > i && distance(all, i as int, all[i as int].defs()[k]) <= u16::MAX by {
            assert(defs@[k] == all[i as int].defs()[k]);
        }
        assert forall|k: int| 0 <= k < ds@.len() implies ints(ds@)[k] == distances(
            all,
            i as int,
        )[k] by {
            assert(defs@[k] == all[i as int].defs()[k]);
        }
        assert(ints(ds@) =~= distances(all, i as int));
    }
    Some(ds)
}

/// The first output without a consumer.
fn find_dead(insts: &Vec<MInst>, i: usize) -> (r: Option<usize>)
    requires
        i < insts@.len(),
    ensures
        match r {
            Some(k) => k == first_dead(views(insts@), i as int) && k < insts@[i as int]@.defs().len(),
            None => first_dead(views(insts@), i as int) >= insts@[i as int]@.defs().len(),
        },
{
    let ghost all = views(insts@);
    assert(all[i as int] == insts@[i as int]@);
    let defs = insts[i].get_defs();
    let ghost p = |k: int| use_at(all, i as int, all[i as int].defs()[k]) < 0;
    for k in 0..defs.len()
        invariant
            all == views(insts@),
            i < insts@.len(),
            defs@ == all[i as int].defs(),
            p == (|k: int| use_at(all, i as int, all[i as int].defs()[k]) < 0),
            first_dead(all, i as int) == first_from(p, k as int, defs@.len() as int),
    {
        match find_use(insts, i, defs[k]) {
            Some(_) => {
                assert(!p(k as int));
            },
            None => {
                assert(p(k as int));
                return Some(k);
            },
        }
    }
    None
}

/// The output that must be carried on by an echo.
fn find_bridge(inst: &MInst, ds: &Vec<u16>) -> (r: Option<Reg>)
    requires
        ds@.len() == inst@.defs().len(),
        ds@.len() > 0,
    ensures
        r == bridge_of(inst@, ints(ds@)),
{
    let defs = inst.get_defs();
    let next: bool = match inst {
        MInst::Const { .. }
        | MInst::LoadExtName { .. }
        | MInst::JumpOffset { .. }
        | MInst::LoadStack { .. }
        | MInst::SAddr { .. } => true,
        _ => false,
    };
    assert(ints(ds@)[0] == ds@[0]);
    if next && ds[0] > 0 {
        return Some(defs[0]);
    }
    let alu2: bool = match inst {
        MInst::Alu2 { .. } => true,
        _ => false,
    };
    if alu2 && ds.len() == 2 {
        assert(ints(ds@)[1] == ds@[1]);
        if ds[0] != ds[1] && ds[0] > 0 && ds[1] > 0 {
            return Some(defs[1]);
        }
    }
    let max: u16 = match inst {
        MInst::EchoLong { .. } => 1023,
        _ => 31,
    };
    let ghost all = ints(ds@);
    let ghost view = inst@;
    let ghost p = |k: int| all[k] > max_ref(view);
    for k in 0..ds.len()
        invariant
            all == ints(ds@),
            view == inst@,
            max == max_ref(view),
            defs@ == view.defs(),
            ds@.len() == defs@.len(),
            p == (|k: int| all[k] > max_ref(view)),
            first_far(view, all) == first_from(p, k as int, all.len() as int),
            !(next_only(view) && all[0] > 0),
            !(view is Alu2 && view.defs().len() == 2 && all[0] != all[1] && all[0] > 0 && all[1]
                > 0),
    {
        assert(all[k as int] == ds@[k as int]);
        if ds[k] > max {
            assert(p(k as int));
            return Some(defs[k]);
        }
        assert(!p(k as int));
    }
    None
}

/// Sets the output references of an instruction.
#[verifier::rlimit(40)]
fn set_refs(inst: &MInst, ds: &Vec<u16>) -> (r: Option<MInst>)
    requires
        ds@.len() == inst@.defs().len(),
        ds@.len() > 0,
    ensures
        match r {
            Some(done) => with_refs(inst@, ints(ds@)) == Some(done@),
            None => with_refs(inst@, ints(ds@)) is None,
        },
{
    let mut done = inst.copy();
    let ghost all = ints(ds@);
    assert(all[0] == ds@[0]);
    assert(ds@.len() > 1 ==> all[1] == ds@[1]);
    let d0: u16 = ds[0];
    let mut split: Option<MInst> = None;
    match &mut done {
        MInst::Alu1 { out, .. } => {
            *out = d0;
        },
        MInst::UnaryAlu { out, .. } => {
            *out = d0;
        },
        MInst::Pick { out, .. } => {
            *out = d0;
        },
        MInst::Load { out, .. } => {
            *out = d0;
        },
        MInst::Cast { out, .. } => {
            *out = d0;
        },
        MInst::EchoLong { out, .. } => {
            *out = d0;
        },
        MInst::Alu2 { outs, .. } => {
            let n: usize = outs.len();
            if n > ds.len() {
                return None;
            }
            let mut refs: Vec<u16> = Vec::new();
            for k in 0..n
                invariant
                    n <= ds@.len(),
                    all == ints(ds@),
                    refs@ == Seq::new(k as nat, |k: int| all[k] as u16),
            {
                refs.push(ds[k]);
                assert(refs@ =~= Seq::new((k + 1) as nat, |k: int| all[k] as u16));
            }
            *outs = refs;
        },
        MInst::EchoChain { out1, out2, .. } => {
            *out1 = ds[1];
            *out2 = d0;
        },
        MInst::EchoSplit { out1, out2, .. } => {
            *out1 = d0;
            *out2 = ds[1];
        },
        MInst::Duplicate { out1, out2, .. } => {
            *out1 = d0;
            *out2 = ds[1];
        },
        MInst::Reorder { rd1, rd2, rs1, rs2, out } => {
            if d0 == ds[1] {
                *out = d0;
            } else {
                split = Some(
                    MInst::EchoSplit {
                        rd1: *rd1,
                        rd2: *rd2,
                        rs1: *rs1,
                        rs2: *rs2,
                        out1: ds[1],
                        out2: d0,
                    },
                );
            }
        },
        _ => {},
    }
    match split {
        Some(echo) => Some(echo),
        None => Some(done),
    }
}

/// What became of a visited instruction.
pub enum Outcome {
    /// Its references are set.
    Kept,
    /// The block was changed.
    Edited,
}

/// Expands the echo at `i`.
fn visit_echo(b: &mut VCodeBB, i: usize, vregs: &mut VRegAllocator) -> (r: Result<
    Outcome,
    CodegenError,
>)
    requires
        i < old(b).inst@.len(),
        old(b)@.inst[i as int] is Echo,
        old(vregs).wf(),
    ensures
        final(vregs).wf(),
        match r {
            Ok(Outcome::Edited) => visit(old(b)@, old(vregs).next as int, i as int) == Visit::Edit(
                final(b)@,
                final(vregs).next as int,
            ),
            Ok(Outcome::Kept) => false,
            Err(e) => visit(old(b)@, old(vregs).next as int, i as int)->Edit_1 > VREG_LIMIT && visit(
                old(b)@,
                old(vregs).next as int,
                i as int,
            ) is Edit && ran_out(e, final(vregs).next),
        },
{
    assert(b@.inst[i as int] == b.inst@[i as int]@);
    let ops = match &b.inst[i] {
        MInst::Echo { rds, rss } => zip_regs(rds, rss),
        _ => Vec::new(),
    };
    let chain = match MInst::receive_chain(&ops, vregs) {
        Ok(chain) => chain,
        Err(e) => {
            return Err(e);
        },
    };
    let n: usize = b.inst.len();
    b.inst = replace_range(&b.inst, i, i + 1, chain);
    Ok(Outcome::Edited)
}

/// Removes the output `k` of the instruction at `i`, which has no consumer.
fn remove_dead(b: &mut VCodeBB, i: usize, k: usize, Ghost(next): Ghost<int>) -> (r: Result<
    Outcome,
    CodegenError,
>)
    requires
        i < old(b).inst@.len(),
        k < old(b)@.inst[i as int].defs().len(),
    ensures
        match r {
            Ok(Outcome::Edited) => dead_removed(old(b)@, next, i as int, k as int) == Visit::Edit(
                final(b)@,
                next,
            ),
            Ok(Outcome::Kept) => false,
            Err(e) => dead_removed(old(b)@, next, i as int, k as int) is Stuck && e is Malformed,
        },
{
    let ghost before = b@;
    assert(before.inst[i as int] == b.inst@[i as int]@);
    let mut one = b.inst[i].copy();
    let defs = one.get_defs();
    let count: usize = defs.len();
    let dead = defs[k];
    let mut cut: bool = false;
    match &mut one {
        MInst::Alu2 { out_var, rds, outs, .. } => {
            if count == 2 {
                if k >= outs.len() {
                    return Err(CodegenError::Malformed);
                }
                rds.remove(k);
                outs.remove(k);
                *out_var = if k == 1 {
                    Alu2OutputVariant::LowOnly
                } else {
                    Alu2OutputVariant::HighOnly
                };
                cut = true;
            }
        },
        _ => {},
    }
    if cut {
        b.inst.set(i, one);
    } else {
        let n: usize = b.inst.len();
        let rss: Vec<Reg> = vec![dead];
        assert(rss@ =~= seq![dead]);
        b.inst.insert(i + 1, MInst::Discard { rss });
        assert(b@.inst =~= before.inst.insert(
            i + 1,
            MInstOf::Discard { rss: seq![before.inst[i as int].defs()[k as int]] },
        ));
    }
    Ok(Outcome::Edited)
}

/// Carries the output `rd` of the instruction at `i` on by an echo.
fn insert_bridge(b: &mut VCodeBB, i: usize, rd: Reg, fresh: Reg)
    requires
        i < old(b).inst@.len(),
    ensures
        final(b)@ == bridged(old(b)@, i as int, rd, fresh),
{
    let n: usize = b.inst.len();
    let ghost before = b@;
    b.replace_all_uses(rd, fresh);
    assert(b@.inst.len() == before.inst.len());
    let rds: Vec<Reg> = vec![fresh];
    let rss: Vec<Reg> = vec![rd];
    assert(rds@ =~= seq![fresh]);
    assert(rss@ =~= seq![rd]);
    b.inst.insert(i + 1, MInst::EchoLong { rds, rss, out: 0 });
    assert(b@ =~= bridged(before, i as int, rd, fresh));
}

/// Receives the return values of the call trigger at `i` by an echo.
fn insert_receiver(b: &mut VCodeBB, i: usize, vregs: &mut VRegAllocator) -> (r: Result<
    Outcome,
    CodegenError,
>)
    requires
        i < old(b).inst@.len(),
        old(vregs).wf(),
    ensures
        final(vregs).wf(),
        match r {
            Ok(Outcome::Edited) => {
                &&& final(b)@ == received(old(b)@, i as int, old(vregs).next as int)
                &&& final(vregs).next == old(vregs).next + old(b)@.inst[i as int].defs().len()
            },
            Ok(Outcome::Kept) => false,
            Err(e) => old(vregs).next + old(b)@.inst[i as int].defs().len() > VREG_LIMIT
                && ran_out(e, final(vregs).next),
        },
{
    let n: usize = b.inst.len();
    let ghost before = b@;
    assert(before.inst[i as int] == b.inst@[i as int]@);
    let rss = b.inst[i].get_defs();
    let rds = match b.replace_by_fresh(&rss, vregs) {
        Ok(rds) => rds,
        Err(e) => {
            return Err(e);
        },
    };
    proof {
        renamed_each_keeps(before, rss@, old(vregs).next as int, rss@.len() as int);
    }
    assert(b@.inst.len() == before.inst.len());
    b.inst.insert(i + 1, MInst::Echo { rds, rss });
    assert(b@ =~= received(before, i as int, old(vregs).next as int));
    Ok(Outcome::Edited)
}

/// Whether the outcome of a visit is the one given.
spec fn visited(
    v: Visit,
    b0: BBView,
    i: int,
    b: BBView,
    next0: int,
    next: int,
    r: Result<Outcome, CodegenError>,
) -> bool {
    match r {
        Ok(Outcome::Kept) => {
            &&& v is Keep
            &&& b == (BBView { inst: b0.inst.update(i, v->Keep_0), ..b0 })
            &&& next == next0
        },
        Ok(Outcome::Edited) => v == Visit::Edit(b, next),
        Err(e) => (v is Stuck && e is Malformed) || (v is Edit && v->Edit_1 > VREG_LIMIT
            && ran_out(e, next as u32)),
    }
}

/// Visits the instruction at `i`.
#[verifier::rlimit(60)]
fn visit_inst(b: &mut VCodeBB, i: usize, after: usize, vregs: &mut VRegAllocator) -> (r: Result<
    Outcome,
    CodegenError,
>)
    requires
        i < old(b).inst@.len(),
        old(vregs).wf(),
        all_crossable(old(b)@.inst, i + 1),
        after == span(old(b)@.inst, i + 1, old(b)@.inst.len() as int),
        after <= u16::MAX,
    ensures
        final(vregs).wf(),
        visited(
            visit(old(b)@, old(vregs).next as int, i as int),
            old(b)@,
            i as int,
            final(b)@,
            old(vregs).next as int,
            final(vregs).next as int,
            r,
        ),
{
    let ghost before = b@;
    let ghost insts = before.inst;
    let ghost next = vregs.next as int;
    assert(insts[i as int] == b.inst@[i as int]@);
    match &b.inst[i] {
        MInst::Echo { .. } => {
            return visit_echo(b, i, vregs);
        },
        MInst::DoubleAlu { .. } | MInst::ImmJump { .. } | MInst::StoreStackArg { .. } => {
            return Err(CodegenError::Malformed);
        },
        MInst::Const { ty, .. } => {
            match ty {
                crate::isatype::IsaType::Known(t) => {
                    if t.size_pow2() > 3 {
                        return Err(CodegenError::Malformed);
                    }
                },
                _ => {},
            }
        },
        MInst::JumpOffset { size_pow2, .. } => {
            if *size_pow2 > 3 {
                return Err(CodegenError::Malformed);
            }
        },
        _ => {},
    }
    assert(insts[i as int].crossable());
    let len: usize = b.inst[i].reference_length();
    if len > 65535 || after + len > 65535 {
        return Err(CodegenError::Malformed);
    }
    assert(span(insts, i as int, insts.len() as int) == len + after);
    match find_dead(&b.inst, i) {
        Some(k) => {
            return remove_dead(b, i, k, Ghost(next));
        },
        None => {},
    }
    let ds = match measure_distances(&b.inst, i) {
        Some(ds) => ds,
        None => {
            return Err(CodegenError::Malformed);
        },
    };
    assert(ints(ds@).len() == insts[i as int].defs().len());
    if ds.len() == 0 {
        assert(insts.update(i as int, insts[i as int]) =~= insts);
        return Ok(Outcome::Kept);
    }
    match find_bridge(&b.inst[i], &ds) {
        Some(rd) => {
            let fresh = match vregs.fresh() {
                Ok(fresh) => fresh,
                Err(e) => {
                    return Err(e);
                },
            };
            insert_bridge(b, i, rd, fresh);
            return Ok(Outcome::Edited);
        },
        None => {},
    }
    let call: bool = match &b.inst[i] {
        MInst::CallArgs { .. } => true,
        _ => false,
    };
    if call {
        for k in 0..ds.len()
            invariant
                forall|j: int| 0 <= j < k ==> #[trigger] ds@[j] == 0,
                i < b.inst@.len(),
                b@ == before,
                insts == before.inst,
                vregs.wf(),
                before == old(b)@,
                next == vregs.next,
                vregs.next == old(vregs).next,
                insts[i as int] is CallArgs,
                ints(ds@) == distances(insts, i as int),
                ds@.len() > 0,
                ds@.len() == insts[i as int].defs().len(),
                insts[i as int].crossable(),
                span(insts, i as int, insts.len() as int) <= u16::MAX,
                first_dead(insts, i as int) >= insts[i as int].defs().len(),
                consumed_later(insts, i as int),
                bridge_of(insts[i as int], ints(ds@)) is None,
        {
            if ds[k] > 0 {
                assert(ints(ds@)[k as int] > 0);
                return insert_receiver(b, i, vregs);
            }
        }
        assert(!(exists|k: int|
            0 <= k < distances(insts, i as int).len() && distances(insts, i as int)[k] > 0)) by {
            if exists|k: int|
                0 <= k < distances(insts, i as int).len() && distances(insts, i as int)[k] > 0 {
                let k = choose|k: int|
                    0 <= k < distances(insts, i as int).len() && distances(insts, i as int)[k] > 0;
                assert(ints(ds@)[k] == ds@[k]);
            }
        }
    }
    match set_refs(&b.inst[i], &ds) {
        Some(done) => {
            b.inst.set(i, done);
            Ok(Outcome::Kept)
        },
        None => Err(CodegenError::Malformed),
    }
}

/// Spans do not change with the references.
proof fn span_update(a: Seq<MInstView>, i: int, x: MInstView, j: int, n: int)
    requires
        0 <= i < a.len(),
        0 <= j,
        n <= a.len(),
        x.spec_reference_length() == a[i].spec_reference_length(),
    ensures
        span(a.update(i, x), j, n) == span(a, j, n),
    decreases n - j,
{
    if j < n {
        span_update(a, i, x, j + 1, n);
    }
}

/// Visits the instructions of a block from the last to the first, up to one that
/// changes the block. Returns whether all were visited.
fn scan_block(b: &mut VCodeBB, vregs: &mut VRegAllocator) -> (r: Result<bool, CodegenError>)
    requires
        old(vregs).wf(),
    ensures
        final(vregs).wf(),
        ({
            let s = scan(old(b)@, old(vregs).next as int, old(b)@.inst.len() as int);
            match r {
                Ok(done) => s == Step::Next((final(b)@, final(vregs).next as int, done)),
                Err(e) => (s is Stuck && e is Malformed) || (s is Next && s->Next_0.1 > VREG_LIMIT
                    && ran_out(e, final(vregs).next)),
            }
        }),
{
    let ghost start = b@;
    let ghost next = vregs.next as int;
    let mut k: usize = b.inst.len();
    let mut after: usize = 0;
    while k > 0
        invariant
            k <= b.inst@.len(),
            vregs.wf(),
            next == vregs.next,
            next == old(vregs).next,
            start == old(b)@,
            scan(start, next, start.inst.len() as int) == scan(b@, next, k as int),
            all_crossable(b@.inst, k as int),
            after == span(b@.inst, k as int, b@.inst.len() as int),
            after <= u16::MAX,
        decreases k,
    {
        k = k - 1;
        let ghost b0 = b@;
        proof {
            visit_keeps(b0, next, k as int);
            edit_progresses(b0, next, k as int);
        }
        match visit_inst(b, k, after, vregs) {
            Ok(Outcome::Kept) => {},
            Ok(Outcome::Edited) => {
                return Ok(false);
            },
            Err(e) => {
                return Err(e);
            },
        }
        assert(b@.inst[k as int] == b.inst@[k as int]@);
        let ghost done = visit(b0, next, k as int)->Keep_0;
        assert(b@.inst[k as int] == done);
        let len: usize = b.inst[k].reference_length();
        proof {
            span_update(b0.inst, k as int, done, k + 1, b0.inst.len() as int);
            span_update(b0.inst, k as int, done, k as int, b0.inst.len() as int);
            assert forall|j: int| k <= j < b@.inst.len() implies (#[trigger] b@.inst[j]).crossable() by {
                if j > k {
                    assert(b@.inst[j] == b0.inst[j]);
                }
            }
        }
        after = after + len;
    }
    Ok(true)
}

/// The steps only take registers and keep the block's name.
proof fn steps_grow(bb: BBView, next: int, done: bool)
    ensures
        settled(distance_steps(), (bb, next, done)) matches Some((b, n, _)) ==> n >= next
            && b.vcode_bb == bb.vcode_bb,
{
    if settled(distance_steps(), (bb, next, done)) is Some {
        let keeps = |s: State| s.1 >= next && s.0.vcode_bb == bb.vcode_bb;
        assert forall|x: State| #[trigger] keeps(x) && distance_steps()(x) is Next implies keeps(
            distance_steps()(x)->Next_0,
        ) by {
            scan_progresses(x.0, x.1, x.0.inst.len() as int);
        }
        settled_keeps(distance_steps(), (bb, next, done), keeps);
    }
}

/// Sets the references of a block.
pub struct InsertRefDistances;

impl BlockPass for InsertRefDistances {
    open spec fn ready(&self) -> bool {
        true
    }

    open spec fn rewritten(&self, v: int, bb: BBView, next: int) -> Option<(BBView, int)> {
        match settled(distance_steps(), (bb, next, false)) {
            Some((b, n, _)) => Some((b, n)),
            None => None,
        }
    }

    proof fn grows(&self, v: int, bb: BBView, next: int) {
        steps_grow(bb, next, false);
    }

    fn run(&self, v: usize, bb: &VCodeBB, vregs: &mut VRegAllocator) -> Result<
        VCodeBB,
        CodegenError,
    > {
        let ghost whole = settled(distance_steps(), (bb@, vregs.next as int, false));
        let mut b = bb.copy();
        loop
            invariant
                vregs.wf(),
                whole == settled(distance_steps(), (b@, vregs.next as int, false)),
                whole == settled(distance_steps(), (bb@, old(vregs).next as int, false)),
            decreases VREG_LIMIT - vregs.next, echo_count(b@.inst), dead_count(b@.inst),
        {
            let ghost s = (b@, vregs.next as int, false);
            proof {
                scan_progresses(s.0, s.1, s.0.inst.len() as int);
            }
            match scan_block(&mut b, vregs) {
                Ok(done) => {
                    proof {
                        settled_next(distance_steps(), s);
                    }
                    if done {
                        proof {
                            settled_done(distance_steps(), (b@, vregs.next as int, true));
                        }
                        return Ok(b);
                    }
                },
                Err(e) => {
                    proof {
                        match distance_steps()(s) {
                            Step::Next(t) => {
                                settled_next(distance_steps(), s);
                                steps_grow(t.0, t.1, t.2);
                            },
                            _ => {
                                settled_stuck(distance_steps(), s);
                            },
                        }
                    }
                    return Err(e);
                },
            }
        }
    }
}

/// Sets the output references of all instructions. Values without a consumer
/// are discarded, and echoes carry on the values that an instruction cannot send
/// far enough.
pub fn insert_ref_distances(cfg: VCodeCFG, vregs: &mut VRegAllocator) -> (r: Result<
    VCodeCFG,
    CodegenError,
>)
    requires
        old(vregs).wf(),
        cfg.wf(),
    ensures
        final(vregs).wf(),
        match r {
            Ok(c) => {
                &&& c.wf()
                &&& c.graph == cfg.graph
                &&& c.root == cfg.root
                &&& all_rewritten(InsertRefDistances, cfg.bbs(), old(vregs).next as int) == Some(
                    (c.bbs(), final(vregs).next as int),
                )
            },
            Err(e) => refused(
                all_rewritten(InsertRefDistances, cfg.bbs(), old(vregs).next as int),
                e,
                final(vregs).next,
            ),
        },
{
    run_pass(&InsertRefDistances, cfg, vregs)
}

/// The reference with which an instruction sends its output `k`, in production
/// order, where its encoding has one. Some outputs always go to the next
/// instruction.
pub open spec fn output_ref(inst: MInstView, k: int) -> Option<int> {
    match inst {
        MInstOf::Alu1 { out, .. } => Some(out as int),
        MInstOf::UnaryAlu { out, .. } => Some(out as int),
        MInstOf::Pick { out, .. } => Some(out as int),
        MInstOf::Load { out, .. } => Some(out as int),
        MInstOf::Cast { out, .. } => Some(out as int),
        MInstOf::EchoLong { out, .. } => if k == 0 {
            Some(out as int)
        } else {
            None
        },
        MInstOf::Alu2 { outs, .. } => if k < outs.len() {
            Some(outs[k] as int)
        } else {
            None
        },
        MInstOf::EchoChain { out1, out2, .. } => if k == 0 {
            Some(out2 as int)
        } else if k == 1 {
            Some(out1 as int)
        } else {
            None
        },
        MInstOf::EchoSplit { out1, out2, .. } => Some(
            if k == 0 {
                out1 as int
            } else {
                out2 as int
            },
        ),
        MInstOf::Duplicate { out1, out2, .. } => Some(
            if k == 0 {
                out1 as int
            } else {
                out2 as int
            },
        ),
        MInstOf::Reorder { out, .. } => Some(out as int),
        MInstOf::CallArgs { .. } => Some(0),
        _ => if next_only(inst) {
            Some(0)
        } else {
            None
        },
    }
}

/// Whether the references of the instruction at `i` lead to the consumers of
/// its outputs and are in range.
pub open spec fn refs_hold(insts: Seq<MInstView>, i: int) -> bool {
    forall|k: int|
        0 <= k < insts[i].defs().len() ==> {
            let d = distance(insts, i, #[trigger] insts[i].defs()[k]);
            &&& use_at(insts, i, insts[i].defs()[k]) > i
            &&& d <= max_ref(insts[i])
            &&& output_ref(insts[i], k) is Some ==> output_ref(insts[i], k)->Some_0 == d
        }
}

/// A changed instruction that is used and crossed like before leaves distances
/// behind it alone.
proof fn distance_update(a: Seq<MInstView>, j: int, x: MInstView, i: int, r: Reg)
    requires
        0 <= j < a.len(),
        0 <= i < a.len(),
        x.uses() == a[j].uses(),
        x.spec_reference_length() == a[j].spec_reference_length(),
        x is JumpTrigger <==> a[j] is JumpTrigger,
        a[j] is JumpTrigger ==> x == a[j],
    ensures
        use_at(a.update(j, x), i, r) == use_at(a, i, r),
        use_at(a, i, r) >= 0 ==> distance(a.update(j, x), i, r) == distance(a, i, r),
{
    use_update(a, j, x, i, r, a.len() as int);
    let u = use_at(a, i, r);
    if u >= 0 {
        use_in_range(a, i, r, a.len() as int);
        span_update(a, j, x, i + 1, u);
    }
}

proof fn use_in_range(a: Seq<MInstView>, i: int, r: Reg, n: int)
    requires
        use_below(a, i, r, n) >= 0,
        0 <= i,
    ensures
        i <= use_below(a, i, r, n) < n,
    decreases n - i,
{
    if n > i && !a[n - 1].uses().contains(r) {
        use_in_range(a, i, r, n - 1);
    }
}

proof fn use_update(a: Seq<MInstView>, j: int, x: MInstView, i: int, r: Reg, n: int)
    requires
        0 <= j < a.len(),
        0 <= i,
        n <= a.len(),
        x.uses() == a[j].uses(),
    ensures
        use_below(a.update(j, x), i, r, n) == use_below(a, i, r, n),
    decreases n - i,
{
    if n > i {
        use_update(a, j, x, i, r, n - 1);
    }
}

/// Setting its references makes them hold.
proof fn kept_refs_hold(bb: BBView, next: int, i: int)
    requires
        0 <= i < bb.inst.len(),
        all_crossable(bb.inst, i + 1),
        visit(bb, next, i) is Keep,
    ensures
        refs_hold(bb.inst.update(i, visit(bb, next, i)->Keep_0), i),
{
    let inst = bb.inst[i];
    let done = visit(bb, next, i)->Keep_0;
    let after = bb.inst.update(i, done);
    let ds = distances(bb.inst, i);
    visit_keeps(bb, next, i);
    assert(all_crossable(bb.inst, i));
    if inst.defs().len() == 0 {
        assert(done == inst);
    } else {
        let p = |k: int| ds[k] > max_ref(inst);
        first_from_is_least(p, 0, ds.len() as int);
        assert forall|k: int| 0 <= k < after[i].defs().len() implies {
            let d = distance(after, i, #[trigger] after[i].defs()[k]);
            &&& use_at(after, i, after[i].defs()[k]) > i
            &&& d <= max_ref(after[i])
            &&& output_ref(after[i], k) is Some ==> output_ref(after[i], k)->Some_0 == d
        } by {
            let m = if done.defs() == inst.defs() {
                k
            } else {
                1 - k
            };
            let r = inst.defs()[m];
            assert(done.defs()[k] == r);
            assert(use_at(bb.inst, i, r) > i);
            distance_update(bb.inst, i, done, i, r);
            assert(ds[m] == distance(bb.inst, i, r));
            assert(!p(m));
            distance_nonneg(bb.inst, i, r);
            distance_nonneg(bb.inst, i, inst.defs()[0]);
            assert(ds[0] == distance(bb.inst, i, inst.defs()[0]));
            assert(!p(0));
            if ds.len() > 1 {
                assert(!p(1));
                distance_nonneg(bb.inst, i, inst.defs()[1]);
                assert(ds[1] == distance(bb.inst, i, inst.defs()[1]));
            }
        }
    }
}

/// Distances are not negative.
proof fn distance_nonneg(insts: Seq<MInstView>, i: int, r: Reg)
    requires
        0 <= i < insts.len(),
        all_crossable(insts, i),
        use_at(insts, i, r) > i,
    ensures
        distance(insts, i, r) >= 0,
{
    let u = use_at(insts, i, r);
    use_in_range(insts, i, r, insts.len() as int);
    span_bounds(insts, i + 1, u, insts.len() as int);
    if let MInstOf::JumpTrigger { args, .. } = insts[u] {
        place_nonneg(args, r, 0);
    }
}

proof fn place_nonneg(regs: Seq<Reg>, r: Reg, k: int)
    requires
        0 <= k,
    ensures
        place_of(regs, r, k) >= 0,
    decreases regs.len() - k,
{
    if k < regs.len() && regs[k] != r {
        place_nonneg(regs, r, k + 1);
    }
}

/// A scan that reaches the first instruction makes all references hold.
proof fn scan_refs_hold(bb: BBView, next: int, k: int, j: int)
    requires
        0 <= k <= bb.inst.len(),
        0 <= j < bb.inst.len(),
        all_crossable(bb.inst, k),
        forall|i: int| k <= i < bb.inst.len() ==> #[trigger] refs_hold(bb.inst, i),
        scan(bb, next, k) is Next,
        scan(bb, next, k)->Next_0.2,
    ensures
        scan(bb, next, k)->Next_0.0.inst.len() == bb.inst.len(),
        refs_hold(scan(bb, next, k)->Next_0.0.inst, j),
    decreases k,
{
    if k > 0 {
        let i0 = k - 1;
        let done = visit(bb, next, i0)->Keep_0;
        visit_keeps(bb, next, i0);
        kept_refs_hold(bb, next, i0);
        let after = bb.inst.update(i0, done);
        assert forall|i: int| i0 <= i < after.len() implies #[trigger] refs_hold(after, i) by {
            if i > i0 {
                assert(refs_hold(bb.inst, i));
                assert(after[i] == bb.inst[i]);
                assert forall|m: int| 0 <= m < after[i].defs().len() implies {
                    let d = distance(after, i, #[trigger] after[i].defs()[m]);
                    &&& use_at(after, i, after[i].defs()[m]) > i
                    &&& d <= max_ref(after[i])
                    &&& output_ref(after[i], m) is Some ==> output_ref(after[i], m)->Some_0 == d
                } by {
                    assert(use_at(bb.inst, i, bb.inst[i].defs()[m]) > i);
                    distance_update(bb.inst, i0, done, i, after[i].defs()[m]);
                }
            }
        }
        assert(all_crossable(after, i0)) by {
            assert forall|m: int| i0 <= m < after.len() implies (
            #[trigger] after[m]).crossable() by {
                if m > i0 {
                    assert(after[m] == bb.inst[m]);
                }
            }
        }
        scan_refs_hold(BBView { inst: after, ..bb }, next, i0, j);
    }
}

/// After the pass, every output of every instruction has a consumer further on
/// in its block, the output's reference is exactly the distance to it, and the
/// distance is in the range of the reference.
pub proof fn references_lead_to_consumers(bb: BBView, next: int, i: int)
    requires
        InsertRefDistances.rewritten(0, bb, next) is Some,
        0 <= i < InsertRefDistances.rewritten(0, bb, next)->Some_0.0.inst.len(),
    ensures
        refs_hold(InsertRefDistances.rewritten(0, bb, next)->Some_0.0.inst, i),
{
    let keeps = |s: State|
        s.2 ==> forall|j: int| 0 <= j < s.0.inst.len() ==> #[trigger] refs_hold(s.0.inst, j);
    assert forall|x: State| #[trigger] keeps(x) && distance_steps()(x) is Next implies keeps(
        distance_steps()(x)->Next_0,
    ) by {
        let t = distance_steps()(x)->Next_0;
        if t.2 {
            scan_len(x.0, x.1, x.0.inst.len() as int);
            assert forall|j: int| 0 <= j < t.0.inst.len() implies #[trigger] refs_hold(
                t.0.inst,
                j,
            ) by {
                scan_refs_hold(x.0, x.1, x.0.inst.len() as int, j);
            }
        }
    }
    settled_keeps(distance_steps(), (bb, next, false), keeps);
    let t = settled(distance_steps(), (bb, next, false))->Some_0;
    scan_progresses(t.0, t.1, t.0.inst.len() as int);
    assert(keeps(t) && t.2);
}

/// A scan that reaches the first instruction keeps the number of instructions.
proof fn scan_len(bb: BBView, next: int, k: int)
    requires
        k <= bb.inst.len(),
        scan(bb, next, k) is Next,
        scan(bb, next, k)->Next_0.2,
    ensures
        scan(bb, next, k)->Next_0.0.inst.len() == bb.inst.len(),
    decreases k,
{
    if k > 0 {
        let done = visit(bb, next, k - 1)->Keep_0;
        scan_len(BBView { inst: bb.inst.update(k - 1, done), ..bb }, next, k - 1);
    }
}

/// Without new registers, a scan keeps the number of offset chains that can still
/// be widened.
proof fn scan_keeps_chains(bb: BBView, next: int, k: int)
    requires
        k <= bb.inst.len(),
    ensures
        scan(bb, next, k) matches Step::Next((b, n, _)) ==> n > next || small_chains(b.inst)
            == small_chains(bb.inst),
    decreases k,
{
    if k > 0 {
        let i = k - 1;
        let insts = bb.inst;
        let inst = insts[i];
        edit_progresses(bb, next, i);
        match visit(bb, next, i) {
            Visit::Keep(done) => {
                small_chains_update(insts, i, done);
                scan_keeps_chains(BBView { inst: insts.update(i, done), ..bb }, next, i);
            },
            Visit::Edit(b, n) => {
                if let MInstOf::Echo { rds, rss } = inst {
                    let ops = zipped(rds, rss);
                    let chain = expanded(inst, next).0;
                    assert forall|j: int| 0 <= j < chain.len() implies !is_small_chain(
                        #[trigger] chain[j],
                    ) by {
                        let g = crate::chain::first_group(ops.len() as int);
                        crate::passes::echoes::chain_is_concrete(ops.take(g), ops.skip(g), next, j);
                    }
                    small_chains_none(chain);
                    small_chains_add(insts.take(i), chain);
                    small_chains_add(insts.take(i) + chain, insts.skip(i + 1));
                    assert(insts =~= insts.take(i) + (seq![inst] + insts.skip(i + 1)));
                    small_chains_add(insts.take(i), seq![inst] + insts.skip(i + 1));
                    small_chains_add(seq![inst], insts.skip(i + 1));
                    small_chains_none(seq![inst]);
                } else if first_dead(insts, i) < inst.defs().len() {
                    let d = first_dead(insts, i);
                    if inst is Alu2 && inst.defs().len() == 2 {
                        small_chains_update(insts, i, b.inst[i]);
                    } else {
                        let x: MInstView = MInstOf::Discard { rss: seq![inst.defs()[d]] };
                        assert(b.inst =~= insts.take(i + 1) + (seq![x] + insts.skip(i + 1)));
                        assert(insts =~= insts.take(i + 1) + insts.skip(i + 1));
                        small_chains_add(insts.take(i + 1), seq![x] + insts.skip(i + 1));
                        small_chains_add(seq![x], insts.skip(i + 1));
                        small_chains_add(insts.take(i + 1), insts.skip(i + 1));
                        small_chains_none(seq![x]);
                    }
                }
            },
            Visit::Stuck => {},
        }
    }
}

proof fn small_chains_none(a: Seq<MInstView>)
    requires
        forall|j: int| 0 <= j < a.len() ==> !is_small_chain(#[trigger] a[j]),
    ensures
        small_chains(a) == 0,
    decreases a.len(),
{
    if a.len() > 0 {
        assert forall|j: int| 0 <= j < a.drop_last().len() implies !is_small_chain(
            #[trigger] a.drop_last()[j],
        ) by {
            assert(a.drop_last()[j] == a[j]);
        }
        small_chains_none(a.drop_last());
        assert(!is_small_chain(a[a.len() - 1]));
    }
}

/// Without new registers, the pass keeps the number of offset chains that can
/// still be widened.
pub proof fn references_keep_chains(bb: BBView, next: int)
    ensures
        InsertRefDistances.rewritten(0, bb, next) matches Some((b, n)) ==> n > next
            || small_chains(b.inst) == small_chains(bb.inst),
{
    if InsertRefDistances.rewritten(0, bb, next) is Some {
        let keeps = |s: State|
            s.1 > next || (s.1 == next && small_chains(s.0.inst) == small_chains(bb.inst));
        assert forall|x: State| #[trigger] keeps(x) && distance_steps()(x) is Next implies keeps(
            distance_steps()(x)->Next_0,
        ) by {
            scan_keeps_chains(x.0, x.1, x.0.inst.len() as int);
            scan_progresses(x.0, x.1, x.0.inst.len() as int);
        }
        settled_keeps(distance_steps(), (bb, next, false), keeps);
    }
}

} // verus!
