//! Inserted copies carry the values that they stand for.
use crate::bb::{all_defs, def_operands, first_from_is_least, BBView};
use crate::chain::{carries, chain_carries_operands, spec_delivery_group};
use crate::inst::{MInstOf, MInstView, OperandKind};
use crate::operands::with_uses_sets_uses;
use crate::pass::Step;
use crate::passes::casts::{cast_one, Casting};
use crate::passes::duplicates::{duplicate_step, first_reused};
use crate::passes::echoes::{expanded, expanded_from, zipped};
use crate::passes::infer::Demand;
use crate::passes::orderings::{
    deadline, first_event, first_pair, inst_event, order_step, pair_event, produced_before,
};
use crate::reg::{vreg, Reg};
use crate::rename::{first_use_replaced, first_user, renamed, replace_first_k};
use vstd::prelude::*;

verus! {

/// What an instruction copies: each pairs a register with the one whose value it
/// gets.
pub open spec fn copied(inst: MInstView) -> Seq<(Reg, Reg)> {
    match inst {
        MInstOf::Duplicate { rd1, rd2, rs, .. } => seq![(rd1, rs), (rd2, rs)],
        MInstOf::Reorder { rd1, rd2, rs1, rs2, .. } => seq![(rd1, rs1), (rd2, rs2)],
        MInstOf::Cast { rd, rs, .. } => seq![(rd, rs)],
        _ => Seq::empty(),
    }
}

/// Whether a list names, in every place, the register that another does, or a copy
/// of it.
pub open spec fn stands_for(now: Seq<Reg>, before: Seq<Reg>, copies: Seq<(Reg, Reg)>) -> bool {
    &&& now.len() == before.len()
    &&& forall|k: int|
        0 <= k < now.len() ==> #[trigger] now[k] == before[k] || copies.contains((now[k], before[k]))
}

/// Whether an instruction is another with some uses replaced by copies.
pub open spec fn uses_copies(now: MInstView, before: MInstView, copies: Seq<(Reg, Reg)>) -> bool {
    &&& now == before.with_uses(now.uses())
    &&& stands_for(now.uses(), before.uses(), copies)
}

/// Whether the instructions are others with one inserted at `at`, some of whose
/// uses name what that copies in place of the copied registers.
pub open spec fn copy_inserted(now: Seq<MInstView>, before: Seq<MInstView>, at: int) -> bool {
    &&& 0 <= at < now.len()
    &&& now.len() == before.len() + 1
    &&& forall|i: int|
        0 <= i < at ==> uses_copies(#[trigger] now[i], before[i], copied(now[at]))
    &&& forall|i: int|
        at < i < now.len() ==> uses_copies(#[trigger] now[i], before[i - 1], copied(now[at]))
}

proof fn replacing_all_uses(inst: MInstView, a: Seq<Reg>, b: Seq<Reg>)
    requires
        a.len() == inst.uses().len(),
        b.len() == inst.uses().len(),
    ensures
        inst.with_uses(a).with_uses(b) == inst.with_uses(b),
        inst.with_uses(inst.uses()) == inst,
{
    assert(inst.with_uses(a).with_uses(b) =~= inst.with_uses(b));
    assert(inst.with_uses(inst.uses()) =~= inst);
}

proof fn replaced_once(bb: BBView, find: Reg, replace: Reg, i: int)
    requires
        first_use_replaced(bb, find, replace).1,
        0 <= i < bb.inst.len(),
    ensures
        ({
            let b = first_use_replaced(bb, find, replace).0;
            &&& b.inst.len() == bb.inst.len()
            &&& uses_copies(b.inst[i], bb.inst[i], seq![(replace, find)])
        }),
{
    let b = first_use_replaced(bb, find, replace).0;
    let p = |k: int| bb.inst[k].uses().contains(find);
    first_from_is_least(p, 0, bb.inst.len() as int);
    let inst = bb.inst[i];
    replacing_all_uses(inst, inst.uses(), inst.uses());
    assert(seq![(replace, find)][0] == (replace, find));
    if i == first_user(bb, find) {
        let us = replace_first_k(inst.uses(), find, replace, 1);
        with_uses_sets_uses(inst, us);
        assert(stands_for(us, inst.uses(), seq![(replace, find)]));
    } else {
        assert(stands_for(inst.uses(), inst.uses(), seq![(replace, find)]));
    }
}

proof fn copies_of_copies(
    c: MInstView,
    b: MInstView,
    a: MInstView,
    cs: Seq<(Reg, Reg)>,
    ds: Seq<(Reg, Reg)>,
    all: Seq<(Reg, Reg)>,
)
    requires
        uses_copies(c, b, ds),
        uses_copies(b, a, cs),
        forall|x: (Reg, Reg)| #[trigger] cs.contains(x) ==> all.contains(x),
        forall|x: (Reg, Reg)| #[trigger] ds.contains(x) ==> all.contains(x),
        forall|x: (Reg, Reg), y: (Reg, Reg)| #[trigger]
            cs.contains(x) && #[trigger] ds.contains(y) ==> x.0 != y.1,
    ensures
        uses_copies(c, a, all),
{
    replacing_all_uses(a, b.uses(), c.uses());
    assert forall|k: int| 0 <= k < c.uses().len() implies #[trigger] c.uses()[k] == a.uses()[k]
        || all.contains((c.uses()[k], a.uses()[k])) by {
        assert(b.uses()[k] == a.uses()[k] || cs.contains((b.uses()[k], a.uses()[k])));
    }
}

/// A step of the duplication inserts a duplicate directly behind a definition, and
/// some uses name what it outputs in place of the register that it duplicates.
/// Nothing else changes of the instructions.
pub proof fn duplicates_carry_their_value(bb: BBView, next: int)
    requires
        duplicate_step((bb, next)) is Next,
        bb.inst.len() <= usize::MAX,
        0 <= next,
        next + 1 <= u32::MAX,
        forall|r: Reg, i: int| #[trigger]
            defines(bb.inst, r, i) ==> r != vreg(next) && r != vreg(next + 1),
    ensures
        ({
            let (b, n) = duplicate_step((bb, next))->Next_0;
            &&& n == next + 2
            &&& exists|at: int, reg: Reg|
                {
                    &&& #[trigger] defines(bb.inst, reg, at - 1)
                    &&& copied(b.inst[at]) == seq![(vreg(next), reg), (vreg(next + 1), reg)]
                    &&& b.inst[at] is Duplicate
                    &&& copy_inserted(b.inst, bb.inst, at)
                }
            &&& b.params == bb.params
            &&& b.vcode_bb == bb.vcode_bb
        }),
{
    let (b, n) = duplicate_step((bb, next))->Next_0;
    let d = first_reused(bb);
    first_from_is_least(
        |d: int|
            crate::bb::op_count(bb.inst, all_defs(bb.inst)[d].1, OperandKind::Use) > 1,
        0,
        all_defs(bb.inst).len() as int,
    );
    let (p, reg) = all_defs(bb.inst)[d];
    let at = p + 1;
    listed_defs_define(bb.inst, d);
    let r1 = vreg(next);
    let r2 = vreg(next + 1);
    let (bb1, hit1) = first_use_replaced(bb, reg, r1);
    let (bb2, hit2) = first_use_replaced(bb1, reg, r2);
    if bb.inst.len() > 0 {
        replaced_once(bb, reg, r1, 0);
        replaced_once(bb1, reg, r2, 0);
    }
    let all = copied(b.inst[at]);
    assert(all =~= seq![(r1, reg), (r2, reg)]);
    assert(all[0] == (r1, reg) && all[1] == (r2, reg));
    assert forall|i: int| 0 <= i < bb.inst.len() implies uses_copies(
        #[trigger] bb2.inst[i],
        bb.inst[i],
        all,
    ) by {
        replaced_once(bb, reg, r1, i);
        replaced_once(bb1, reg, r2, i);
        let cs = seq![(r1, reg)];
        let ds = seq![(r2, reg)];
        assert(reg != r1);
        assert forall|x: (Reg, Reg)| #[trigger] cs.contains(x) implies all.contains(x) by {
            assert(x == (r1, reg));
        }
        assert forall|x: (Reg, Reg)| #[trigger] ds.contains(x) implies all.contains(x) by {
            assert(x == (r2, reg));
        }
        copies_of_copies(bb2.inst[i], bb1.inst[i], bb.inst[i], cs, ds, all);
    }
    assert forall|i: int| 0 <= i < at implies uses_copies(
        #[trigger] b.inst[i],
        bb.inst[i],
        all,
    ) by {
        assert(b.inst[i] == bb2.inst[i]);
    }
    assert forall|i: int| at < i < b.inst.len() implies uses_copies(
        #[trigger] b.inst[i],
        bb.inst[i - 1],
        all,
    ) by {
        assert(b.inst[i] == bb2.inst[i - 1]);
    }
    assert(defines(bb.inst, reg, at - 1));
}

/// Whether the instruction at a position defines a register.
pub open spec fn defines(insts: Seq<MInstView>, r: Reg, i: int) -> bool {
    0 <= i < insts.len() && insts[i].operands().contains((r, OperandKind::Def))
}

proof fn defined_operands(ops: Seq<(Reg, OperandKind)>, k: int)
    requires
        0 <= k < def_operands(ops).len(),
    ensures
        ops.contains((def_operands(ops)[k], OperandKind::Def)),
    decreases ops.len(),
{
    let init = ops.drop_last();
    if k < def_operands(init).len() {
        defined_operands(init, k);
        let x = (def_operands(init)[k], OperandKind::Def);
        let i = choose|i: int| 0 <= i < init.len() && init[i] == x;
        assert(ops[i] == x);
    } else {
        assert(ops[ops.len() - 1] == (def_operands(ops)[k], OperandKind::Def));
    }
}

proof fn listed_defs_define(insts: Seq<MInstView>, d: int)
    requires
        0 <= d < all_defs(insts).len(),
        insts.len() <= usize::MAX,
    ensures
        defines(insts, all_defs(insts)[d].1, all_defs(insts)[d].0 as int),
    decreases insts.len(),
{
    let init = insts.drop_last();
    if d < all_defs(init).len() {
        listed_defs_define(init, d);
        assert(all_defs(insts)[d] == all_defs(init)[d]);
        let i = all_defs(init)[d].0 as int;
        assert(insts[i] == init[i]);
    } else {
        let ds = def_operands(insts.last().operands());
        assert(ds[d - all_defs(init).len()] == all_defs(insts)[d].1);
        defined_operands(insts.last().operands(), d - all_defs(init).len());
        assert(insts.last() == insts[insts.len() - 1]);
    }
}

/// A step that puts operands in order inserts a reorder, and the two uses name
/// what it outputs in place of the registers whose values it carries there: a later
/// use of an instruction whose value is produced before that of the use before it.
/// Nothing else changes.
pub proof fn reorders_carry_their_values(bb: BBView, next: int)
    requires
        order_step((bb, next)) is Next,
        deadline(bb.inst, first_event(bb.inst)) <= bb.inst.len(),
        0 <= next,
        next + 1 <= u32::MAX,
    ensures
        ({
            let (b, n) = order_step((bb, next))->Next_0;
            &&& n == next + 2
            &&& b == (BBView { inst: b.inst, ..bb })
            &&& exists|at: int, i: int, j: int|
                {
                    &&& 0 <= i < bb.inst.len()
                    &&& 0 <= j < bb.inst[i].uses().len() - 1
                    &&& #[trigger] swaps(bb.inst, i, j)
                    &&& #[trigger] copy_inserted(b.inst, bb.inst, at)
                    &&& b.inst[at] is Reorder
                    &&& copied(b.inst[at]) == seq![
                        (vreg(next), bb.inst[i].uses()[j + 1]),
                        (vreg(next + 1), bb.inst[i].uses()[j]),
                    ]
                    &&& at == deadline(bb.inst, i)
                }
        }),
{
    let (b, n) = order_step((bb, next))->Next_0;
    let i = first_event(bb.inst);
    let j = first_pair(bb.inst, i);
    let at = deadline(bb.inst, i);
    let p = |i: int| inst_event(bb.inst, i);
    first_from_is_least(p, 0, bb.inst.len() as int);
    assert(p(i));
    let q = |j: int| pair_event(bb.inst, i, j);
    first_from_is_least(q, 0, bb.inst[i].uses().len() - 1);
    assert(q(j));
    let inst = bb.inst[i];
    let us = inst.uses().update(j, vreg(next + 1)).update(j + 1, vreg(next));
    with_uses_sets_uses(inst, us);
    let all = copied(b.inst[at]);
    assert(all =~= seq![
        (vreg(next), inst.uses()[j + 1]),
        (vreg(next + 1), inst.uses()[j]),
    ]);
    assert(all[0] == (vreg(next), inst.uses()[j + 1]));
    assert(all[1] == (vreg(next + 1), inst.uses()[j]));
    assert(stands_for(us, inst.uses(), all));
    let mid = bb.inst.update(i, inst.with_uses(us));
    assert forall|k: int| 0 <= k < bb.inst.len() implies uses_copies(
        #[trigger] mid[k],
        bb.inst[k],
        all,
    ) by {
        if k != i {
            replacing_all_uses(bb.inst[k], bb.inst[k].uses(), bb.inst[k].uses());
        }
    }
    assert forall|k: int| 0 <= k < at implies uses_copies(#[trigger] b.inst[k], bb.inst[k], all) by {
        assert(b.inst[k] == mid[k]);
    }
    assert forall|k: int| at < k < b.inst.len() implies uses_copies(
        #[trigger] b.inst[k],
        bb.inst[k - 1],
        all,
    ) by {
        assert(b.inst[k] == mid[k - 1]);
    }
    assert(swaps(bb.inst, i, j));
    assert(copy_inserted(b.inst, bb.inst, at));
}

/// Whether the value of a use is produced before that of the use before it.
pub open spec fn swaps(insts: Seq<MInstView>, i: int, j: int) -> bool {
    produced_before(insts, insts[i].uses()[j + 1], insts[i].uses()[j])
}

/// A demanded cast of an operand carries its value under the demanded type: it
/// stands at the deadline, and only the demanded use names its result.
pub proof fn casts_carry_their_operand(c: Casting, at: int, d: Demand)
    requires
        0 <= at <= c.at < c.bb.inst.len(),
        cast_one(c, at, d) is Some,
        !(d.slot < c.bb.inst[c.at].defs().len() && c.bb.inst[c.at].defs()[d.slot as int] == d.reg),
    ensures
        ({
            let n = cast_one(c, at, d)->Some_0;
            let inst = c.bb.inst[c.at];
            &&& n.bb == (BBView { inst: n.bb.inst, ..c.bb })
            &&& copy_inserted(n.bb.inst, c.bb.inst, at)
            &&& n.bb.inst[at] matches MInstOf::Cast { rd, ty, rs, .. } && {
                &&& rd == vreg(c.next)
                &&& rs == d.reg
                &&& ty == d.ty
            }
            &&& d.slot < inst.uses().len()
            &&& inst.uses()[d.slot as int] == d.reg
            &&& n.bb.inst[c.at + 1].uses()[d.slot as int] == vreg(c.next)
            &&& forall|k: int|
                0 <= k < inst.uses().len() && k != d.slot ==> n.bb.inst[c.at + 1].uses()[k]
                    == #[trigger] inst.uses()[k]
            &&& n.types.get(vreg(c.next)) == d.ty
            &&& n.at == c.at + 1
            &&& n.next == c.next + 1
        }),
{
    let n = cast_one(c, at, d)->Some_0;
    let inst = c.bb.inst[c.at];
    let fresh = vreg(c.next);
    let us = inst.uses().update(d.slot as int, fresh);
    with_uses_sets_uses(inst, us);
    let all = copied(n.bb.inst[at]);
    assert(all =~= seq![(fresh, d.reg)]);
    assert(all[0] == (fresh, d.reg));
    assert(stands_for(us, inst.uses(), all));
    let mid = c.bb.inst.update(c.at, inst.with_uses(us));
    assert forall|k: int| 0 <= k < mid.len() implies uses_copies(
        #[trigger] mid[k],
        c.bb.inst[k],
        all,
    ) by {
        if k != c.at {
            replacing_all_uses(c.bb.inst[k], c.bb.inst[k].uses(), c.bb.inst[k].uses());
        }
    }
    assert forall|k: int| 0 <= k < at implies uses_copies(
        #[trigger] n.bb.inst[k],
        c.bb.inst[k],
        all,
    ) by {
        assert(n.bb.inst[k] == mid[k]);
    }
    assert forall|k: int| at < k < n.bb.inst.len() implies uses_copies(
        #[trigger] n.bb.inst[k],
        c.bb.inst[k - 1],
        all,
    ) by {
        assert(n.bb.inst[k] == mid[k - 1]);
    }
    assert(n.bb.inst[c.at + 1] == mid[c.at]);
    crate::typemap::set_changes_one(c.types, fresh, d.ty, fresh);
}

/// A demanded cast of a result stands directly behind the instruction: that defines
/// a fresh register in place of the demanded one, which the cast defines under the
/// demanded type. Nothing else changes.
pub proof fn casts_carry_their_result(c: Casting, at: int, d: Demand)
    requires
        0 <= c.at < c.bb.inst.len(),
        cast_one(c, at, d) is Some,
        d.slot < c.bb.inst[c.at].defs().len(),
        c.bb.inst[c.at].defs()[d.slot as int] == d.reg,
    ensures
        ({
            let n = cast_one(c, at, d)->Some_0;
            let inst = c.bb.inst[c.at];
            let now = n.bb.inst;
            &&& n.bb == (BBView { inst: now, ..c.bb })
            &&& now.len() == c.bb.inst.len() + 1
            &&& now[c.at + 1] matches MInstOf::Cast { rd, ty, rs, .. } && {
                &&& rd == d.reg
                &&& rs == vreg(c.next)
                &&& ty == d.ty
            }
            &&& now[c.at] == inst.with_defs(now[c.at].defs())
            &&& now[c.at].defs().len() == inst.defs().len()
            &&& now[c.at].defs()[d.slot as int] == vreg(c.next)
            &&& forall|k: int|
                0 <= k < inst.defs().len() && k != d.slot ==> now[c.at].defs()[k]
                    == #[trigger] inst.defs()[k]
            &&& now[c.at].uses() == inst.uses()
            &&& forall|k: int| 0 <= k < c.at ==> #[trigger] now[k] == c.bb.inst[k]
            &&& forall|k: int| c.at + 1 < k < now.len() ==> #[trigger] now[k] == c.bb.inst[k - 1]
            &&& n.types == c.types
            &&& n.at == c.at
            &&& n.next == c.next + 1
        }),
{
    let inst = c.bb.inst[c.at];
    crate::operands::with_defs_sets_defs(inst, inst.defs().update(d.slot as int, vreg(c.next)));
}

/// After a renaming nothing uses the old register; its uses name the new one, and
/// every other use is as it was.
pub proof fn renaming_replaces_every_use(bb: BBView, find: Reg, replace: Reg, i: int)
    requires
        0 <= i < bb.inst.len(),
    ensures
        ({
            let b = renamed(bb, find, replace);
            &&& b.inst.len() == bb.inst.len()
            &&& b.inst[i] == bb.inst[i].with_uses(b.inst[i].uses())
            &&& b.inst[i].uses().len() == bb.inst[i].uses().len()
            &&& forall|k: int|
                0 <= k < b.inst[i].uses().len() ==> #[trigger] b.inst[i].uses()[k] == (
                if bb.inst[i].uses()[k] == find {
                    replace
                } else {
                    bb.inst[i].uses()[k]
                })
            &&& find != replace ==> !b.inst[i].uses().contains(find)
            &&& b.inst[i].defs() == bb.inst[i].defs()
            &&& b.params == bb.params
            &&& b.vcode_bb == bb.vcode_bb
        }),
{
    let us = crate::rename::replace_each(bb.inst[i].uses(), find, replace);
    with_uses_sets_uses(bb.inst[i], us);
}

/// Where the expansion of the `j`th instruction starts.
pub open spec fn expansion_start(insts: Seq<MInstView>, i: int, next: int, j: int) -> int
    decreases j - i,
{
    if i >= j {
        0
    } else {
        let (first, n) = expanded(insts[i], next);
        first.len() + expansion_start(insts, i + 1, n, j)
    }
}

/// The expansion of echoes keeps every other instruction, and all in order. In
/// place of an echo stands a chain that carries each of its operands, from where it
/// is delivered, to its own destination.
pub proof fn expanded_echoes_carry_their_operands(
    insts: Seq<MInstView>,
    i: int,
    next: int,
    j: int,
    w: int,
)
    requires
        0 <= i <= j < insts.len(),
    ensures
        ({
            let now = expanded_from(insts, i, next).0;
            let start = expansion_start(insts, i, next, j);
            &&& 0 <= start <= now.len()
            &&& !(insts[j] is Echo) ==> start < now.len() && now[start] == insts[j]
                && expansion_start(insts, i, next, j + 1) == start + 1
            &&& insts[j] matches MInstOf::Echo { rds, rss } ==> {
                let end = expansion_start(insts, i, next, j + 1);
                &&& start <= end <= now.len()
                &&& 0 <= w < rds.len() && w < rss.len() ==> carries(
                    now.subrange(start, end).skip(spec_delivery_group(w)),
                    rss[w],
                    rds[w],
                )
            }
            &&& expansion_start(insts, i, next, insts.len() as int) == now.len()
        }),
    decreases insts.len() - i,
{
    let (first, n) = expanded(insts[i], next);
    let rest = expanded_from(insts, i + 1, n).0;
    let now = expanded_from(insts, i, next).0;
    assert(now == first + rest);
    expansion_ends(insts, i + 1, n);
    assert(expansion_start(insts, i, next, insts.len() as int) == first.len() + expansion_start(
        insts,
        i + 1,
        n,
        insts.len() as int,
    ));
    if i < j {
        expanded_echoes_carry_their_operands(insts, i + 1, n, j, w);
        let start = expansion_start(insts, i + 1, n, j);
        let end = expansion_start(insts, i + 1, n, j + 1);
        assert(expansion_start(insts, i, next, j) == first.len() + start);
        assert(expansion_start(insts, i, next, j + 1) == first.len() + end);
        if insts[j] is Echo {
            assert(now.subrange(first.len() + start, first.len() + end) =~= rest.subrange(start, end));
        }
    } else {
        assert(expansion_start(insts, i + 1, n, j + 1) == 0);
        assert(expansion_start(insts, i, next, j + 1) == first.len());
        if let MInstOf::Echo { rds, rss } = insts[i] {
            assert(now.subrange(0, first.len() as int) =~= first);
            if 0 <= w < rds.len() && w < rss.len() {
                let ops = zipped(rds, rss);
                chain_carries_operands(ops, next, w);
                assert(ops[w] == (rds[w], rss[w]));
            }
        }
    }
}

proof fn expansion_ends(insts: Seq<MInstView>, i: int, next: int)
    requires
        0 <= i <= insts.len(),
    ensures
        expansion_start(insts, i, next, insts.len() as int) == expanded_from(insts, i, next).0.len(),
    decreases insts.len() - i,
{
    if i < insts.len() {
        expansion_ends(insts, i + 1, expanded(insts[i], next).1);
    }
}

} // verus!
