//! Queues and frames are large enough.
use crate::abi::{
    areas_fit_parts, round_up_is_least_multiple, spec_stack_area_size, spec_stack_locals_base,
};
use crate::backend::{private_bytes, slots_end, StackSlot};
use crate::inst::MInstView;
use crate::ir::SignatureView;
use crate::lower::ScryIsleContext;
use crate::passes::capacities::{arrivals, capacities_hold, is_boundary, last_user, sent_to};
use crate::patches::{afters, any_delete, befores, first_replace, in_place, Patch};
use crate::reg::Reg;
use vstd::prelude::*;

verus! {

/// Whether the output `k` of the instruction at `i` is delivered to the instruction
/// at `u`: that reads it, and no later one does.
pub open spec fn delivers(insts: Seq<MInstView>, i: int, k: int, u: int) -> bool {
    &&& 0 <= i < insts.len()
    &&& 0 <= k < insts[i].defs().len()
    &&& 0 <= u < insts.len()
    &&& insts[u].uses().contains(insts[i].defs()[k])
    &&& forall|x: int|
        u < x < insts.len() ==> !(#[trigger] insts[x]).uses().contains(insts[i].defs()[k])
}

/// Whether a place comes before another, instruction by instruction and output by
/// output.
pub open spec fn earlier(a: (int, int), b: (int, int)) -> bool {
    a.0 < b.0 || (a.0 == b.0 && a.1 < b.1)
}

proof fn last_user_is(insts: Seq<MInstView>, r: Reg, n: int, u: int)
    requires
        0 <= u < n <= insts.len(),
        insts[u].uses().contains(r),
        forall|x: int| u < x < n ==> !(#[trigger] insts[x]).uses().contains(r),
    ensures
        last_user(insts, r, n) == u,
    decreases n,
{
    if u < n - 1 {
        last_user_is(insts, r, n - 1, u);
    }
}

proof fn sent_grows(insts: Seq<MInstView>, regs: Seq<Reg>, u: int, k: int)
    ensures
        0 <= sent_to(insts, regs, u, k),
    decreases k,
{
    if k > 0 {
        sent_grows(insts, regs, u, k - 1);
    }
}

proof fn arrivals_grow(insts: Seq<MInstView>, u: int, i: int)
    ensures
        0 <= arrivals(insts, u, i),
    decreases i,
{
    if i > 0 {
        arrivals_grow(insts, u, i - 1);
        sent_grows(insts, insts[i - 1].defs(), u, insts[i - 1].defs().len() as int);
    }
}

/// The operands that are counted before output `k` of the instruction at `i`.
spec fn counted(insts: Seq<MInstView>, u: int, i: int, k: int) -> int {
    arrivals(insts, u, i) + sent_to(insts, insts[i].defs(), u, k)
}

proof fn counted_grows(insts: Seq<MInstView>, u: int, i: int, k: int, j: int, l: int)
    requires
        0 <= i < insts.len(),
        0 <= j < insts.len(),
        0 <= k <= insts[i].defs().len(),
        0 <= l <= insts[j].defs().len(),
        i < j || (i == j && k <= l),
    ensures
        counted(insts, u, i, k) <= counted(insts, u, j, l),
    decreases j - i, l,
{
    if i == j {
        if k < l {
            counted_grows(insts, u, i, k, j, l - 1);
        }
    } else if l > 0 {
        counted_grows(insts, u, i, k, j, l - 1);
    } else {
        let n = insts[j - 1].defs().len() as int;
        counted_grows(insts, u, i, k, j - 1, n);
    }
}

proof fn all_counted(insts: Seq<MInstView>, u: int, places: Seq<(int, int)>)
    requires
        places.len() > 0,
        forall|x: int|
            0 <= x < places.len() ==> delivers(
                insts,
                (#[trigger] places[x]).0,
                places[x].1,
                u,
            ),
        forall|x: int, y: int|
            0 <= x < y < places.len() ==> earlier(#[trigger] places[x], #[trigger] places[y]),
    ensures
        places.len() <= counted(insts, u, places.last().0, places.last().1 + 1),
    decreases places.len(),
{
    let (i, k) = places.last();
    assert(places.last() == places[places.len() - 1]);
    assert(delivers(insts, i, k, u));
    last_user_is(insts, insts[i].defs()[k], insts.len() as int, u);
    assert(counted(insts, u, i, k + 1) == counted(insts, u, i, k) + 1);
    arrivals_grow(insts, u, i);
    sent_grows(insts, insts[i].defs(), u, k);
    if places.len() > 1 {
        let init = places.drop_last();
        let (j, l) = init.last();
        assert(init.last() == places[places.len() - 2]);
        assert forall|x: int| 0 <= x < init.len() implies delivers(
            insts,
            (#[trigger] init[x]).0,
            init[x].1,
            u,
        ) by {
            assert(init[x] == places[x]);
        }
        assert forall|x: int, y: int| 0 <= x < y < init.len() implies earlier(
            #[trigger] init[x],
            #[trigger] init[y],
        ) by {
            assert(init[x] == places[x] && init[y] == places[y]);
        }
        all_counted(insts, u, init);
        assert(earlier(places[places.len() - 2], places[places.len() - 1]));
        assert(delivers(insts, j, l, u)) by {
            assert(init[init.len() - 1] == (j, l));
        }
        counted_grows(insts, u, j, l + 1, i, k);
    }
}

/// Where the capacities hold, no more outputs are ever delivered to one instruction
/// than its queue takes, unless its operands leave the block or the frame.
pub proof fn queues_hold_what_is_delivered(
    insts: Seq<MInstView>,
    u: int,
    places: Seq<(int, int)>,
)
    requires
        capacities_hold(insts),
        0 <= u < insts.len(),
        !(insts[u] is JumpTrigger || insts[u] is CallArgs || insts[u] is Rets),
        forall|x: int|
            0 <= x < places.len() ==> delivers(
                insts,
                (#[trigger] places[x]).0,
                places[x].1,
                u,
            ),
        forall|x: int, y: int|
            0 <= x < y < places.len() ==> earlier(#[trigger] places[x], #[trigger] places[y]),
    ensures
        places.len() <= 4,
{
    if places.len() > 0 {
        all_counted(insts, u, places);
        let (i, k) = places.last();
        assert(places.last() == places[places.len() - 1]);
        let last = insts.len() - 1;
        counted_grows(insts, u, i, k + 1, last, insts[last].defs().len() as int);
        assert(arrivals(insts, u, insts.len() as int) == counted(
            insts,
            u,
            last,
            insts[last].defs().len() as int,
        ));
        assert(!is_boundary(insts[u]));
    }
}

proof fn slots_end_bounds(slots: Seq<StackSlot>, k: int, i: int)
    requires
        0 <= k <= slots.len(),
    ensures
        0 <= slots_end(slots, k),
        0 <= i < k ==> slots[i].offset + slots[i].size <= slots_end(slots, k),
        slots_end(slots, k) == 0 || exists|j: int|
            0 <= j < k && (#[trigger] slots[j]).offset + slots[j].size == slots_end(slots, k),
    decreases k,
{
    if k > 0 {
        slots_end_bounds(slots, k - 1, i);
        let m = slots_end(slots, k - 1);
        let n = slots[k - 1].offset + slots[k - 1].size;
        if n <= m && m != 0 {
            let j = choose|j: int|
                0 <= j < k - 1 && (#[trigger] slots[j]).offset + slots[j].size == m;
            assert(slots[j].offset + slots[j].size == slots_end(slots, k));
        }
    }
}

/// The private frame holds the incoming area and, behind it, every stack slot, is
/// a multiple of 16 bytes, and is no larger than that takes.
pub proof fn frames_hold_their_slots(sig: SignatureView, slots: Seq<StackSlot>, i: int)
    requires
        spec_stack_locals_base(sig) % 16 == 0,
    ensures
        private_bytes(sig, slots) % 16 == 0,
        spec_stack_locals_base(sig) <= private_bytes(sig, slots),
        0 <= i < slots.len() ==> spec_stack_locals_base(sig) + slots[i].offset + slots[i].size
            <= private_bytes(sig, slots),
        private_bytes(sig, slots) == spec_stack_locals_base(sig) || exists|j: int|
            0 <= j < slots.len() && private_bytes(sig, slots) < spec_stack_locals_base(sig) + (
            #[trigger] slots[j]).offset + slots[j].size + 16,
{
    slots_end_bounds(slots, slots.len() as int, i);
    let end = slots_end(slots, slots.len() as int);
    round_up_is_least_multiple(end, 16);
    if end != 0 {
        let j = choose|j: int|
            0 <= j < slots.len() && (#[trigger] slots[j]).offset + slots[j].size == end;
        assert(slots[j].offset + slots[j].size == end);
    }
}

proof fn replace_is_found(ps: Seq<Patch>, k: int)
    requires
        0 <= k <= ps.len(),
    ensures
        k <= first_replace(ps, k) <= ps.len(),
        first_replace(ps, k) < ps.len() ==> ps[first_replace(ps, k)] is Replace,
        forall|i: int| k <= i < first_replace(ps, k) ==> !(#[trigger] ps[i] is Replace),
    decreases ps.len() - k,
{
    if k < ps.len() && !(ps[k] is Replace) {
        replace_is_found(ps, k + 1);
    }
}

proof fn delete_is_found(ps: Seq<Patch>, k: int)
    requires
        0 <= k <= ps.len(),
    ensures
        any_delete(ps, k) <==> exists|i: int| k <= i < ps.len() && #[trigger] ps[i] is Delete,
    decreases ps.len() - k,
{
    if k < ps.len() {
        delete_is_found(ps, k + 1);
        if any_delete(ps, k) && !(ps[k] is Delete) {
            let i = choose|i: int| k + 1 <= i < ps.len() && #[trigger] ps[i] is Delete;
            assert(ps[i] is Delete);
        }
        if exists|i: int| k <= i < ps.len() && #[trigger] ps[i] is Delete {
            let i = choose|i: int| k <= i < ps.len() && #[trigger] ps[i] is Delete;
            if i > k {
                assert(ps[i] is Delete);
            }
        }
    }
}

/// In the place of an instruction stands the first replacement, if there is one;
/// nothing, if it is deleted; or else the instruction.
pub proof fn patched_places(inst: MInstView, ps: Seq<Patch>, i: usize, r: int)
    ensures
        0 <= r < ps.len() && ps[r] is Replace && (forall|k: int|
            0 <= k < r ==> !(#[trigger] ps[k] is Replace)) ==> in_place(inst, ps, i).len() == 1
            && in_place(inst, ps, i)[0].0 == ps[r]->Replace_0@ && in_place(inst, ps, i)[0].1 == i,
        (forall|k: int| 0 <= k < ps.len() ==> !(#[trigger] ps[k] is Replace)) && (exists|k: int|
            0 <= k < ps.len() && #[trigger] ps[k] is Delete) ==> in_place(inst, ps, i).len() == 0,
        (forall|k: int|
            0 <= k < ps.len() ==> !(#[trigger] ps[k] is Replace) && !(ps[k] is Delete))
            ==> in_place(inst, ps, i) == seq![(inst, i, None::<usize>)],
{
    replace_is_found(ps, 0);
    delete_is_found(ps, 0);
    let f = first_replace(ps, 0);
    if 0 <= r < ps.len() && ps[r] is Replace && (forall|k: int|
        0 <= k < r ==> !(#[trigger] ps[k] is Replace)) {
        if f < r {
            assert(ps[f] is Replace);
        } else if r < f {
            assert(!(ps[r] is Replace));
        }
    }
    if f < ps.len() {
        assert(ps[f] is Replace);
    }
}

/// How many of the first `k` patches bring an instruction before.
pub open spec fn count_before(ps: Seq<Patch>, k: int) -> int
    decreases k,
{
    if k <= 0 {
        0
    } else {
        count_before(ps, k - 1) + (if ps[k - 1] is Before {
            1int
        } else {
            0
        })
    }
}

/// How many of the first `k` patches bring an instruction after.
pub open spec fn count_after(ps: Seq<Patch>, k: int) -> int
    decreases k,
{
    if k <= 0 {
        0
    } else {
        count_after(ps, k - 1) + (if ps[k - 1] is After {
            1int
        } else {
            0
        })
    }
}

proof fn befores_at(ps: Seq<Patch>, i: usize, k: int, n: nat, x: int)
    requires
        0 <= k <= ps.len(),
    ensures
        befores(ps, i, k, n).len() == count_before(ps, ps.len() as int) - count_before(ps, k),
        k <= x < ps.len() && ps[x] is Before ==> 0 <= count_before(ps, x) - count_before(ps, k)
            < befores(ps, i, k, n).len() && befores(ps, i, k, n)[count_before(ps, x) - count_before(
            ps,
            k,
        )].0 == ps[x]->Before_0@,
    decreases ps.len() - k,
{
    if k < ps.len() {
        let m = if ps[k] is Before {
            n + 1
        } else {
            n
        };
        befores_at(ps, i, k + 1, m, x);
        let rest = befores(ps, i, k + 1, m);
        assert(count_before(ps, k + 1) == count_before(ps, k) + (if ps[k] is Before {
            1int
        } else {
            0
        }));
        if ps[k] is Before && k < x < ps.len() && ps[x] is Before {
            let all = befores(ps, i, k, n);
            let at = count_before(ps, x) - count_before(ps, k);
            assert(all[at] == rest[at - 1]);
        }
    }
}

proof fn afters_at(ps: Seq<Patch>, i: usize, k: int, n: nat, x: int)
    requires
        0 <= k <= ps.len(),
    ensures
        afters(ps, i, k, n).len() == count_after(ps, ps.len() as int) - count_after(ps, k),
        k <= x < ps.len() && ps[x] is After ==> 0 <= count_after(ps, x) - count_after(ps, k)
            < afters(ps, i, k, n).len() && afters(ps, i, k, n)[count_after(ps, x) - count_after(
            ps,
            k,
        )].0 == ps[x]->After_0@,
    decreases ps.len() - k,
{
    if k < ps.len() {
        let m = if ps[k] is After {
            n + 1
        } else {
            n
        };
        afters_at(ps, i, k + 1, m, x);
        let rest = afters(ps, i, k + 1, m);
        assert(count_after(ps, k + 1) == count_after(ps, k) + (if ps[k] is After {
            1int
        } else {
            0
        }));
        if ps[k] is After && k < x < ps.len() && ps[x] is After {
            let all = afters(ps, i, k, n);
            let at = count_after(ps, x) - count_after(ps, k);
            assert(all[at] == rest[at - 1]);
        }
    }
}

/// The patches of an instruction bring exactly their own instructions before it and
/// after it, each kind in the order of the patches.
pub proof fn patches_bring_their_instructions_in_order(ps: Seq<Patch>, i: usize, x: int)
    requires
        0 <= x < ps.len(),
    ensures
        befores(ps, i, 0, 0).len() == count_before(ps, ps.len() as int),
        afters(ps, i, 0, 0).len() == count_after(ps, ps.len() as int),
        ps[x] is Before ==> 0 <= count_before(ps, x) < befores(ps, i, 0, 0).len() && befores(
            ps,
            i,
            0,
            0,
        )[count_before(ps, x)].0 == ps[x]->Before_0@,
        ps[x] is After ==> 0 <= count_after(ps, x) < afters(ps, i, 0, 0).len() && afters(
            ps,
            i,
            0,
            0,
        )[count_after(ps, x)].0 == ps[x]->After_0@,
{
    befores_at(ps, i, 0, 0, x);
    afters_at(ps, i, 0, 0, x);
}

/// A place in a stack slot lies behind the incoming area, at its distance from the
/// start of the slot, and the slots lie to each other as their offsets do; a slot
/// at a multiple of 16 bytes starts at one.
pub proof fn slots_lie_behind_the_incoming_area(
    ctx: ScryIsleContext,
    a: int,
    b: int,
    x: int,
    y: int,
)
    requires
        ctx.wf(),
        0 <= a < ctx.slot_offsets@.len(),
        0 <= b < ctx.slot_offsets@.len(),
    ensures
        0 <= x ==> spec_stack_area_size(ctx.sig@) <= ctx.slot_location(a, x),
        ctx.slot_location(a, x) - ctx.slot_location(b, y) == (ctx.slot_offsets@[a] + x) - (
        ctx.slot_offsets@[b] + y),
        ctx.slot_offsets@[a] == 0 ==> ctx.slot_location(a, 0) < spec_stack_area_size(ctx.sig@) + 16,
        ctx.slot_offsets@[a] % 16 == 0 ==> ctx.slot_location(a, 0) % 16 == 0,
{
    areas_fit_parts(ctx.sig@);
    round_up_is_least_multiple(spec_stack_area_size(ctx.sig@), 16);
}

} // verus!
