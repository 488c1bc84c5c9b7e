//! Insertion of the casts that the inference of types demands.
use crate::bb::{bb_views, BBView, VCodeBB};
use crate::cfg::VCodeCFG;
use crate::inst::{MInst, MInstOf, MInstView};
use crate::pass::refused;
use crate::passes::infer::Demand;
use crate::passes::orderings::{deadline, find_deadline};
use crate::reg::{ran_out, vreg, CodegenError, Reg, VRegAllocator, VREG_LIMIT};
use crate::typemap::{TypeMap, TypesView};
use vstd::prelude::*;

verus! {

broadcast use {crate::inst::views_insert, crate::inst::views_update};

/// A block whose casts are being inserted: the block, the types, the position of
/// the instruction that the casts are for, and the index of the next register.
#[verifier::ext_equal]
pub struct Casting {
    pub bb: BBView,
    pub types: TypesView,
    pub at: int,
    pub next: int,
}

/// One demanded cast inserted. An output is re-tagged directly behind the
/// instruction; an input before `deadline`, only at the demanded slot.
pub open spec fn cast_one(c: Casting, deadline: int, d: Demand) -> Option<Casting> {
    let insts = c.bb.inst;
    let inst = insts[c.at];
    let fresh = vreg(c.next);
    let slot = d.slot as int;
    if slot < inst.defs().len() && inst.defs()[slot] == d.reg {
        let cast: MInstView = MInstOf::Cast { rd: d.reg, ty: d.ty, rs: fresh, out: 0 };
        Some(
            Casting {
                bb: BBView {
                    inst: insts.update(
                        c.at,
                        inst.with_defs(inst.defs().update(slot, fresh)),
                    ).insert(c.at + 1, cast),
                    ..c.bb
                },
                next: c.next + 1,
                ..c
            },
        )
    } else if slot < inst.uses().len() && inst.uses()[slot] == d.reg {
        let cast: MInstView = MInstOf::Cast { rd: fresh, ty: d.ty, rs: d.reg, out: 0 };
        Some(
            Casting {
                bb: BBView {
                    inst: insts.update(
                        c.at,
                        inst.with_uses(inst.uses().update(slot, fresh)),
                    ).insert(deadline, cast),
                    ..c.bb
                },
                types: c.types.set(fresh, d.ty),
                at: c.at + 1,
                next: c.next + 1,
            },
        )
    } else {
        None
    }
}

/// Whether a demand is for the instruction at position `i` of block `v`.
pub open spec fn is_for(d: Demand, v: int, i: int) -> bool {
    d.bb == v && d.inst == i
}

/// The demands for an instruction, from the `k`th on, inserted in order.
pub open spec fn cast_from(
    c: Casting,
    deadline: int,
    demands: Seq<Demand>,
    v: int,
    i: int,
    k: int,
) -> Option<Casting>
    decreases demands.len() - k,
{
    if k >= demands.len() {
        Some(c)
    } else if is_for(demands[k], v, i) {
        match cast_one(c, deadline, demands[k]) {
            Some(n) => cast_from(n, deadline, demands, v, i, k + 1),
            None => None,
        }
    } else {
        cast_from(c, deadline, demands, v, i, k + 1)
    }
}

/// The first demand for an instruction, from the `k`th on.
pub open spec fn first_for(demands: Seq<Demand>, v: int, i: int, k: int) -> int
    decreases demands.len() - k,
{
    if k >= demands.len() || is_for(demands[k], v, i) {
        k
    } else {
        first_for(demands, v, i, k + 1)
    }
}

/// All demands for the instruction at `i` inserted.
pub open spec fn cast_group(
    bb: BBView,
    types: TypesView,
    demands: Seq<Demand>,
    v: int,
    i: int,
    next: int,
) -> Option<Casting> {
    let c = Casting { bb, types, at: i, next };
    if first_for(demands, v, i, 0) >= demands.len() {
        Some(c)
    } else if deadline(bb.inst, i) < 0 {
        None
    } else {
        cast_from(c, deadline(bb.inst, i), demands, v, i, 0)
    }
}

/// The demands for the instructions of a block below position `i`, inserted from
/// the last instruction to the first.
pub open spec fn cast_block(
    bb: BBView,
    types: TypesView,
    demands: Seq<Demand>,
    v: int,
    i: int,
    next: int,
) -> Option<(BBView, TypesView, int)>
    decreases i,
{
    if i <= 0 {
        Some((bb, types, next))
    } else {
        match cast_group(bb, types, demands, v, i - 1, next) {
            Some(c) => cast_block(c.bb, c.types, demands, v, i - 1, c.next),
            None => None,
        }
    }
}

/// The demands for the blocks from `v` on inserted: the blocks, the types and
/// the index of the next register.
pub open spec fn cast_blocks(
    bbs: Seq<BBView>,
    types: TypesView,
    demands: Seq<Demand>,
    v: int,
    next: int,
) -> Option<((Seq<BBView>, TypesView), int)>
    decreases bbs.len() - v,
{
    if v >= bbs.len() {
        Some(((Seq::empty(), types), next))
    } else {
        match cast_block(bbs[v], types, demands, v, bbs[v].inst.len() as int, next) {
            None => None,
            Some((b, t, n)) => match cast_blocks(bbs, t, demands, v + 1, n) {
                None => None,
                Some(((rest, u), m)) => Some(((seq![b] + rest, u), m)),
            },
        }
    }
}

proof fn cast_from_grows(
    c: Casting,
    deadline: int,
    demands: Seq<Demand>,
    v: int,
    i: int,
    k: int,
)
    ensures
        cast_from(c, deadline, demands, v, i, k) matches Some(n) ==> n.next >= c.next
            && n.bb.vcode_bb == c.bb.vcode_bb,
    decreases demands.len() - k,
{
    if k < demands.len() {
        if is_for(demands[k], v, i) {
            if let Some(n) = cast_one(c, deadline, demands[k]) {
                cast_from_grows(n, deadline, demands, v, i, k + 1);
            }
        } else {
            cast_from_grows(c, deadline, demands, v, i, k + 1);
        }
    }
}

proof fn cast_block_grows(
    bb: BBView,
    types: TypesView,
    demands: Seq<Demand>,
    v: int,
    i: int,
    next: int,
)
    ensures
        cast_block(bb, types, demands, v, i, next) matches Some((b, t, n)) ==> n >= next
            && b.vcode_bb == bb.vcode_bb,
    decreases i,
{
    if i > 0 {
        cast_from_grows(
            Casting { bb, types, at: i - 1, next },
            deadline(bb.inst, i - 1),
            demands,
            v,
            i - 1,
            0,
        );
        if let Some(c) = cast_group(bb, types, demands, v, i - 1, next) {
            cast_block_grows(c.bb, c.types, demands, v, i - 1, c.next);
        }
    }
}

/// Inserting casts takes registers and keeps which blocks there are.
pub proof fn cast_blocks_grow(
    bbs: Seq<BBView>,
    types: TypesView,
    demands: Seq<Demand>,
    v: int,
    next: int,
)
    requires
        0 <= v <= bbs.len(),
    ensures
        cast_blocks(bbs, types, demands, v, next) matches Some(((r, t), n)) ==> {
            &&& n >= next
            &&& r.len() == bbs.len() - v
            &&& forall|i: int|
                0 <= i < r.len() ==> (#[trigger] r[i]).vcode_bb == bbs[v + i].vcode_bb
        },
    decreases bbs.len() - v,
{
    if v < bbs.len() {
        cast_block_grows(bbs[v], types, demands, v, bbs[v].inst.len() as int, next);
        if let Some((b, t, n)) = cast_block(
            bbs[v],
            types,
            demands,
            v,
            bbs[v].inst.len() as int,
            next,
        ) {
            cast_blocks_grow(bbs, t, demands, v + 1, n);
            if let Some(((rest, u), m)) = cast_blocks(bbs, t, demands, v + 1, n) {
                let r = seq![b] + rest;
                assert forall|i: int| 0 <= i < r.len() implies (#[trigger] r[i]).vcode_bb == bbs[v
                    + i].vcode_bb by {
                    if i > 0 {
                        assert(r[i] == rest[i - 1]);
                        assert(bbs[(v + 1) + (i - 1)] == bbs[v + i]);
                    }
                }
            }
        }
    }
}

/// Inserts one demanded cast. Returns the position of the instruction
/// afterwards, or `None` where the slot holds another register.
fn insert_cast(
    b: &mut VCodeBB,
    types: &mut TypeMap,
    at: usize,
    limit: usize,
    d: Demand,
    fresh: Reg,
    Ghost(next): Ghost<int>,
) -> (r: Option<usize>)
    requires
        old(types).wf(),
        limit <= at < old(b).inst@.len(),
        fresh == vreg(next),
    ensures
        final(types).wf(),
        ({
            let c = Casting { bb: old(b)@, types: old(types)@, at: at as int, next };
            match r {
                Some(n) => cast_one(c, limit as int, d) == Some(
                    Casting { bb: final(b)@, types: final(types)@, at: n as int, next: next + 1 },
                ) && limit <= n < final(b).inst@.len(),
                None => cast_one(c, limit as int, d) is None,
            }
        }),
{
    let ghost before = b@;
    assert(before.inst[at as int] == b.inst@[at as int]@);
    let len: usize = b.inst.len();
    let mut one = b.inst[at].copy();
    let mut defs = one.get_defs();
    if d.slot < defs.len() && defs[d.slot] == d.reg {
        defs.set(d.slot, fresh);
        one.set_defs(&defs);
        b.inst.set(at, one);
        b.inst.insert(at + 1, MInst::Cast { rd: d.reg, ty: d.ty, rs: fresh, out: 0 });
        return Some(at);
    }
    let mut uses = one.get_uses();
    if d.slot < uses.len() && uses[d.slot] == d.reg {
        uses.set(d.slot, fresh);
        one.set_uses(&uses);
        b.inst.set(at, one);
        types.update(fresh, d.ty);
        b.inst.insert(limit, MInst::Cast { rd: fresh, ty: d.ty, rs: d.reg, out: 0 });
        return Some(at + 1);
    }
    None
}

/// Inserts all casts demanded for an instruction.
fn insert_group(
    b: &mut VCodeBB,
    types: &mut TypeMap,
    demands: &Vec<Demand>,
    v: usize,
    i: usize,
    vregs: &mut VRegAllocator,
) -> (r: Result<(), CodegenError>)
    requires
        old(types).wf(),
        old(vregs).wf(),
        i < old(b).inst@.len(),
    ensures
        final(types).wf(),
        final(vregs).wf(),
        ({
            let c = cast_group(
                old(b)@,
                old(types)@,
                demands@,
                v as int,
                i as int,
                old(vregs).next as int,
            );
            match r {
                Ok(()) => {
                    &&& c is Some
                    &&& c->Some_0.bb == final(b)@
                    &&& c->Some_0.types == final(types)@
                    &&& c->Some_0.next == final(vregs).next
                    &&& i < final(b).inst@.len()
                },
                Err(e) => {
                    &&& c is None ==> e is Malformed || ran_out(e, final(vregs).next)
                    &&& c is Some ==> c->Some_0.next > VREG_LIMIT && ran_out(e, final(vregs).next)
                },
            }
        }),
{
    let ghost start = Casting {
        bb: b@,
        types: types@,
        at: i as int,
        next: vregs.next as int,
    };
    let ghost all = demands@;
    let mut first: usize = 0;
    while first < demands.len() && !(demands[first].bb == v && demands[first].inst == i)
        invariant
            first <= demands@.len(),
            all == demands@,
            first_for(all, v as int, i as int, 0) == first_for(all, v as int, i as int, first as int),
        decreases demands@.len() - first,
    {
        first = first + 1;
    }
    if first >= demands.len() {
        return Ok(());
    }
    let limit: usize = match find_deadline(&b.inst, i) {
        Some(limit) => limit,
        None => {
            return Err(CodegenError::Malformed);
        },
    };
    let mut at: usize = i;
    let ghost whole = cast_from(start, limit as int, all, v as int, i as int, 0);
    for k in 0..demands.len()
        invariant
            all == demands@,
            types.wf(),
            vregs.wf(),
            limit <= at < b.inst@.len(),
            limit <= i <= at,
            start == (Casting {
                bb: old(b)@,
                types: old(types)@,
                at: i as int,
                next: old(vregs).next as int,
            }),
            limit == deadline(old(b)@.inst, i as int),
            first_for(all, v as int, i as int, 0) < all.len(),
            whole == cast_from(start, limit as int, all, v as int, i as int, 0),
            whole == cast_from(
                Casting { bb: b@, types: types@, at: at as int, next: vregs.next as int },
                limit as int,
                all,
                v as int,
                i as int,
                k as int,
            ),
    {
        let d = demands[k];
        if d.bb == v && d.inst == i {
            let ghost c = Casting { bb: b@, types: types@, at: at as int, next: vregs.next as int };
            proof {
                if let Some(n) = cast_one(c, limit as int, d) {
                    cast_from_grows(n, limit as int, all, v as int, i as int, k as int + 1);
                }
            }
            let ghost next = vregs.next as int;
            let fresh = match vregs.fresh() {
                Ok(fresh) => fresh,
                Err(e) => {
                    return Err(e);
                },
            };
            match insert_cast(b, types, at, limit, d, fresh, Ghost(next)) {
                Some(n) => {
                    at = n;
                },
                None => {
                    return Err(CodegenError::Malformed);
                },
            }
        }
    }
    Ok(())
}

/// Inserts all casts demanded for a block, the last instruction first, so that
/// insertions do not shift the positions still to be handled.
fn insert_block_casts(
    bb: &VCodeBB,
    types: &mut TypeMap,
    demands: &Vec<Demand>,
    v: usize,
    vregs: &mut VRegAllocator,
) -> (r: Result<VCodeBB, CodegenError>)
    requires
        old(types).wf(),
        old(vregs).wf(),
    ensures
        final(types).wf(),
        final(vregs).wf(),
        ({
            let c = cast_block(
                bb@,
                old(types)@,
                demands@,
                v as int,
                bb@.inst.len() as int,
                old(vregs).next as int,
            );
            match r {
                Ok(b) => c == Some((b@, final(types)@, final(vregs).next as int)),
                Err(e) => {
                    &&& c is None ==> e is Malformed || ran_out(e, final(vregs).next)
                    &&& c is Some ==> c->Some_0.2 > VREG_LIMIT && ran_out(e, final(vregs).next)
                },
            }
        }),
{
    let mut b = bb.copy();
    let ghost whole = cast_block(
        bb@,
        types@,
        demands@,
        v as int,
        bb@.inst.len() as int,
        vregs.next as int,
    );
    let mut i: usize = b.inst.len();
    while i > 0
        invariant
            types.wf(),
            vregs.wf(),
            i <= b.inst@.len(),
            whole == cast_block(
                bb@,
                old(types)@,
                demands@,
                v as int,
                bb@.inst.len() as int,
                old(vregs).next as int,
            ),
            whole == cast_block(b@, types@, demands@, v as int, i as int, vregs.next as int),
        decreases i,
    {
        i = i - 1;
        proof {
            if let Some(c) = cast_group(
                b@,
                types@,
                demands@,
                v as int,
                i as int,
                vregs.next as int,
            ) {
                cast_block_grows(c.bb, c.types, demands@, v as int, i as int, c.next);
            }
        }
        match insert_group(&mut b, types, demands, v, i, vregs) {
            Ok(()) => {},
            Err(e) => {
                return Err(e);
            },
        }
    }
    Ok(b)
}

/// Applies the demanded re-tag casts: each demanded operand is routed through a
/// fresh register defined by a same-size cast to the demanded type, inserted
/// before the consuming instruction (before the issuing instruction, for
/// consumers that are triggers), and only that use is redirected. The fresh
/// register is given the demanded type.
pub fn apply_cast_demands(
    cfg: VCodeCFG,
    demands: &Vec<Demand>,
    types: &mut TypeMap,
    vregs: &mut VRegAllocator,
) -> (r: Result<VCodeCFG, CodegenError>)
    requires
        old(types).wf(),
        old(vregs).wf(),
        cfg.wf(),
    ensures
        final(types).wf(),
        final(vregs).wf(),
        match r {
            Ok(c) => {
                &&& c.wf()
                &&& c.graph == cfg.graph
                &&& c.root == cfg.root
                &&& cast_blocks(
                    cfg.bbs(),
                    old(types)@,
                    demands@,
                    0,
                    old(vregs).next as int,
                ) == Some(((c.bbs(), final(types)@), final(vregs).next as int))
            },
            Err(e) => refused(
                cast_blocks(cfg.bbs(), old(types)@, demands@, 0, old(vregs).next as int),
                e,
                final(vregs).next,
            ),
        },
{
    let ghost bbs = cfg.bbs();
    let ghost whole = cast_blocks(bbs, types@, demands@, 0, vregs.next as int);
    let mut blocks: Vec<VCodeBB> = Vec::new();
    for v in 0..cfg.blocks.len()
        invariant
            types.wf(),
            vregs.wf(),
            bbs == cfg.bbs(),
            blocks@.len() == v,
            whole == cast_blocks(bbs, old(types)@, demands@, 0, old(vregs).next as int),
            whole == (match cast_blocks(bbs, types@, demands@, v as int, vregs.next as int) {
                None => None,
                Some(((rest, t), m)) => Some(((bb_views(blocks@) + rest, t), m)),
            }),
    {
        broadcast use crate::bb::bb_views_push;

        assert(bbs[v as int] == cfg.blocks@[v as int]@);
        proof {
            if let Some((b, t, n)) = cast_block(
                bbs[v as int],
                types@,
                demands@,
                v as int,
                bbs[v as int].inst.len() as int,
                vregs.next as int,
            ) {
                cast_blocks_grow(bbs, t, demands@, v as int + 1, n);
            }
        }
        match insert_block_casts(&cfg.blocks[v], types, demands, v, vregs) {
            Err(e) => {
                return Err(e);
            },
            Ok(b) => {
                let ghost before = bb_views(blocks@);
                blocks.push(b);
                proof {
                    if let Some(((rest, t), m)) = cast_blocks(
                        bbs,
                        types@,
                        demands@,
                        v as int + 1,
                        vregs.next as int,
                    ) {
                        assert(before + (seq![b@] + rest) =~= bb_views(blocks@) + rest);
                    }
                }
            },
        }
    }
    proof {
        cast_blocks_grow(bbs, old(types)@, demands@, 0, old(vregs).next as int);
        assert(bb_views(blocks@) + Seq::<BBView>::empty() =~= bb_views(blocks@));
    }
    let c = cfg.with_blocks(blocks);
    assert(c.wf()) by {
        let r = c.bbs();
        assert forall|i: int, j: int| 0 <= i < j < r.len() implies (#[trigger] r[i]).vcode_bb != (
        #[trigger] r[j]).vcode_bb by {
            assert(bbs[i].vcode_bb != bbs[j].vcode_bb);
            assert(bbs[0 + i] == bbs[i] && bbs[0 + j] == bbs[j]);
        }
    }
    Ok(c)
}

} // verus!
