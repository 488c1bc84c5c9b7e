//! Turns values used across blocks into block parameters.
use crate::bb::{bb_views, BBView, VCodeBB};
use crate::cfg::{succs_wf, VCodeCFG};
use crate::flow::args_position;
use crate::inst::{views, MInst, MInstView};
use crate::pass::{refused, settled, settled_done, settled_keeps, settled_next, Step};
use crate::passes::order::{find_place, place_of};
use crate::reg::{copy_regs, vreg, Block, CodegenError, Reg, VRegAllocator, VREG_LIMIT};
use crate::rename::contains_reg;
use crate::typemap::{spec_reg_code, REG_CODES};
use vstd::prelude::*;

verus! {

/// A list of registers with one added, unless it has it.
pub open spec fn with_reg(regs: Seq<Reg>, r: Reg) -> Seq<Reg> {
    if regs.contains(r) {
        regs
    } else {
        regs.push(r)
    }
}

/// A list with the registers from the `k`th on added, but for those excluded.
pub open spec fn with_regs(acc: Seq<Reg>, regs: Seq<Reg>, excluded: Seq<Reg>, k: int) -> Seq<Reg>
    decreases regs.len() - k,
{
    if k >= regs.len() {
        acc
    } else if excluded.contains(regs[k]) {
        with_regs(acc, regs, excluded, k + 1)
    } else {
        with_regs(with_reg(acc, regs[k]), regs, excluded, k + 1)
    }
}

/// The registers that instructions from the `i`th on define, after `acc`.
pub open spec fn defs_from(insts: Seq<MInstView>, i: int, acc: Seq<Reg>) -> Seq<Reg>
    decreases insts.len() - i,
{
    if i >= insts.len() {
        acc
    } else {
        defs_from(insts, i + 1, acc + insts[i].defs())
    }
}

/// The registers that a block defines: its parameters and those of its
/// instructions.
pub open spec fn block_defs(bb: BBView) -> Seq<Reg> {
    defs_from(bb.inst, 0, bb.params)
}

/// The registers that instructions from the `i`th on use without an earlier
/// definition.
pub open spec fn undefined_from(
    insts: Seq<MInstView>,
    i: int,
    defs: Seq<Reg>,
    acc: Seq<Reg>,
) -> Seq<Reg>
    decreases insts.len() - i,
{
    if i >= insts.len() {
        acc
    } else {
        undefined_from(
            insts,
            i + 1,
            defs + insts[i].defs(),
            with_regs(acc, insts[i].uses(), defs, 0),
        )
    }
}

/// A list with the registers passed to the successors from the `k`th on added, but
/// for those excluded.
pub open spec fn with_passed(
    acc: Seq<Reg>,
    args: Seq<(Block, Seq<Reg>)>,
    excluded: Seq<Reg>,
    k: int,
) -> Seq<Reg>
    decreases args.len() - k,
{
    if k >= args.len() {
        acc
    } else {
        with_passed(with_regs(acc, args[k].1, excluded, 0), args, excluded, k + 1)
    }
}

/// The registers that a block's instructions use without an earlier definition in
/// it, and those that it passes on without any.
pub open spec fn undefined_uses(bb: BBView) -> Seq<Reg> {
    with_passed(
        undefined_from(bb.inst, 0, bb.params, Seq::empty()),
        bb.branch_params,
        block_defs(bb),
        0,
    )
}

/// The live-ins of each block.
pub type LiveIns = Seq<Seq<Reg>>;

/// The live-ins of a block with those of its successors from the `k`th on, as
/// far as the block does not define them.
pub open spec fn with_succs(
    acc: Seq<Reg>,
    live: LiveIns,
    succs: Seq<usize>,
    defs: Seq<Reg>,
    k: int,
) -> Seq<Reg>
    decreases succs.len() - k,
{
    if k >= succs.len() {
        acc
    } else {
        with_succs(with_regs(acc, live[succs[k] as int], defs, 0), live, succs, defs, k + 1)
    }
}

/// The live-ins with those of the blocks from `v` on brought up to date.
pub open spec fn live_swept(
    bbs: Seq<BBView>,
    succs: Map<usize, Seq<usize>>,
    live: LiveIns,
    v: int,
) -> LiveIns
    decreases bbs.len() - v,
{
    if v >= bbs.len() {
        live
    } else {
        live_swept(
            bbs,
            succs,
            live.update(
                v,
                with_succs(live[v], live, succs[v as usize], block_defs(bbs[v]), 0),
            ),
            v + 1,
        )
    }
}

/// The steps by which the live-ins are found: those of the successors are added
/// until that changes nothing.
pub open spec fn live_steps(bbs: Seq<BBView>, succs: Map<usize, Seq<usize>>) -> spec_fn(
    LiveIns,
) -> Step<LiveIns> {
    |live: LiveIns|
        {
            let next = live_swept(bbs, succs, live, 0);
            if next == live {
                Step::Done
            } else {
                Step::Next(next)
            }
        }
}

/// What each block uses without a definition.
pub open spec fn live_start(bbs: Seq<BBView>) -> LiveIns {
    Seq::new(bbs.len(), |v: int| undefined_uses(bbs[v]))
}

/// The live-ins of all blocks: the registers that a block, or a block after it,
/// uses and that are defined in neither on the way.
pub open spec fn live_ins(bbs: Seq<BBView>, succs: Map<usize, Seq<usize>>) -> Option<LiveIns> {
    settled(live_steps(bbs, succs), live_start(bbs))
}

/// How many live-ins the blocks before `v` have.
pub open spec fn live_before(live: LiveIns, v: int) -> int
    decreases v,
{
    if v <= 0 {
        0
    } else {
        live_before(live, v - 1) + live[v - 1].len()
    }
}

/// A block's own name for a register: live-ins arrive as fresh parameters, the
/// first of which is `base`.
pub open spec fn name_in(live: Seq<Reg>, base: int, r: Reg) -> Reg {
    let j = place_of(live, r, 0);
    if j < live.len() {
        vreg(base + j)
    } else {
        r
    }
}

/// Registers under the block's own names.
pub open spec fn names_in(live: Seq<Reg>, base: int, regs: Seq<Reg>) -> Seq<Reg> {
    Seq::new(regs.len(), |i: int| name_in(live, base, regs[i]))
}

/// The lists of passed registers under the block's own names, extended by the
/// live-ins of the successors from the `k`th on; `None` where a successor has no
/// list.
pub open spec fn args_named(
    args: Seq<(Block, Seq<Reg>)>,
    bbs: Seq<BBView>,
    live: LiveIns,
    v: int,
    base: int,
    succs: Seq<usize>,
    k: int,
) -> Option<Seq<(Block, Seq<Reg>)>>
    decreases succs.len() - k,
{
    if k >= succs.len() {
        Some(args)
    } else {
        let s = succs[k] as int;
        let at = args_position(args, bbs[s].vcode_bb, 0);
        if at >= args.len() {
            None
        } else {
            let passed = names_in(live[v], base, args[at].1) + names_in(live[v], base, live[s]);
            args_named(
                args.update(at, (args[at].0, passed)),
                bbs,
                live,
                v,
                base,
                succs,
                k + 1,
            )
        }
    }
}

/// A block with its live-ins as parameters.
pub open spec fn block_explicit(
    bbs: Seq<BBView>,
    succs: Map<usize, Seq<usize>>,
    live: LiveIns,
    v: int,
    next: int,
) -> Option<BBView> {
    let base = next + live_before(live, v);
    let bb = bbs[v];
    match args_named(bb.branch_params, bbs, live, v, base, succs[v as usize], 0) {
        None => None,
        Some(branch_params) => Some(
            BBView {
                params: bb.params + Seq::new(live[v].len(), |i: int| vreg(base + i)),
                inst: Seq::new(
                    bb.inst.len(),
                    |i: int| bb.inst[i].with_uses(names_in(live[v], base, bb.inst[i].uses())),
                ),
                branch_params,
                ..bb
            },
        ),
    }
}

/// The blocks from `v` on with their live-ins as parameters.
pub open spec fn blocks_explicit(
    bbs: Seq<BBView>,
    succs: Map<usize, Seq<usize>>,
    live: LiveIns,
    v: int,
    next: int,
) -> Option<Seq<BBView>>
    decreases bbs.len() - v,
{
    if v >= bbs.len() {
        Some(Seq::empty())
    } else {
        match (
            block_explicit(bbs, succs, live, v, next),
            blocks_explicit(bbs, succs, live, v + 1, next),
        ) {
            (Some(b), Some(rest)) => Some(seq![b] + rest),
            _ => None,
        }
    }
}

/// All blocks with their live-ins as parameters. The entry block has no
/// predecessors to receive from: a live-in there is a use without a definition.
pub open spec fn live_ins_explicit(
    bbs: Seq<BBView>,
    succs: Map<usize, Seq<usize>>,
    root: int,
    next: int,
) -> Option<(Seq<BBView>, int)> {
    match live_ins(bbs, succs) {
        None => None,
        Some(live) => {
            let total = live_before(live, bbs.len() as int);
            if total == 0 {
                Some((bbs, next))
            } else if live[root].len() != 0 {
                None
            } else {
                match blocks_explicit(bbs, succs, live, 0, next) {
                    Some(b) => Some((b, next + total)),
                    None => None,
                }
            }
        },
    }
}

/// Whether each list has every register once.
spec fn lists_distinct(live: LiveIns) -> bool {
    forall|v: int| 0 <= v < live.len() ==> (#[trigger] live[v]).no_duplicates()
}

proof fn with_regs_distinct(acc: Seq<Reg>, regs: Seq<Reg>, excluded: Seq<Reg>, k: int)
    requires
        acc.no_duplicates(),
    ensures
        with_regs(acc, regs, excluded, k).no_duplicates(),
        with_regs(acc, regs, excluded, k).len() >= acc.len(),
        with_regs(acc, regs, excluded, k).len() == acc.len() ==> with_regs(acc, regs, excluded, k)
            == acc,
    decreases regs.len() - k,
{
    if k < regs.len() {
        if excluded.contains(regs[k]) {
            with_regs_distinct(acc, regs, excluded, k + 1);
        } else {
            let a = with_reg(acc, regs[k]);
            assert(a.no_duplicates());
            with_regs_distinct(a, regs, excluded, k + 1);
        }
    }
}

proof fn undefined_distinct(insts: Seq<MInstView>, i: int, defs: Seq<Reg>, acc: Seq<Reg>)
    requires
        acc.no_duplicates(),
    ensures
        undefined_from(insts, i, defs, acc).no_duplicates(),
    decreases insts.len() - i,
{
    if i < insts.len() {
        with_regs_distinct(acc, insts[i].uses(), defs, 0);
        undefined_distinct(
            insts,
            i + 1,
            defs + insts[i].defs(),
            with_regs(acc, insts[i].uses(), defs, 0),
        );
    }
}

proof fn with_passed_distinct(
    acc: Seq<Reg>,
    args: Seq<(Block, Seq<Reg>)>,
    excluded: Seq<Reg>,
    k: int,
)
    requires
        acc.no_duplicates(),
    ensures
        with_passed(acc, args, excluded, k).no_duplicates(),
    decreases args.len() - k,
{
    if k < args.len() {
        with_regs_distinct(acc, args[k].1, excluded, 0);
        with_passed_distinct(with_regs(acc, args[k].1, excluded, 0), args, excluded, k + 1);
    }
}

proof fn with_succs_distinct(acc: Seq<Reg>, live: LiveIns, succs: Seq<usize>, defs: Seq<Reg>, k: int)
    requires
        acc.no_duplicates(),
    ensures
        with_succs(acc, live, succs, defs, k).no_duplicates(),
        with_succs(acc, live, succs, defs, k).len() >= acc.len(),
        with_succs(acc, live, succs, defs, k).len() == acc.len() ==> with_succs(
            acc,
            live,
            succs,
            defs,
            k,
        ) == acc,
    decreases succs.len() - k,
{
    if k < succs.len() {
        with_regs_distinct(acc, live[succs[k] as int], defs, 0);
        with_succs_distinct(
            with_regs(acc, live[succs[k] as int], defs, 0),
            live,
            succs,
            defs,
            k + 1,
        );
    }
}

/// There are only so many different registers.
proof fn distinct_bound(regs: Seq<Reg>)
    requires
        regs.no_duplicates(),
    ensures
        regs.len() <= REG_CODES,
{
    let codes = Seq::new(regs.len(), |i: int| spec_reg_code(regs[i]) as int);
    assert(codes.no_duplicates()) by {
        assert forall|i: int, j: int| 0 <= i < codes.len() && 0 <= j < codes.len() && i != j implies codes[i]
            != codes[j] by {
            if codes[i] == codes[j] {
                crate::typemap::reg_code_injective(regs[i], regs[j]);
            }
        }
    }
    codes.unique_seq_to_set();
    let all = vstd::set_lib::set_int_range(0, REG_CODES as int);
    vstd::set_lib::lemma_int_range(0, REG_CODES as int);
    assert(codes.to_set().subset_of(all)) by {
        assert forall|c: int| codes.to_set().contains(c) implies all.contains(c) by {
            let i = choose|i: int| 0 <= i < codes.len() && codes[i] == c;
            assert(spec_reg_code(regs[i]) < REG_CODES);
        }
    }
    vstd::set_lib::lemma_len_subset(codes.to_set(), all);
}

proof fn live_before_mono(a: LiveIns, b: LiveIns, k: int)
    requires
        forall|v: int| 0 <= v < k ==> (#[trigger] a[v]).len() <= b[v].len(),
        forall|v: int|
            0 <= v < k ==> ((#[trigger] a[v]).len() == b[v].len() ==> a[v] == b[v]),
    ensures
        live_before(a, k) <= live_before(b, k),
        live_before(a, k) == live_before(b, k) ==> forall|v: int| 0 <= v < k ==> #[trigger] a[v] == b[v],
    decreases k,
{
    if k > 0 {
        live_before_mono(a, b, k - 1);
        assert(a[k - 1].len() <= b[k - 1].len());
    }
}

proof fn live_before_bound(live: LiveIns, k: int)
    requires
        lists_distinct(live),
        0 <= k <= live.len(),
    ensures
        0 <= live_before(live, k) <= k * REG_CODES,
    decreases k,
{
    if k > 0 {
        live_before_bound(live, k - 1);
        distinct_bound(live[k - 1]);
        assert(k * REG_CODES == (k - 1) * REG_CODES + REG_CODES) by (nonlinear_arith);
    }
}

/// A sweep adds to the lists, if anything.
proof fn sweep_adds(bbs: Seq<BBView>, succs: Map<usize, Seq<usize>>, live: LiveIns, v: int)
    requires
        0 <= v,
        lists_distinct(live),
        live.len() == bbs.len(),
    ensures
        ({
            let t = live_swept(bbs, succs, live, v);
            &&& t.len() == live.len()
            &&& lists_distinct(t)
            &&& forall|w: int| 0 <= w < live.len() ==> (#[trigger] live[w]).len() <= t[w].len()
            &&& forall|w: int|
                0 <= w < live.len() ==> ((#[trigger] live[w]).len() == t[w].len() ==> live[w]
                    == t[w])
        }),
    decreases bbs.len() - v,
{
    if v < bbs.len() {
        let defs = block_defs(bbs[v]);
        with_succs_distinct(live[v], live, succs[v as usize], defs, 0);
        let u = live.update(v, with_succs(live[v], live, succs[v as usize], defs, 0));
        assert(lists_distinct(u));
        sweep_adds(bbs, succs, u, v + 1);
        let t = live_swept(bbs, succs, live, v);
        assert forall|w: int| 0 <= w < live.len() implies (#[trigger] live[w]).len() <= t[w].len()
            && (live[w].len() == t[w].len() ==> live[w] == t[w]) by {
            assert(u[w].len() <= t[w].len());
        }
    }
}

/// Lists of registers as mathematical values.
pub open spec fn lists_view(lists: Seq<Vec<Reg>>) -> LiveIns {
    Seq::new(lists.len(), |i: int| lists[i]@)
}

/// Adds registers to a list, but for those excluded.
fn add_regs(acc: &mut Vec<Reg>, regs: &Vec<Reg>, excluded: &Vec<Reg>)
    ensures
        final(acc)@ == with_regs(old(acc)@, regs@, excluded@, 0),
{
    for k in 0..regs.len()
        invariant
            with_regs(old(acc)@, regs@, excluded@, 0) == with_regs(
                acc@,
                regs@,
                excluded@,
                k as int,
            ),
    {
        if !contains_reg(excluded, regs[k]) {
            if !contains_reg(acc, regs[k]) {
                acc.push(regs[k]);
            }
        }
    }
}

/// The registers that a block defines.
fn find_block_defs(bb: &VCodeBB) -> (r: Vec<Reg>)
    ensures
        r@ == block_defs(bb@),
{
    let ghost insts = bb@.inst;
    let mut r = copy_regs(&bb.params);
    for i in 0..bb.inst.len()
        invariant
            insts == views(bb.inst@),
            defs_from(insts, 0, bb.params@) == defs_from(insts, i as int, r@),
    {
        assert(insts[i as int] == bb.inst@[i as int]@);
        let mut ds = bb.inst[i].get_defs();
        r.append(&mut ds);
    }
    r
}

/// The registers that a block uses, or passes on, without a definition in it.
fn find_undefined(bb: &VCodeBB, all_defs: &Vec<Reg>) -> (r: Vec<Reg>)
    requires
        all_defs@ == block_defs(bb@),
    ensures
        r@ == undefined_uses(bb@),
{
    let ghost insts = bb@.inst;
    let ghost args = bb@.branch_params;
    let mut defs = copy_regs(&bb.params);
    let mut r: Vec<Reg> = Vec::new();
    for i in 0..bb.inst.len()
        invariant
            insts == views(bb.inst@),
            undefined_from(insts, 0, bb.params@, Seq::empty()) == undefined_from(
                insts,
                i as int,
                defs@,
                r@,
            ),
    {
        assert(insts[i as int] == bb.inst@[i as int]@);
        let uses = bb.inst[i].get_uses();
        add_regs(&mut r, &uses, &defs);
        let mut ds = bb.inst[i].get_defs();
        defs.append(&mut ds);
    }
    assert(undefined_from(insts, 0, bb.params@, Seq::empty()) == r@);
    for k in 0..bb.branch_params.len()
        invariant
            args == bb@.branch_params,
            all_defs@ == block_defs(bb@),
            with_passed(
                undefined_from(bb@.inst, 0, bb.params@, Seq::empty()),
                args,
                all_defs@,
                0,
            ) == with_passed(r@, args, all_defs@, k as int),
    {
        assert(args[k as int].1 == bb.branch_params@[k as int].1@);
        add_regs(&mut r, &bb.branch_params[k].1, all_defs);
    }
    assert(args.len() == bb.branch_params@.len());
    r
}

/// Brings the live-ins of all blocks up to date once. Returns whether any were
/// added.
fn sweep_live(cfg: &VCodeCFG, defs: &Vec<Vec<Reg>>, live: &mut Vec<Vec<Reg>>) -> (changed: bool)
    requires
        cfg.wf(),
        old(live)@.len() == cfg.blocks@.len(),
        defs@.len() == cfg.blocks@.len(),
        forall|v: int|
            0 <= v < defs@.len() ==> (#[trigger] defs@[v])@ == block_defs(cfg.bbs()[v]),
        lists_distinct(lists_view(old(live)@)),
    ensures
        lists_view(final(live)@) == live_swept(cfg.bbs(), cfg.succs(), lists_view(old(live)@), 0),
        changed == (lists_view(final(live)@) != lists_view(old(live)@)),
{
    let ghost bbs = cfg.bbs();
    let ghost succs = cfg.succs();
    let ghost start = lists_view(live@);
    let n: usize = cfg.blocks.len();
    let mut changed: bool = false;
    for v in 0..n
        invariant
            n == cfg.blocks@.len(),
            n == bbs.len(),
            cfg.wf(),
            bbs == cfg.bbs(),
            succs == cfg.succs(),
            live@.len() == n,
            start.len() == n,
            defs@.len() == n,
            forall|v: int| 0 <= v < n ==> (#[trigger] defs@[v])@ == block_defs(bbs[v]),
            start == lists_view(old(live)@),
            lists_distinct(lists_view(live@)),
            live_swept(bbs, succs, start, 0) == live_swept(
                bbs,
                succs,
                lists_view(live@),
                v as int,
            ),
            !changed ==> lists_view(live@) == start,
            forall|w: int|
                0 <= w < n ==> (#[trigger] start[w]).len() <= lists_view(live@)[w].len(),
            changed ==> exists|w: int|
                0 <= w < n && (#[trigger] start[w]).len() < lists_view(live@)[w].len(),
    {
        let ghost l0 = lists_view(live@);
        let out = cfg.successors(v);
        let mut acc = copy_regs(&live[v]);
        let ghost dv = defs@[v as int]@;
        for k in 0..out.len()
            invariant
                n == live@.len(),
                l0 == lists_view(live@),
                out@ == succs[v],
                succs_wf(succs, n as nat),
                v < n,
                n == defs@.len(),
                dv == defs@[v as int]@,
                with_succs(l0[v as int], l0, out@, dv, 0) == with_succs(
                    acc@,
                    l0,
                    out@,
                    dv,
                    k as int,
                ),
        {
            let s: usize = out[k];
            assert(succs[v][k as int] < n);
            assert(l0[s as int] == live@[s as int]@);
            add_regs(&mut acc, &live[s], &defs[v]);
        }
        proof {
            with_succs_distinct(l0[v as int], l0, out@, dv, 0);
            assert(dv == block_defs(bbs[v as int]));
        }
        let grew: bool = acc.len() != live[v].len();
        let ghost new = acc@;
        live.set(v, acc);
        assert(lists_view(live@) =~= l0.update(v as int, new));
        proof {
            if !grew {
                assert(l0.update(v as int, new) =~= l0);
            } else {
                assert(start[v as int].len() < lists_view(live@)[v as int].len());
            }
            let l1 = lists_view(live@);
            assert forall|w: int| 0 <= w < n implies (#[trigger] l1[w]).no_duplicates() by {
                assert(l0[w].no_duplicates());
            }
            assert forall|w: int| 0 <= w < n implies (#[trigger] start[w]).len() <= l1[w].len() by {
                assert(start[w].len() <= l0[w].len());
            }
            if changed {
                let w = choose|w: int| 0 <= w < n && (#[trigger] start[w]).len() < l0[w].len();
                assert(start[w].len() < l1[w].len());
            }
        }
        changed = changed || grew;
    }
    changed
}

/// The live-ins of all blocks.
fn find_live_ins(cfg: &VCodeCFG) -> (r: Vec<Vec<Reg>>)
    requires
        cfg.wf(),
    ensures
        live_ins(cfg.bbs(), cfg.succs()) == Some(lists_view(r@)),
        r@.len() == cfg.blocks@.len(),
        lists_distinct(lists_view(r@)),
{
    let ghost bbs = cfg.bbs();
    let ghost succs = cfg.succs();
    let n: usize = cfg.blocks.len();
    let mut defs: Vec<Vec<Reg>> = Vec::new();
    let mut live: Vec<Vec<Reg>> = Vec::new();
    for v in 0..n
        invariant
            n == cfg.blocks@.len(),
            bbs == cfg.bbs(),
            defs@.len() == v,
            live@.len() == v,
            forall|w: int| 0 <= w < v ==> (#[trigger] defs@[w])@ == block_defs(bbs[w]),
            forall|w: int| 0 <= w < v ==> (#[trigger] live@[w])@ == undefined_uses(bbs[w]),
    {
        assert(bbs[v as int] == cfg.blocks@[v as int]@);
        let own = find_block_defs(&cfg.blocks[v]);
        live.push(find_undefined(&cfg.blocks[v], &own));
        defs.push(own);
    }
    let ghost start = live_start(bbs);
    assert(lists_view(live@) =~= start);
    let ghost steps = live_steps(bbs, succs);
    assert(lists_distinct(start)) by {
        assert forall|v: int| 0 <= v < start.len() implies (#[trigger] start[v]).no_duplicates() by {
            undefined_distinct(bbs[v].inst, 0, bbs[v].params, Seq::empty());
            with_passed_distinct(
                undefined_from(bbs[v].inst, 0, bbs[v].params, Seq::empty()),
                bbs[v].branch_params,
                block_defs(bbs[v]),
                0,
            );
        }
    }
    loop
        invariant
            cfg.wf(),
            n == cfg.blocks@.len(),
            bbs == cfg.bbs(),
            succs == cfg.succs(),
            live@.len() == n,
            defs@.len() == n,
            forall|w: int| 0 <= w < n ==> (#[trigger] defs@[w])@ == block_defs(bbs[w]),
            steps == live_steps(bbs, succs),
            start == live_start(bbs),
            lists_distinct(lists_view(live@)),
            settled(steps, start) == settled(steps, lists_view(live@)),
        decreases n * REG_CODES - live_before(lists_view(live@), n as int),
    {
        let ghost l0 = lists_view(live@);
        proof {
            sweep_adds(bbs, succs, l0, 0);
        }
        if !sweep_live(cfg, &defs, &mut live) {
            proof {
                settled_done(steps, l0);
            }
            return live;
        }
        proof {
            let l1 = lists_view(live@);
            assert(l1.len() == live@.len());
            settled_next(steps, l0);
            live_before_mono(l0, l1, n as int);
            live_before_bound(l1, n as int);
            if live_before(l0, n as int) == live_before(l1, n as int) {
                assert(l0 =~= l1);
            }
        }
    }
}

/// The block's own name for a register.
fn own_name(live: &Vec<Reg>, base: u32, r: Reg) -> (q: Reg)
    requires
        base + live@.len() <= VREG_LIMIT,
    ensures
        q == name_in(live@, base as int, r),
{
    let j: usize = find_place(live, r);
    if j < live.len() {
        Reg::Virtual(base + j as u32)
    } else {
        r
    }
}

/// Registers under the block's own names.
fn own_names(live: &Vec<Reg>, base: u32, regs: &Vec<Reg>) -> (r: Vec<Reg>)
    requires
        base + live@.len() <= VREG_LIMIT,
    ensures
        r@ == names_in(live@, base as int, regs@),
{
    let mut r: Vec<Reg> = Vec::new();
    for i in 0..regs.len()
        invariant
            base + live@.len() <= VREG_LIMIT,
            r@ == names_in(live@, base as int, regs@).take(i as int),
    {
        r.push(own_name(live, base, regs[i]));
        assert(r@ =~= names_in(live@, base as int, regs@).take(i as int + 1));
    }
    assert(r@ =~= names_in(live@, base as int, regs@));
    r
}

/// A block with its live-ins as parameters.
fn make_block_explicit(
    cfg: &VCodeCFG,
    live: &Vec<Vec<Reg>>,
    v: usize,
    base: u32,
    Ghost(next): Ghost<int>,
) -> (r: Result<VCodeBB, CodegenError>)
    requires
        cfg.wf(),
        v < cfg.blocks@.len(),
        live@.len() == cfg.blocks@.len(),
        base == next + live_before(lists_view(live@), v as int),
        base + live@[v as int]@.len() <= VREG_LIMIT,
    ensures
        match r {
            Ok(b) => block_explicit(
                cfg.bbs(),
                cfg.succs(),
                lists_view(live@),
                v as int,
                next,
            ) == Some(b@),
            Err(e) => e is Malformed && block_explicit(
                cfg.bbs(),
                cfg.succs(),
                lists_view(live@),
                v as int,
                next,
            ) is None,
        },
{
    let ghost bbs = cfg.bbs();
    let ghost lv = lists_view(live@);
    let ghost bb = bbs[v as int];
    assert(bb == cfg.blocks@[v as int]@);
    assert(lv[v as int] == live@[v as int]@);
    let mine = &live[v];
    let mut b = cfg.blocks[v].copy();
    // The parameters.
    let ghost fresh = Seq::new(mine@.len(), |i: int| vreg(base + i));
    for i in 0..mine.len()
        invariant
            base + mine@.len() <= VREG_LIMIT,
            fresh == Seq::new(mine@.len(), |i: int| vreg(base + i)),
            b@ == (BBView { params: bb.params + fresh.take(i as int), ..bb }),
    {
        b.params.push(Reg::Virtual(base + i as u32));
        assert(b@.params =~= bb.params + fresh.take(i as int + 1));
    }
    assert(fresh.take(mine@.len() as int) =~= fresh);
    // The uses.
    let mut insts: Vec<MInst> = Vec::new();
    let ghost renamed = Seq::new(
        bb.inst.len(),
        |i: int| bb.inst[i].with_uses(names_in(mine@, base as int, bb.inst[i].uses())),
    );
    let count: usize = b.inst.len();
    for i in 0..count
        invariant
            count == b.inst@.len(),
            b@.inst == bb.inst,
            base + mine@.len() <= VREG_LIMIT,
            renamed == Seq::new(
                bb.inst.len(),
                |i: int| bb.inst[i].with_uses(names_in(mine@, base as int, bb.inst[i].uses())),
            ),
            views(insts@) == renamed.take(i as int),
    {
        broadcast use crate::inst::views_push;

        assert(bb.inst[i as int] == b.inst@[i as int]@);
        let mut one = b.inst[i].copy();
        let uses = one.get_uses();
        let us = own_names(mine, base, &uses);
        one.set_uses(&us);
        insts.push(one);
        assert(views(insts@) =~= renamed.take(i as int + 1));
    }
    assert(views(insts@) =~= renamed);
    b.inst = insts;
    // The passed registers.
    let out = cfg.successors(v);
    let ghost succs = cfg.succs();
    for k in 0..out.len()
        invariant
            cfg.wf(),
            bbs == cfg.bbs(),
            succs == cfg.succs(),
            v < cfg.blocks@.len(),
            live@.len() == cfg.blocks@.len(),
            lv == lists_view(live@),
            mine@ == lv[v as int],
            out@ == succs[v],
            base + mine@.len() <= VREG_LIMIT,
            b@ == (BBView {
                params: bb.params + fresh,
                inst: renamed,
                branch_params: b@.branch_params,
                ..bb
            }),
            args_named(bb.branch_params, bbs, lv, v as int, base as int, out@, 0) == args_named(
                b@.branch_params,
                bbs,
                lv,
                v as int,
                base as int,
                out@,
                k as int,
            ),
            base == next + live_before(lv, v as int),
            bb == bbs[v as int],
    {
        let s: usize = out[k];
        assert(succs[v].no_duplicates());
        assert(s < cfg.blocks@.len());
        assert(bbs[s as int] == cfg.blocks@[s as int]@);
        assert(lv[s as int] == live@[s as int]@);
        let ghost args0 = b@.branch_params;
        match b.find_args(cfg.blocks[s].vcode_bb) {
            Some(at) => {
                assert(args0[at as int].1 == b.branch_params@[at as int].1@);
                let block = b.branch_params[at].0;
                let mut passed = own_names(mine, base, &b.branch_params[at].1);
                let mut more = own_names(mine, base, &live[s]);
                passed.append(&mut more);
                let ghost pv = passed@;
                b.branch_params.set(at, (block, passed));
                assert(b@.branch_params =~= args0.update(at as int, (args0[at as int].0, pv)));
            },
            None => {
                return Err(CodegenError::Malformed);
            },
        }
    }
    Ok(b)
}

proof fn live_before_part(live: LiveIns, v: int, n: int)
    requires
        0 <= v <= n,
    ensures
        live_before(live, v) <= live_before(live, n),
    decreases n,
{
    if v < n {
        live_before_part(live, v, n - 1);
    }
}

proof fn explicit_len(
    bbs: Seq<BBView>,
    succs: Map<usize, Seq<usize>>,
    live: LiveIns,
    v: int,
    next: int,
)
    requires
        0 <= v <= bbs.len(),
    ensures
        blocks_explicit(bbs, succs, live, v, next) matches Some(r) ==> r.len() == bbs.len() - v
            && forall|i: int| 0 <= i < r.len() ==> (#[trigger] r[i]).vcode_bb == bbs[v + i].vcode_bb,
    decreases bbs.len() - v,
{
    if v < bbs.len() {
        explicit_len(bbs, succs, live, v + 1, next);
        if let Some(rest) = blocks_explicit(bbs, succs, live, v + 1, next) {
            if let Some(b) = block_explicit(bbs, succs, live, v, next) {
                let r = seq![b] + rest;
                assert forall|i: int| 0 <= i < r.len() implies (#[trigger] r[i]).vcode_bb == bbs[v
                    + i].vcode_bb by {
                    if i > 0 {
                        assert(r[i] == rest[i - 1]);
                        assert(bbs[(v + 1) + (i - 1)] == bbs[v + i]);
                    }
                }
            }
        }
    }
}

/// Makes every cross-block value use explicit as block parameters.
///
/// Values may be used outside the block that defines them without being passed
/// as parameters. This pass has such values passed as block parameters instead.
pub fn make_live_ins_explicit(cfg: VCodeCFG, vregs: &mut VRegAllocator) -> (r: Result<
    VCodeCFG,
    CodegenError,
>)
    requires
        old(vregs).wf(),
        cfg.wf(),
    ensures
        final(vregs).wf(),
        ({
            let whole = live_ins_explicit(
                cfg.bbs(),
                cfg.succs(),
                cfg.root as int,
                old(vregs).next as int,
            );
            match r {
                Ok(c) => {
                    &&& c.wf()
                    &&& c.graph == cfg.graph
                    &&& c.root == cfg.root
                    &&& whole == Some((c.bbs(), final(vregs).next as int))
                },
                Err(e) => refused(whole, e, final(vregs).next),
            }
        }),
{
    let ghost bbs = cfg.bbs();
    let ghost succs = cfg.succs();
    let ghost next = vregs.next as int;
    let n: usize = cfg.blocks.len();
    let live = find_live_ins(&cfg);
    let ghost lv = lists_view(live@);
    proof {
        live_before_part(lv, 0, n as int);
    }
    let mut end: u32 = vregs.next;
    for v in 0..n
        invariant
            n == live@.len(),
            lv == lists_view(live@),
            vregs.next == next,
            vregs.wf(),
            next == old(vregs).next,
            end == next + live_before(lv, v as int),
            end <= VREG_LIMIT,
            live_ins(bbs, succs) == Some(lv),
            bbs.len() == n,
            bbs == cfg.bbs(),
            succs == cfg.succs(),
    {
        assert(lv[v as int] == live@[v as int]@);
        let len: usize = live[v].len();
        if len > (VREG_LIMIT - end) as usize {
            proof {
                live_before_part(lv, v as int + 1, n as int);
            }
            vregs.next = VREG_LIMIT;
            return Err(CodegenError::CodeTooLarge);
        }
        end = end + len as u32;
    }
    if end == vregs.next {
        return Ok(cfg);
    }
    let root: usize = cfg.root;
    assert(lv[root as int] == live@[root as int]@);
    if live[root].len() != 0 {
        return Err(CodegenError::Malformed);
    }
    let mut base: u32 = vregs.next;
    let mut blocks: Vec<VCodeBB> = Vec::new();
    for v in 0..n
        invariant
            cfg.wf(),
            n == cfg.blocks@.len(),
            n == live@.len(),
            bbs == cfg.bbs(),
            succs == cfg.succs(),
            lv == lists_view(live@),
            vregs.wf(),
            next == old(vregs).next,
            base == next + live_before(lv, v as int),
            next + live_before(lv, n as int) <= VREG_LIMIT,
            next + live_before(lv, n as int) == end,
            live_ins(bbs, succs) == Some(lv),
            live_before(lv, n as int) != 0,
            lv[cfg.root as int].len() == 0,
            blocks@.len() == v,
            blocks_explicit(bbs, succs, lv, 0, next) == (match blocks_explicit(
                bbs,
                succs,
                lv,
                v as int,
                next,
            ) {
                Some(rest) => Some(bb_views(blocks@) + rest),
                None => None,
            }),
    {
        broadcast use crate::bb::bb_views_push;

        proof {
            live_before_part(lv, v as int + 1, n as int);
            assert(lv[v as int] == live@[v as int]@);
        }
        match make_block_explicit(&cfg, &live, v, base, Ghost(next)) {
            Ok(b) => {
                let ghost before = bb_views(blocks@);
                blocks.push(b);
                proof {
                    if let Some(rest) = blocks_explicit(bbs, succs, lv, v as int + 1, next) {
                        assert(before + (seq![b@] + rest) =~= bb_views(blocks@) + rest);
                    }
                }
            },
            Err(e) => {
                return Err(e);
            },
        }
        base = base + live[v].len() as u32;
    }
    assert(bb_views(blocks@) + Seq::<BBView>::empty() =~= bb_views(blocks@));
    vregs.next = end;
    proof {
        explicit_len(bbs, succs, lv, 0, next);
    }
    let c = cfg.with_blocks(blocks);
    assert(c.wf()) by {
        let r = c.bbs();
        assert forall|i: int, j: int| 0 <= i < j < r.len() implies (#[trigger] r[i]).vcode_bb != (
        #[trigger] r[j]).vcode_bb by {
            assert(bbs[i].vcode_bb != bbs[j].vcode_bb);
            assert(bbs[0 + i] == bbs[i] && bbs[0 + j] == bbs[j]);
        }
    }
    Ok(c)
}

/// Making live-ins explicit takes registers and hands none back.
pub proof fn live_ins_grow(bbs: Seq<BBView>, succs: Map<usize, Seq<usize>>, root: int, next: int)
    ensures
        live_ins_explicit(bbs, succs, root, next) matches Some((_, n)) ==> n >= next,
{
    if let Some(live) = live_ins(bbs, succs) {
        live_before_part(live, 0, bbs.len() as int);
    }
}

/// Whether the second list starts with the first.
spec fn starts_with(a: Seq<Reg>, b: Seq<Reg>) -> bool {
    a.len() <= b.len() && forall|i: int| 0 <= i < a.len() ==> #[trigger] b[i] == a[i]
}

proof fn starts_with_contains(a: Seq<Reg>, b: Seq<Reg>, r: Reg)
    requires
        starts_with(a, b),
        a.contains(r),
    ensures
        b.contains(r),
{
    let i = choose|i: int| 0 <= i < a.len() && a[i] == r;
    assert(b[i] == r);
}

proof fn with_regs_starts(acc: Seq<Reg>, regs: Seq<Reg>, excluded: Seq<Reg>, k: int)
    requires
        0 <= k,
    ensures
        starts_with(acc, with_regs(acc, regs, excluded, k)),
        forall|j: int|
            k <= j < regs.len() && !excluded.contains(#[trigger] regs[j]) ==> with_regs(
                acc,
                regs,
                excluded,
                k,
            ).contains(regs[j]),
    decreases regs.len() - k,
{
    if k < regs.len() {
        if excluded.contains(regs[k]) {
            with_regs_starts(acc, regs, excluded, k + 1);
        } else {
            let a = with_reg(acc, regs[k]);
            with_regs_starts(a, regs, excluded, k + 1);
            let t = with_regs(a, regs, excluded, k + 1);
            assert(starts_with(acc, t)) by {
                assert forall|i: int| 0 <= i < acc.len() implies #[trigger] t[i] == acc[i] by {
                    assert(a[i] == acc[i]);
                    assert(t[i] == a[i]);
                }
            }
            assert(a.contains(regs[k])) by {
                if !acc.contains(regs[k]) {
                    assert(a[acc.len() as int] == regs[k]);
                }
            }
            starts_with_contains(a, t, regs[k]);
        }
    }
}

proof fn with_passed_starts(
    acc: Seq<Reg>,
    args: Seq<(Block, Seq<Reg>)>,
    excluded: Seq<Reg>,
    k: int,
)
    requires
        0 <= k,
    ensures
        starts_with(acc, with_passed(acc, args, excluded, k)),
        forall|j: int, m: int|
            k <= j < args.len() && 0 <= m < args[j].1.len() && !excluded.contains(
                #[trigger] args[j].1[m],
            ) ==> with_passed(acc, args, excluded, k).contains(args[j].1[m]),
    decreases args.len() - k,
{
    if k < args.len() {
        let a = with_regs(acc, args[k].1, excluded, 0);
        with_regs_starts(acc, args[k].1, excluded, 0);
        with_passed_starts(a, args, excluded, k + 1);
        let t = with_passed(a, args, excluded, k + 1);
        assert forall|i: int| 0 <= i < acc.len() implies #[trigger] t[i] == acc[i] by {
            assert(a[i] == acc[i]);
            assert(t[i] == a[i]);
        }
        assert forall|j: int, m: int|
            k <= j < args.len() && 0 <= m < args[j].1.len() && !excluded.contains(
                #[trigger] args[j].1[m],
            ) implies t.contains(args[j].1[m]) by {
            if j == k {
                assert(a.contains(args[k].1[m]));
                starts_with_contains(a, t, args[k].1[m]);
            }
        }
    }
}

proof fn with_succs_starts(acc: Seq<Reg>, live: LiveIns, succs: Seq<usize>, defs: Seq<Reg>, k: int)
    requires
        0 <= k,
    ensures
        starts_with(acc, with_succs(acc, live, succs, defs, k)),
        forall|j: int, m: int|
            k <= j < succs.len() && 0 <= m < live[succs[j] as int].len() && !defs.contains(
                #[trigger] live[succs[j] as int][m],
            ) ==> with_succs(acc, live, succs, defs, k).contains(live[succs[j] as int][m]),
    decreases succs.len() - k,
{
    if k < succs.len() {
        let a = with_regs(acc, live[succs[k] as int], defs, 0);
        with_regs_starts(acc, live[succs[k] as int], defs, 0);
        with_succs_starts(a, live, succs, defs, k + 1);
        let t = with_succs(a, live, succs, defs, k + 1);
        assert forall|j: int, m: int|
            k <= j < succs.len() && 0 <= m < live[succs[j] as int].len() && !defs.contains(
                #[trigger] live[succs[j] as int][m],
            ) implies t.contains(live[succs[j] as int][m]) by {
            if j == k {
                assert(a.contains(live[succs[k] as int][m]));
                starts_with_contains(a, t, live[succs[k] as int][m]);
            }
        }
        assert forall|i: int| 0 <= i < acc.len() implies #[trigger] t[i] == acc[i] by {
            assert(a[i] == acc[i]);
            assert(t[i] == a[i]);
        }
    }
}

/// Whether each list of the second starts with that of the first.
spec fn lists_start_with(a: LiveIns, b: LiveIns) -> bool {
    a.len() == b.len() && forall|v: int|
        0 <= v < a.len() ==> starts_with(#[trigger] a[v], b[v])
}

proof fn sweep_starts(bbs: Seq<BBView>, succs: Map<usize, Seq<usize>>, live: LiveIns, v: int)
    requires
        0 <= v,
        live.len() == bbs.len(),
    ensures
        lists_start_with(live, live_swept(bbs, succs, live, v)),
    decreases bbs.len() - v,
{
    if v < bbs.len() {
        let defs = block_defs(bbs[v]);
        let new = with_succs(live[v], live, succs[v as usize], defs, 0);
        with_succs_starts(live[v], live, succs[v as usize], defs, 0);
        let u = live.update(v, new);
        sweep_starts(bbs, succs, u, v + 1);
        let t = live_swept(bbs, succs, u, v + 1);
        assert forall|w: int| 0 <= w < live.len() implies starts_with(#[trigger] live[w], t[w]) by {
            assert(starts_with(u[w], t[w]));
            assert(starts_with(live[w], u[w]));
            assert forall|i: int| 0 <= i < live[w].len() implies #[trigger] t[w][i] == live[w][i] by {
                assert(u[w][i] == live[w][i]);
            }
        }
    }
}

proof fn live_ins_start(bbs: Seq<BBView>, succs: Map<usize, Seq<usize>>)
    requires
        live_ins(bbs, succs) is Some,
    ensures
        lists_start_with(live_start(bbs), live_ins(bbs, succs)->Some_0),
{
    let start = live_start(bbs);
    let keeps = |x: LiveIns| lists_start_with(start, x);
    assert forall|x: LiveIns| #[trigger] keeps(x) && live_steps(bbs, succs)(x) is Next implies keeps(
        live_steps(bbs, succs)(x)->Next_0,
    ) by {
        sweep_starts(bbs, succs, x, 0);
        let y = live_swept(bbs, succs, x, 0);
        assert forall|v: int| 0 <= v < start.len() implies starts_with(#[trigger] start[v], y[v]) by {
            assert(starts_with(start[v], x[v]));
            assert(starts_with(x[v], y[v]));
            assert forall|i: int| 0 <= i < start[v].len() implies #[trigger] y[v][i] == start[v][i] by {
                assert(x[v][i] == start[v][i]);
            }
        }
    }
    settled_keeps(live_steps(bbs, succs), start, keeps);
}

/// The registers defined before instruction `i`: the parameters and what the
/// instructions before it define.
pub open spec fn defined_before(bb: BBView, i: int) -> Seq<Reg>
    decreases i,
{
    if i <= 0 {
        bb.params
    } else {
        defined_before(bb, i - 1) + bb.inst[i - 1].defs()
    }
}

proof fn undefined_has(bb: BBView, i: int, acc: Seq<Reg>, m: int, k: int)
    requires
        0 <= i <= m < bb.inst.len(),
        0 <= k < bb.inst[m].uses().len(),
        !defined_before(bb, m).contains(bb.inst[m].uses()[k]),
    ensures
        starts_with(acc, undefined_from(bb.inst, i, defined_before(bb, i), acc)),
        undefined_from(bb.inst, i, defined_before(bb, i), acc).contains(bb.inst[m].uses()[k]),
    decreases m - i,
{
    let defs = defined_before(bb, i);
    let a = with_regs(acc, bb.inst[i].uses(), defs, 0);
    with_regs_starts(acc, bb.inst[i].uses(), defs, 0);
    assert(defined_before(bb, i + 1) == defs + bb.inst[i].defs());
    let t = undefined_from(bb.inst, i + 1, defs + bb.inst[i].defs(), a);
    if i < m {
        undefined_has(bb, i + 1, a, m, k);
    } else {
        undefined_starts(bb.inst, i + 1, defs + bb.inst[i].defs(), a);
        starts_with_contains(a, t, bb.inst[m].uses()[k]);
    }
    assert forall|j: int| 0 <= j < acc.len() implies #[trigger] t[j] == acc[j] by {
        assert(a[j] == acc[j]);
    }
}

proof fn undefined_starts(insts: Seq<MInstView>, i: int, defs: Seq<Reg>, acc: Seq<Reg>)
    ensures
        starts_with(acc, undefined_from(insts, i, defs, acc)),
    decreases insts.len() - i,
{
    if i < insts.len() {
        let a = with_regs(acc, insts[i].uses(), defs, 0);
        with_regs_starts(acc, insts[i].uses(), defs, 0);
        undefined_starts(insts, i + 1, defs + insts[i].defs(), a);
        let t = undefined_from(insts, i + 1, defs + insts[i].defs(), a);
        assert forall|j: int| 0 <= j < acc.len() implies #[trigger] t[j] == acc[j] by {
            assert(a[j] == acc[j]);
            assert(t[j] == a[j]);
        }
    }
}

proof fn place_of_bounds(regs: Seq<Reg>, r: Reg, k: int)
    requires
        0 <= k <= regs.len(),
    ensures
        k <= place_of(regs, r, k) <= regs.len(),
        (exists|i: int| k <= i < regs.len() && regs[i] == r) ==> place_of(regs, r, k) < regs.len(),
    decreases regs.len() - k,
{
    if k < regs.len() && regs[k] != r {
        place_of_bounds(regs, r, k + 1);
        if exists|i: int| k <= i < regs.len() && regs[i] == r {
            let i = choose|i: int| k <= i < regs.len() && regs[i] == r;
            assert(k + 1 <= i);
        }
    }
}

proof fn defined_before_kept(a: BBView, b: BBView, i: int, r: Reg)
    requires
        0 <= i <= a.inst.len(),
        a.inst.len() == b.inst.len(),
        starts_with(a.params, b.params),
        forall|j: int| 0 <= j < i ==> (#[trigger] b.inst[j]).defs() == a.inst[j].defs(),
        defined_before(a, i).contains(r),
    ensures
        defined_before(b, i).contains(r),
    decreases i,
{
    if i > 0 {
        let da = defined_before(a, i - 1);
        let ds = a.inst[i - 1].defs();
        let k = choose|k: int| 0 <= k < (da + ds).len() && (da + ds)[k] == r;
        let db = defined_before(b, i - 1);
        assert(b.inst[i - 1].defs() == ds);
        if k < da.len() {
            assert(da[k] == r);
            defined_before_kept(a, b, i - 1, r);
            let m = choose|m: int| 0 <= m < db.len() && db[m] == r;
            assert((db + ds)[m] == r);
        } else {
            assert((db + ds)[db.len() + (k - da.len())] == r);
        }
    } else {
        starts_with_contains(a.params, b.params, r);
    }
}

proof fn params_defined(bb: BBView, i: int, r: Reg)
    requires
        0 <= i,
        bb.params.contains(r),
    ensures
        defined_before(bb, i).contains(r),
    decreases i,
{
    if i > 0 {
        params_defined(bb, i - 1, r);
        let d = defined_before(bb, i - 1);
        let m = choose|m: int| 0 <= m < d.len() && d[m] == r;
        assert((d + bb.inst[i - 1].defs())[m] == r);
    }
}

proof fn explicit_uses_are_defined(
    bbs: Seq<BBView>,
    succs: Map<usize, Seq<usize>>,
    v: int,
    next: int,
    i: int,
    k: int,
)
    requires
        live_ins(bbs, succs) is Some,
        0 <= v < bbs.len(),
        block_explicit(bbs, succs, live_ins(bbs, succs)->Some_0, v, next) is Some,
        0 <= i < bbs[v].inst.len(),
        0 <= k < bbs[v].inst[i].uses().len(),
    ensures
        ({
            let after = block_explicit(bbs, succs, live_ins(bbs, succs)->Some_0, v, next)->Some_0;
            &&& k < after.inst[i].uses().len()
            &&& defined_before(after, i).contains(after.inst[i].uses()[k])
        }),
{
    let live = live_ins(bbs, succs)->Some_0;
    let bb = bbs[v];
    let base = next + live_before(live, v);
    let after = block_explicit(bbs, succs, live, v, next)->Some_0;
    let uses = bb.inst[i].uses();
    let named = names_in(live[v], base, uses);
    crate::operands::with_uses_sets_uses(bb.inst[i], named);
    assert(after.inst[i].uses() == named);
    let r = uses[k];
    live_ins_start(bbs, succs);
    assert(starts_with(live_start(bbs)[v], live[v]));
    place_of_bounds(live[v], r, 0);
    let j = place_of(live[v], r, 0);
    assert(starts_with(bb.params, after.params));
    if j < live[v].len() {
        assert(named[k] == vreg(base + j));
        assert(after.params[bb.params.len() + j] == vreg(base + j));
        params_defined(after, i, named[k]);
    } else {
        assert(named[k] == r);
        if !defined_before(bb, i).contains(r) {
            undefined_has(bb, 0, Seq::empty(), i, k);
            let of_insts = undefined_from(bb.inst, 0, bb.params, Seq::empty());
            with_passed_starts(of_insts, bb.branch_params, block_defs(bb), 0);
            starts_with_contains(of_insts, undefined_uses(bb), r);
            starts_with_contains(undefined_uses(bb), live[v], r);
            let m = choose|m: int| 0 <= m < live[v].len() && live[v][m] == r;
            assert(0 <= m < live[v].len() && live[v][m] == r);
            assert(false);
        }
        assert forall|m: int| 0 <= m < i implies (#[trigger] after.inst[m]).defs()
            == bb.inst[m].defs() by {
            with_uses_keeps_defs(
                bb.inst[m],
                names_in(live[v], base, bb.inst[m].uses()),
            );
        }
        defined_before_kept(bb, after, i, r);
    }
}

proof fn with_uses_keeps_defs(inst: MInstView, us: Seq<Reg>)
    ensures
        inst.with_uses(us).defs() == inst.defs(),
{
    assert(inst.with_uses(us).defs() =~= inst.defs());
}

/// Whether two tables list the same blocks in the same places.
pub open spec fn same_keys(a: Seq<(Block, Seq<Reg>)>, b: Seq<(Block, Seq<Reg>)>) -> bool {
    a.len() == b.len() && forall|i: int| 0 <= i < a.len() ==> (#[trigger] b[i]).0 == a[i].0
}

/// Lists with the same keys have each at the same position.
pub proof fn same_keys_position(
    a: Seq<(Block, Seq<Reg>)>,
    b: Seq<(Block, Seq<Reg>)>,
    block: Block,
    k: int,
)
    requires
        same_keys(a, b),
        0 <= k,
    ensures
        args_position(a, block, k) == args_position(b, block, k),
    decreases a.len() - k,
{
    if k < a.len() {
        assert(b[k].0 == a[k].0);
        same_keys_position(a, b, block, k + 1);
    }
}

/// A block's list is found under the block.
pub proof fn position_has_key(a: Seq<(Block, Seq<Reg>)>, block: Block, k: int)
    requires
        0 <= k <= a.len(),
    ensures
        k <= args_position(a, block, k) <= a.len(),
        args_position(a, block, k) < a.len() ==> a[args_position(a, block, k)].0 == block,
    decreases a.len() - k,
{
    if k < a.len() && a[k].0 != block {
        position_has_key(a, block, k + 1);
    }
}

/// Extending the lists of the successors from the `k`th on changes the list of
/// another block not at all, and that of the `j`th successor by its live-ins.
pub proof fn args_named_lists(
    args: Seq<(Block, Seq<Reg>)>,
    bbs: Seq<BBView>,
    live: LiveIns,
    v: int,
    base: int,
    succs: Seq<usize>,
    k: int,
    j: int,
)
    requires
        0 <= k,
        0 <= j < succs.len(),
        succs.no_duplicates(),
        forall|i: int| 0 <= i < succs.len() ==> #[trigger] succs[i] < bbs.len(),
        crate::cfg::blocks_distinct(bbs),
        args_named(args, bbs, live, v, base, succs, k) is Some,
    ensures
        ({
            let after = args_named(args, bbs, live, v, base, succs, k)->Some_0;
            let s = succs[j] as int;
            let at = args_position(args, bbs[s].vcode_bb, 0);
            &&& same_keys(args, after)
            &&& at < args.len() ==> after[at].1 == (if k <= j {
                names_in(live[v], base, args[at].1) + names_in(live[v], base, live[s])
            } else {
                args[at].1
            })
        }),
    decreases succs.len() - k,
{
    if k < succs.len() {
        let t = succs[k] as int;
        let s = succs[j] as int;
        let at = args_position(args, bbs[t].vcode_bb, 0);
        position_has_key(args, bbs[t].vcode_bb, 0);
        position_has_key(args, bbs[s].vcode_bb, 0);
        let passed = names_in(live[v], base, args[at].1) + names_in(live[v], base, live[t]);
        let next = args.update(at, (args[at].0, passed));
        assert(same_keys(args, next));
        args_named_lists(next, bbs, live, v, base, succs, k + 1, j);
        same_keys_position(args, next, bbs[s].vcode_bb, 0);
        if k != j {
            assert(t != s);
            if t < s {
                assert(bbs[t].vcode_bb != bbs[s].vcode_bb);
            } else {
                assert(bbs[s].vcode_bb != bbs[t].vcode_bb);
            }
        }
        let after = args_named(next, bbs, live, v, base, succs, k + 1)->Some_0;
        assert forall|i: int| 0 <= i < args.len() implies (#[trigger] after[i]).0 == args[i].0 by {
            assert(next[i].0 == args[i].0);
        }
    }
}

/// A block that passed a successor as many registers as that has parameters still
/// does so after the pass.
pub proof fn live_ins_are_passed_on(
    bbs: Seq<BBView>,
    succs: Map<usize, Seq<usize>>,
    live: LiveIns,
    v: int,
    next: int,
    j: int,
)
    requires
        succs_wf(succs, bbs.len()),
        crate::cfg::blocks_distinct(bbs),
        bbs.len() <= usize::MAX,
        0 <= v < bbs.len(),
        0 <= j < succs[v as usize].len(),
        crate::flow::edge_wf(bbs, v, succs[v as usize][j] as int),
        block_explicit(bbs, succs, live, v, next) is Some,
        block_explicit(bbs, succs, live, succs[v as usize][j] as int, next) is Some,
    ensures
        ({
            let s = succs[v as usize][j] as int;
            let from = block_explicit(bbs, succs, live, v, next)->Some_0;
            let to = block_explicit(bbs, succs, live, s, next)->Some_0;
            &&& crate::flow::args_for(from.branch_params, to.vcode_bb) is Some
            &&& crate::flow::args_for(from.branch_params, to.vcode_bb)->Some_0.len()
                == to.params.len()
        }),
{
    let s = succs[v as usize][j] as int;
    let base = next + live_before(live, v);
    let args = bbs[v].branch_params;
    assert(succs[v as usize].no_duplicates());
    args_named_lists(args, bbs, live, v, base, succs[v as usize], 0, j);
    let after = args_named(args, bbs, live, v, base, succs[v as usize], 0)->Some_0;
    same_keys_position(args, after, bbs[s].vcode_bb, 0);
    position_has_key(args, bbs[s].vcode_bb, 0);
}

/// The live-ins are complete: what a successor lives on, a block defines or lives
/// on itself.
proof fn live_ins_complete(
    bbs: Seq<BBView>,
    succs: Map<usize, Seq<usize>>,
    v: int,
    j: int,
    r: Reg,
)
    requires
        live_ins(bbs, succs) is Some,
        0 <= v < bbs.len(),
        bbs.len() <= usize::MAX,
        succs_wf(succs, bbs.len()),
        0 <= j < succs[v as usize].len(),
        live_ins(bbs, succs)->Some_0[succs[v as usize][j] as int].contains(r),
    ensures
        block_defs(bbs[v]).contains(r) || live_ins(bbs, succs)->Some_0[v].contains(r),
{
    let live = live_ins(bbs, succs)->Some_0;
    let start = live_start(bbs);
    let keeps = |x: LiveIns| x.len() == bbs.len();
    assert forall|x: LiveIns| #[trigger] keeps(x) && live_steps(bbs, succs)(x) is Next implies keeps(
        live_steps(bbs, succs)(x)->Next_0,
    ) by {
        sweep_starts(bbs, succs, x, 0);
    }
    settled_keeps(live_steps(bbs, succs), start, keeps);
    assert(keeps(live));
    assert(live_swept(bbs, succs, live, 0) == live);
    swept_unchanged(bbs, succs, live, 0, v);
    let out = succs[v as usize];
    let s = out[j] as int;
    let defs = block_defs(bbs[v]);
    with_succs_starts(live[v], live, out, defs, 0);
    let m = choose|m: int| 0 <= m < live[s].len() && live[s][m] == r;
    assert(live[out[j] as int][m] == r);
}

proof fn swept_unchanged(
    bbs: Seq<BBView>,
    succs: Map<usize, Seq<usize>>,
    live: LiveIns,
    w: int,
    v: int,
)
    requires
        0 <= w <= v < bbs.len(),
        live.len() == bbs.len(),
        live_swept(bbs, succs, live, w) == live,
    ensures
        with_succs(live[v], live, succs[v as usize], block_defs(bbs[v]), 0) == live[v],
    decreases v - w,
{
    let new = with_succs(live[w], live, succs[w as usize], block_defs(bbs[w]), 0);
    with_succs_starts(live[w], live, succs[w as usize], block_defs(bbs[w]), 0);
    let u = live.update(w, new);
    sweep_starts(bbs, succs, u, w + 1);
    assert(starts_with(u[w], live[w]));
    assert(new =~= live[w]);
    assert(u =~= live);
    if w < v {
        swept_unchanged(bbs, succs, live, w + 1, v);
    }
}

proof fn defs_from_has(insts: Seq<MInstView>, i: int, acc: Seq<Reg>, r: Reg)
    requires
        acc.contains(r),
    ensures
        defs_from(insts, i, acc).contains(r),
    decreases insts.len() - i,
{
    if i < insts.len() {
        let m = choose|m: int| 0 <= m < acc.len() && acc[m] == r;
        assert((acc + insts[i].defs())[m] == r);
        defs_from_has(insts, i + 1, acc + insts[i].defs(), r);
    }
}

proof fn defs_from_kept(
    a: Seq<MInstView>,
    b: Seq<MInstView>,
    i: int,
    da: Seq<Reg>,
    db: Seq<Reg>,
    r: Reg,
)
    requires
        0 <= i,
        a.len() == b.len(),
        forall|j: int| 0 <= j < a.len() ==> (#[trigger] b[j]).defs() == a[j].defs(),
        forall|q: Reg| #[trigger] da.contains(q) ==> db.contains(q),
        defs_from(a, i, da).contains(r),
    ensures
        defs_from(b, i, db).contains(r),
    decreases a.len() - i,
{
    if i < a.len() {
        let ds = a[i].defs();
        assert(b[i].defs() == ds);
        assert forall|q: Reg| #[trigger] (da + ds).contains(q) implies (db + ds).contains(q) by {
            let m = choose|m: int| 0 <= m < (da + ds).len() && (da + ds)[m] == q;
            if m < da.len() {
                assert(da[m] == q);
                assert(da.contains(q));
                let n = choose|n: int| 0 <= n < db.len() && db[n] == q;
                assert((db + ds)[n] == q);
            } else {
                assert((db + ds)[db.len() + (m - da.len())] == q);
            }
        }
        defs_from_kept(a, b, i + 1, da + ds, db + ds, r);
    }
}

/// A block's own name for a register that it defines or lives on is defined in
/// the block after the pass.
proof fn names_are_defined(
    bbs: Seq<BBView>,
    succs: Map<usize, Seq<usize>>,
    live: LiveIns,
    v: int,
    next: int,
    r: Reg,
)
    requires
        block_explicit(bbs, succs, live, v, next) is Some,
        block_defs(bbs[v]).contains(r) || live[v].contains(r),
    ensures
        block_defs(block_explicit(bbs, succs, live, v, next)->Some_0).contains(
            name_in(live[v], next + live_before(live, v), r),
        ),
{
    let base = next + live_before(live, v);
    let bb = bbs[v];
    let after = block_explicit(bbs, succs, live, v, next)->Some_0;
    place_of_bounds(live[v], r, 0);
    let j = place_of(live[v], r, 0);
    assert(starts_with(bb.params, after.params));
    if j < live[v].len() {
        assert(after.params[bb.params.len() + j] == vreg(base + j));
        defs_from_has(after.inst, 0, after.params, vreg(base + j));
    } else {
        assert(!live[v].contains(r));
        assert forall|m: int| 0 <= m < bb.inst.len() implies (#[trigger] after.inst[m]).defs()
            == bb.inst[m].defs() by {
            with_uses_keeps_defs(bb.inst[m], names_in(live[v], base, bb.inst[m].uses()));
        }
        assert forall|q: Reg| #[trigger] bb.params.contains(q) implies after.params.contains(q) by {
            starts_with_contains(bb.params, after.params, q);
        }
        defs_from_kept(bb.inst, after.inst, 0, bb.params, after.params, r);
    }
}

proof fn explicit_passed_are_defined(
    bbs: Seq<BBView>,
    succs: Map<usize, Seq<usize>>,
    v: int,
    next: int,
    j: int,
    m: int,
)
    requires
        live_ins(bbs, succs) is Some,
        succs_wf(succs, bbs.len()),
        crate::cfg::blocks_distinct(bbs),
        bbs.len() <= usize::MAX,
        0 <= v < bbs.len(),
        0 <= j < succs[v as usize].len(),
        block_explicit(bbs, succs, live_ins(bbs, succs)->Some_0, v, next) is Some,
        ({
            let after = block_explicit(bbs, succs, live_ins(bbs, succs)->Some_0, v, next)->Some_0;
            let s = succs[v as usize][j] as int;
            crate::flow::args_for(after.branch_params, bbs[s].vcode_bb) matches Some(passed) && 0
                <= m < passed.len()
        }),
    ensures
        ({
            let after = block_explicit(bbs, succs, live_ins(bbs, succs)->Some_0, v, next)->Some_0;
            let s = succs[v as usize][j] as int;
            block_defs(after).contains(
                crate::flow::args_for(after.branch_params, bbs[s].vcode_bb)->Some_0[m],
            )
        }),
{
    let live = live_ins(bbs, succs)->Some_0;
    let base = next + live_before(live, v);
    let bb = bbs[v];
    let s = succs[v as usize][j] as int;
    let args = bb.branch_params;
    let after = block_explicit(bbs, succs, live, v, next)->Some_0;
    assert(succs[v as usize].no_duplicates());
    args_named_lists(args, bbs, live, v, base, succs[v as usize], 0, j);
    let done = after.branch_params;
    same_keys_position(args, done, bbs[s].vcode_bb, 0);
    position_has_key(args, bbs[s].vcode_bb, 0);
    let at = args_position(args, bbs[s].vcode_bb, 0);
    let passed = done[at].1;
    let own = args[at].1;
    let r = if m < own.len() {
        own[m]
    } else {
        live[s][m - own.len()]
    };
    assert(passed[m] == name_in(live[v], base, r));
    if m < own.len() {
        live_ins_start(bbs, succs);
        assert(starts_with(live_start(bbs)[v], live[v]));
        let of_insts = undefined_from(bb.inst, 0, bb.params, Seq::empty());
        with_passed_starts(of_insts, args, block_defs(bb), 0);
        assert(args[at].1[m] == r);
        if !block_defs(bb).contains(r) {
            starts_with_contains(undefined_uses(bb), live[v], r);
        }
    } else {
        assert(live[s].contains(r));
        live_ins_complete(bbs, succs, v, j, r);
    }
    names_are_defined(bbs, succs, live, v, next, r);
}

proof fn explicit_at(
    bbs: Seq<BBView>,
    succs: Map<usize, Seq<usize>>,
    live: LiveIns,
    w: int,
    next: int,
    v: int,
)
    requires
        0 <= w <= v < bbs.len(),
        blocks_explicit(bbs, succs, live, w, next) is Some,
    ensures
        blocks_explicit(bbs, succs, live, w, next)->Some_0.len() == bbs.len() - w,
        block_explicit(bbs, succs, live, v, next) == Some(
            blocks_explicit(bbs, succs, live, w, next)->Some_0[v - w],
        ),
    decreases v - w,
{
    explicit_len(bbs, succs, live, w, next);
    if w < v {
        explicit_at(bbs, succs, live, w + 1, next, v);
    }
}

proof fn no_live_ins(live: LiveIns, n: int, v: int)
    requires
        0 <= v < n,
        live_before(live, n) == 0,
    ensures
        live[v].len() == 0,
{
    live_before_part(live, v + 1, n);
    live_before_part(live, 0, v);
}

/// After the pass, every use of an instruction is a parameter of its block or
/// defined by an earlier instruction of it.
pub proof fn uses_are_defined_in_their_block(
    bbs: Seq<BBView>,
    succs: Map<usize, Seq<usize>>,
    root: int,
    next: int,
    v: int,
    i: int,
    k: int,
)
    requires
        live_ins_explicit(bbs, succs, root, next) is Some,
        0 <= v < bbs.len(),
        ({
            let after = live_ins_explicit(bbs, succs, root, next)->Some_0.0[v];
            0 <= i < after.inst.len() && 0 <= k < after.inst[i].uses().len()
        }),
    ensures
        ({
            let after = live_ins_explicit(bbs, succs, root, next)->Some_0.0[v];
            defined_before(after, i).contains(after.inst[i].uses()[k])
        }),
{
    let live = live_ins(bbs, succs)->Some_0;
    if live_before(live, bbs.len() as int) == 0 {
        no_live_ins(live, bbs.len() as int, v);
        let bb = bbs[v];
        let r = bb.inst[i].uses()[k];
        if !defined_before(bb, i).contains(r) {
            undefined_has(bb, 0, Seq::empty(), i, k);
            let of_insts = undefined_from(bb.inst, 0, bb.params, Seq::empty());
            with_passed_starts(of_insts, bb.branch_params, block_defs(bb), 0);
            starts_with_contains(of_insts, undefined_uses(bb), r);
            live_ins_start(bbs, succs);
            starts_with_contains(live_start(bbs)[v], live[v], r);
        }
    } else {
        explicit_at(bbs, succs, live, 0, next, v);
        let base = next + live_before(live, v);
        crate::operands::with_uses_sets_uses(
            bbs[v].inst[i],
            names_in(live[v], base, bbs[v].inst[i].uses()),
        );
        explicit_uses_are_defined(bbs, succs, v, next, i, k);
    }
}

/// After the pass, every register that a block passes to a successor is a
/// parameter of the block or defined by one of its instructions.
pub proof fn passed_registers_are_defined_in_their_block(
    bbs: Seq<BBView>,
    succs: Map<usize, Seq<usize>>,
    root: int,
    next: int,
    v: int,
    j: int,
    m: int,
)
    requires
        live_ins_explicit(bbs, succs, root, next) is Some,
        succs_wf(succs, bbs.len()),
        crate::cfg::blocks_distinct(bbs),
        bbs.len() <= usize::MAX,
        0 <= v < bbs.len(),
        0 <= j < succs[v as usize].len(),
        ({
            let after = live_ins_explicit(bbs, succs, root, next)->Some_0.0[v];
            let s = succs[v as usize][j] as int;
            crate::flow::args_for(after.branch_params, bbs[s].vcode_bb) matches Some(passed) && 0
                <= m < passed.len()
        }),
    ensures
        ({
            let after = live_ins_explicit(bbs, succs, root, next)->Some_0.0[v];
            let s = succs[v as usize][j] as int;
            block_defs(after).contains(
                crate::flow::args_for(after.branch_params, bbs[s].vcode_bb)->Some_0[m],
            )
        }),
{
    let live = live_ins(bbs, succs)->Some_0;
    if live_before(live, bbs.len() as int) == 0 {
        no_live_ins(live, bbs.len() as int, v);
        let bb = bbs[v];
        let s = succs[v as usize][j] as int;
        let at = args_position(bb.branch_params, bbs[s].vcode_bb, 0);
        position_has_key(bb.branch_params, bbs[s].vcode_bb, 0);
        let r = bb.branch_params[at].1[m];
        if !block_defs(bb).contains(r) {
            let of_insts = undefined_from(bb.inst, 0, bb.params, Seq::empty());
            with_passed_starts(of_insts, bb.branch_params, block_defs(bb), 0);
            live_ins_start(bbs, succs);
            starts_with_contains(live_start(bbs)[v], live[v], r);
        }
    } else {
        explicit_at(bbs, succs, live, 0, next, v);
        explicit_passed_are_defined(bbs, succs, v, next, j, m);
    }
}

} // verus!
