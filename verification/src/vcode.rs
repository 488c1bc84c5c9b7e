//! The lowered code, and how it becomes a control-flow graph.
use crate::bb::{args_view, bb_views, copy_insts, BBView, VCodeBB};
use crate::cfg::VCodeCFG;
use crate::flow::args_position;
use crate::graph::{add_edge, add_vertex, empty_graph, graph_succs, graph_vertices, sources_into};
use crate::inst::{views, IssueKind, MInst, MInstOf, MInstView};
use crate::reg::{
    copy_regs, ran_out, vreg, Block, CodegenError, MachLabel, Reg, VRegAllocator, VREG_LIMIT,
};
use crate::pass::{refused, settled, settled_done, settled_keeps, settled_next, settled_stuck, Step};
use crate::rename::fresh_regs;
use crate::table::{insert, lookup, new_table, table_contents, IndexTable};
use graphene::common::AdjListGraph;
use vstd::prelude::*;

verus! {

/// A block of the lowered code.
pub struct VCodeBlock {
    /// The block's parameters.
    pub params: Vec<Reg>,
    /// The block's instructions.
    pub insts: Vec<MInst>,
    /// The block's successors, with the registers passed to each.
    pub succs: Vec<(Block, Vec<Reg>)>,
}

/// A block of the lowered code as a mathematical value.
#[verifier::ext_equal]
pub struct BlockView {
    pub params: Seq<Reg>,
    pub insts: Seq<MInstView>,
    pub succs: Seq<(Block, Seq<Reg>)>,
}

impl View for VCodeBlock {
    type V = BlockView;

    open spec fn view(&self) -> BlockView {
        BlockView {
            params: self.params@,
            insts: views(self.insts@),
            succs: args_view(self.succs@),
        }
    }
}

/// The lowered code of a function. Block `i` carries label `i`.
pub struct VCode {
    pub blocks: Vec<VCodeBlock>,
    pub entry: Block,
}

/// The blocks as mathematical values.
pub open spec fn block_views(blocks: Seq<VCodeBlock>) -> Seq<BlockView> {
    Seq::new(blocks.len(), |i: int| blocks[i]@)
}

impl VCode {
    /// The entry and all successors are blocks, every block has instructions, and
    /// no block names a successor twice.
    pub open spec fn wf(&self) -> bool {
        code_wf(block_views(self.blocks@), self.entry)
    }
}

/// The entry and all successors are blocks, every block has instructions, and no
/// block names a successor twice.
pub open spec fn code_wf(code: Seq<BlockView>, entry: Block) -> bool {
    &&& entry.index < code.len()
    &&& code.len() <= u32::MAX
    &&& forall|b: int| 0 <= b < code.len() ==> block_wf(#[trigger] code[b], code.len())
}

/// A block has instructions and distinct successors among `n` blocks.
pub open spec fn block_wf(b: BlockView, n: nat) -> bool {
    &&& b.insts.len() > 0
    &&& forall|i: int| 0 <= i < b.succs.len() ==> (#[trigger] b.succs[i]).0.index < n
    &&& forall|i: int, j: int|
        0 <= i < j < b.succs.len() ==> (#[trigger] b.succs[i]).0 != (#[trigger] b.succs[j]).0
}

/// The blocks found so far with those named by `b` from the `k`th on.
pub open spec fn found_with(found: Seq<Block>, b: BlockView, k: int) -> Seq<Block>
    decreases b.succs.len() - k,
{
    if k >= b.succs.len() {
        found
    } else if found.contains(b.succs[k].0) {
        found_with(found, b, k + 1)
    } else {
        found_with(found.push(b.succs[k].0), b, k + 1)
    }
}

/// The blocks in the order in which they are found, breadth first, the first `k`
/// of those found so far having been looked at.
pub open spec fn found_from(code: Seq<BlockView>, found: Seq<Block>, k: int) -> Seq<Block>
    decreases code.len() - k,
{
    if k >= found.len() || k >= code.len() {
        found
    } else {
        found_from(code, found_with(found, code[found[k].index as int], 0), k + 1)
    }
}

/// The blocks that can be reached from the entry, in the order in which they are
/// found.
pub open spec fn found_blocks(code: Seq<BlockView>, entry: Block) -> Seq<Block> {
    found_from(code, seq![entry], 0)
}

/// The position of a block among those found, from `k` on.
pub open spec fn found_at(found: Seq<Block>, b: Block, k: int) -> int
    decreases found.len() - k,
{
    if k >= found.len() || found[k] == b {
        k
    } else {
        found_at(found, b, k + 1)
    }
}

/// A found block as a block of the graph.
pub open spec fn graph_block(code: Seq<BlockView>, b: Block) -> BBView {
    let c = code[b.index as int];
    BBView {
        vcode_bb: b,
        inst: c.insts,
        params: c.params,
        branch_params: c.succs,
        param_order: Seq::empty(),
        branch_param_order: Seq::empty(),
    }
}

/// All found blocks as blocks of the graph.
pub open spec fn graph_blocks(code: Seq<BlockView>, found: Seq<Block>) -> Seq<BBView> {
    Seq::new(found.len(), |i: int| graph_block(code, found[i]))
}

/// The successors of a found block, by their positions.
pub open spec fn graph_targets(code: Seq<BlockView>, found: Seq<Block>, v: int) -> Seq<usize> {
    let succs = code[found[v].index as int].succs;
    Seq::new(succs.len(), |k: int| found_at(found, succs[k].0, 0) as usize)
}

/// Whether lists of blocks are distinct and in range.
spec fn found_wf(code: Seq<BlockView>, found: Seq<Block>) -> bool {
    &&& found.no_duplicates()
    &&& forall|i: int| 0 <= i < found.len() ==> (#[trigger] found[i]).index < code.len()
}

proof fn found_with_keeps(code: Seq<BlockView>, found: Seq<Block>, b: BlockView, k: int)
    requires
        found_wf(code, found),
        0 <= k,
        block_wf(b, code.len()),
    ensures
        found_wf(code, found_with(found, b, k)),
        found.len() <= found_with(found, b, k).len(),
        forall|i: int| 0 <= i < found.len() ==> #[trigger] found_with(found, b, k)[i] == found[i],
        forall|j: int|
            k <= j < b.succs.len() ==> found_with(found, b, k).contains(
                (#[trigger] b.succs[j]).0,
            ),
    decreases b.succs.len() - k,
{
    if k < b.succs.len() {
        let s = b.succs[k].0;
        let f = if found.contains(s) {
            found
        } else {
            found.push(s)
        };
        assert(found_wf(code, f));
        found_with_keeps(code, f, b, k + 1);
        let t = found_with(f, b, k + 1);
        assert(t == found_with(found, b, k));
        assert forall|i: int| 0 <= i < found.len() implies #[trigger] t[i] == found[i] by {
            assert(f[i] == found[i]);
        }
        assert(t.contains(s)) by {
            if found.contains(s) {
                let i = choose|i: int| 0 <= i < found.len() && found[i] == s;
                assert(t[i] == s);
            } else {
                assert(f[found.len() as int] == s);
                assert(t[found.len() as int] == s);
            }
        }
    }
}

/// There are no more found blocks than blocks.
proof fn found_bound(code: Seq<BlockView>, found: Seq<Block>)
    requires
        found_wf(code, found),
    ensures
        found.len() <= code.len(),
{
    let ids = Seq::new(found.len(), |i: int| found[i].index as int);
    assert(ids.no_duplicates()) by {
        assert forall|i: int, j: int| 0 <= i < ids.len() && 0 <= j < ids.len() && i != j implies ids[i]
            != ids[j] by {
            assert(found[i] != found[j]);
        }
    }
    ids.unique_seq_to_set();
    let all = vstd::set_lib::set_int_range(0, code.len() as int);
    vstd::set_lib::lemma_int_range(0, code.len() as int);
    assert(ids.to_set().subset_of(all)) by {
        assert forall|c: int| ids.to_set().contains(c) implies all.contains(c) by {
            let i = choose|i: int| 0 <= i < ids.len() && ids[i] == c;
            assert(found[i].index < code.len());
        }
    }
    vstd::set_lib::lemma_len_subset(ids.to_set(), all);
}

/// Whether the successors of the first `k` found blocks are found.
spec fn closed_below(code: Seq<BlockView>, found: Seq<Block>, k: int) -> bool {
    forall|i: int, j: int|
        0 <= i < k && 0 <= j < code[found[i].index as int].succs.len() ==> found.contains(
            (#[trigger] code[found[i].index as int].succs[j]).0,
        )
}

proof fn found_from_keeps(code: Seq<BlockView>, entry: Block, found: Seq<Block>, k: int)
    requires
        code_wf(code, entry),
        found_wf(code, found),
        0 <= k <= found.len(),
        closed_below(code, found, k),
    ensures
        found_wf(code, found_from(code, found, k)),
        found.len() <= found_from(code, found, k).len(),
        forall|i: int| 0 <= i < found.len() ==> #[trigger] found_from(code, found, k)[i] == found[i],
        closed_below(
            code,
            found_from(code, found, k),
            found_from(code, found, k).len() as int,
        ),
    decreases code.len() - k,
{
    found_bound(code, found);
    if k < found.len() {
        let b = code[found[k].index as int];
        assert(block_wf(b, code.len()));
        found_with_keeps(code, found, b, 0);
        let f = found_with(found, b, 0);
        assert(closed_below(code, f, k + 1)) by {
            assert forall|i: int, j: int|
                0 <= i < k + 1 && 0 <= j < code[f[i].index as int].succs.len() implies f.contains(
                (#[trigger] code[f[i].index as int].succs[j]).0,
            ) by {
                assert(f[i] == found[i]);
                if i < k {
                    let s = code[found[i].index as int].succs[j].0;
                    assert(found.contains(s));
                    let m = choose|m: int| 0 <= m < found.len() && found[m] == s;
                    assert(f[m] == s);
                }
            }
        }
        found_from_keeps(code, entry, f, k + 1);
        let t = found_from(code, f, k + 1);
        assert(t == found_from(code, found, k));
        assert forall|i: int| 0 <= i < found.len() implies #[trigger] t[i] == found[i] by {
            assert(f[i] == found[i]);
        }
    }
}

proof fn found_at_bounds(found: Seq<Block>, b: Block, k: int)
    requires
        0 <= k <= found.len(),
        exists|i: int| k <= i < found.len() && found[i] == b,
    ensures
        k <= found_at(found, b, k) < found.len(),
        found[found_at(found, b, k)] == b,
    decreases found.len() - k,
{
    if found[k] != b {
        let i = choose|i: int| k <= i < found.len() && found[i] == b;
        assert(k + 1 <= i);
        found_at_bounds(found, b, k + 1);
    }
}

/// Whether block `i` is named as a successor by an earlier one.
pub open spec fn named_before(code: Seq<BlockView>, found: Seq<Block>, i: int) -> bool {
    exists|j: int, m: int|
        0 <= j < i && 0 <= m < code[found[j].index as int].succs.len() && (
        #[trigger] code[found[j].index as int].succs[m]).0 == found[i]
}

proof fn found_with_named(code: Seq<BlockView>, found: Seq<Block>, at: int, k: int)
    requires
        0 <= k,
        0 <= at < found.len(),
        forall|i: int| 0 < i < found.len() ==> #[trigger] named_before(code, found, i),
    ensures
        ({
            let t = found_with(found, code[found[at].index as int], k);
            &&& t.len() >= found.len()
            &&& forall|i: int| 0 <= i < found.len() ==> #[trigger] t[i] == found[i]
            &&& forall|i: int| 0 < i < t.len() ==> #[trigger] named_before(code, t, i)
        }),
    decreases code[found[at].index as int].succs.len() - k,
{
    let b = code[found[at].index as int];
    if k < b.succs.len() {
        if found.contains(b.succs[k].0) {
            found_with_named(code, found, at, k + 1);
        } else {
            let f = found.push(b.succs[k].0);
            assert forall|i: int| 0 < i < f.len() implies #[trigger] named_before(code, f, i) by {
                if i < found.len() {
                    assert(named_before(code, found, i));
                    let (j, m) = choose|j: int, m: int|
                        0 <= j < i && 0 <= m < code[found[j].index as int].succs.len() && (
                        #[trigger] code[found[j].index as int].succs[m]).0 == found[i];
                    assert(f[j] == found[j]);
                    assert(code[f[j].index as int].succs[m].0 == f[i]);
                } else {
                    assert(f[at] == found[at]);
                    assert(code[f[at].index as int].succs[k].0 == f[i]);
                }
            }
            found_with_named(code, f, at, k + 1);
            let t = found_with(found, b, k);
            assert(t == found_with(f, code[f[at].index as int], k + 1));
            assert forall|i: int| 0 <= i < found.len() implies #[trigger] t[i] == found[i] by {
                assert(f[i] == found[i]);
            }
        }
    }
}

proof fn found_from_named(code: Seq<BlockView>, found: Seq<Block>, k: int)
    requires
        0 <= k,
        forall|i: int| 0 < i < found.len() ==> #[trigger] named_before(code, found, i),
    ensures
        ({
            let t = found_from(code, found, k);
            forall|i: int| 0 < i < t.len() ==> #[trigger] named_before(code, t, i)
        }),
    decreases code.len() - k,
{
    if k < found.len() && k < code.len() {
        found_with_named(code, found, k, 0);
        let f = found_with(found, code[found[k].index as int], 0);
        found_from_named(code, f, k + 1);
        assert(found_from(code, found, k) == found_from(code, f, k + 1));
    }
}

/// Every block of the graph but the entry, which comes first, is a successor of
/// an earlier one, and so is reached from the entry; and the successors of every
/// block are blocks of the graph.
pub proof fn every_block_is_reached(code: Seq<BlockView>, entry: Block)
    requires
        code_wf(code, entry),
    ensures
        ({
            let found = found_blocks(code, entry);
            &&& found.len() > 0
            &&& found[0] == entry
            &&& forall|i: int| 0 < i < found.len() ==> #[trigger] named_before(code, found, i)
            &&& forall|i: int, j: int|
                0 <= i < found.len() && 0 <= j < code[found[i].index as int].succs.len()
                    ==> found.contains((#[trigger] code[found[i].index as int].succs[j]).0)
        }),
{
    found_from_keeps(code, entry, seq![entry], 0);
    found_from_named(code, seq![entry], 0);
    assert(found_blocks(code, entry)[0] == seq![entry][0]);
}

/// The blocks and the index of the next register while edge blocks are promoted.
pub type Promoting = (Seq<BBView>, int);

/// The positions of `n` blocks.
pub open spec fn positions(n: nat) -> Seq<usize> {
    Seq::new(n, |i: int| i as usize)
}

/// Whether a block consists of just a jump, and has one predecessor and one
/// successor.
pub open spec fn unnecessary(bbs: Seq<BBView>, succs: Map<usize, Seq<usize>>, v: int) -> bool {
    &&& bbs[v].inst.len() == 1
    &&& bbs[v].inst[0] is ImmJump
    &&& sources_into(positions(bbs.len()), succs, v as usize).len() == 1
    &&& succs[v as usize].len() == 1
}

/// The first block from `v` on that consists of just a jump.
pub open spec fn first_unnecessary(bbs: Seq<BBView>, succs: Map<usize, Seq<usize>>, v: int) -> int
    decreases bbs.len() - v,
{
    if v >= bbs.len() || unnecessary(bbs, succs, v) {
        v
    } else {
        first_unnecessary(bbs, succs, v + 1)
    }
}

/// The promoted form of an edge block: fresh registers are its parameters and are
/// passed on by an explicit jump.
pub open spec fn promoted_block(bb: BBView, next: int) -> BBView {
    let (succ, args) = bb.branch_params[0];
    let fresh = fresh_regs(next, args.len());
    let link = vreg(next + args.len());
    BBView {
        params: fresh,
        branch_params: seq![(succ, fresh)],
        inst: seq![
            MInstOf::JumpIssue {
                link,
                dst: bb.inst[0]->ImmJump_dst,
                kind: IssueKind::Jump,
                trig: 0,
            },
            MInstOf::JumpTrigger { link, args: fresh },
        ],
        ..bb
    }
}

/// The blocks with edge block `v` promoted. Its predecessor, which passed
/// nothing, passes the registers that the edge block passed.
pub open spec fn promoted(s: Promoting, succs: Map<usize, Seq<usize>>, v: int) -> Step<Promoting> {
    let (bbs, next) = s;
    let bb = bbs[v];
    if bb.params.len() != 0 || bb.branch_params.len() != 1 {
        Step::Stuck
    } else {
        let args = bb.branch_params[0].1;
        let pred = sources_into(positions(bbs.len()), succs, v as usize)[0] as int;
        let b1 = bbs.update(v, promoted_block(bb, next));
        let passed = b1[pred].branch_params;
        let at = args_position(passed, bb.vcode_bb, 0);
        if pred >= bbs.len() || at >= passed.len() || passed[at].1.len() != 0 {
            Step::Stuck
        } else {
            Step::Next(
                (
                    b1.update(
                        pred,
                        BBView {
                            branch_params: passed.update(at, (passed[at].0, args)),
                            ..b1[pred]
                        },
                    ),
                    next + args.len() + 1,
                ),
            )
        }
    }
}

/// The steps by which edge blocks are promoted.
pub open spec fn promote_steps(succs: Map<usize, Seq<usize>>) -> spec_fn(Promoting) -> Step<
    Promoting,
> {
    |s: Promoting|
        {
            let v = first_unnecessary(s.0, succs, 0);
            if v >= s.0.len() {
                Step::Done
            } else {
                promoted(s, succs, v)
            }
        }
}

/// Promotions take registers and keep the number of blocks.
pub proof fn promotions_grow(succs: Map<usize, Seq<usize>>, s: Promoting)
    ensures
        settled(promote_steps(succs), s) matches Some((b, n)) ==> n >= s.1 && b.len() == s.0.len(),
{
    if settled(promote_steps(succs), s) is Some {
        let keeps = |x: Promoting| x.1 >= s.1 && x.0.len() == s.0.len();
        assert forall|x: Promoting|
            #[trigger] keeps(x) && promote_steps(succs)(x) is Next implies keeps(
            promote_steps(succs)(x)->Next_0,
        ) by {
            first_unnecessary_bounds(x.0, succs, 0);
        }
        settled_keeps(promote_steps(succs), s, keeps);
    }
}

proof fn first_unnecessary_bounds(bbs: Seq<BBView>, succs: Map<usize, Seq<usize>>, v: int)
    requires
        0 <= v <= bbs.len(),
    ensures
        v <= first_unnecessary(bbs, succs, v) <= bbs.len(),
        first_unnecessary(bbs, succs, v) < bbs.len() ==> unnecessary(
            bbs,
            succs,
            first_unnecessary(bbs, succs, v),
        ),
    decreases bbs.len() - v,
{
    if v < bbs.len() && !unnecessary(bbs, succs, v) {
        first_unnecessary_bounds(bbs, succs, v + 1);
    }
}

impl VCodeCFG {
    /// The first block that consists of just a jump, and has one predecessor and
    /// one successor.
    pub fn find_unnecessary_block(&self) -> (r: Option<usize>)
        requires
            self.wf(),
        ensures
            match r {
                Some(v) => v == first_unnecessary(self.bbs(), self.succs(), 0) && v
                    < self.blocks@.len() && unnecessary(self.bbs(), self.succs(), v as int),
                None => first_unnecessary(self.bbs(), self.succs(), 0) >= self.blocks@.len(),
            },
    {
        let ghost bbs = self.bbs();
        let ghost succs = self.succs();
        assert(positions(bbs.len()) =~= crate::graph::graph_vertices(self.graph));
        for v in 0..self.blocks.len()
            invariant
                self.wf(),
                bbs == self.bbs(),
                succs == self.succs(),
                bbs.len() == self.blocks@.len(),
                positions(bbs.len()) == crate::graph::graph_vertices(self.graph),
                first_unnecessary(bbs, succs, 0) == first_unnecessary(bbs, succs, v as int),
        {
            let bb = &self.blocks[v];
            assert(bbs[v as int] == bb@);
            if bb.inst.len() == 1 {
                assert(bbs[v as int].inst[0] == bb.inst@[0]@);
                let jump: bool = match &bb.inst[0] {
                    MInst::ImmJump { .. } => true,
                    _ => false,
                };
                let preds = self.predecessors(v);
                let out = self.successors(v);
                if jump && preds.len() == 1 && out.len() == 1 {
                    return Some(v);
                }
            }
        }
        None
    }

    /// Promotes an edge block.
    fn promote(&mut self, v: usize, vregs: &mut VRegAllocator) -> (r: Result<(), CodegenError>)
        requires
            old(self).wf(),
            old(vregs).wf(),
            v < old(self).blocks@.len(),
            unnecessary(old(self).bbs(), old(self).succs(), v as int),
        ensures
            final(vregs).wf(),
            ({
                let s = promoted(
                    (old(self).bbs(), old(vregs).next as int),
                    old(self).succs(),
                    v as int,
                );
                match r {
                    Ok(()) => {
                        &&& final(self).wf()
                        &&& final(self).graph == old(self).graph
                        &&& final(self).root == old(self).root
                        &&& s == Step::Next((final(self).bbs(), final(vregs).next as int))
                        &&& final(vregs).next > old(vregs).next
                    },
                    Err(e) => {
                        ||| s is Stuck && (e is Malformed || ran_out(e, final(vregs).next))
                        ||| {
                            &&& s is Next
                            &&& s->Next_0.1 > VREG_LIMIT
                            &&& ran_out(e, final(vregs).next)
                        }
                    },
                }
            }),
    {
        let ghost bbs = self.bbs();
        let ghost succs = self.succs();
        let ghost next = vregs.next as int;
        let ghost bb = bbs[v as int];
        assert(positions(bbs.len()) =~= crate::graph::graph_vertices(self.graph));
        assert(bb == self.blocks@[v as int]@);
        if self.blocks[v].params.len() != 0 || self.blocks[v].branch_params.len() != 1 {
            return Err(CodegenError::Malformed);
        }
        assert(bb.branch_params[0].1 == self.blocks@[v as int].branch_params@[0].1@);
        let succ = self.blocks[v].branch_params[0].0;
        let args = copy_regs(&self.blocks[v].branch_params[0].1);
        let block = self.blocks[v].vcode_bb;
        assert(bb.inst[0] == self.blocks@[v as int].inst@[0]@);
        let dst: MachLabel = match &self.blocks[v].inst[0] {
            MInst::ImmJump { dst } => *dst,
            _ => {
                return Err(CodegenError::Malformed);
            },
        };
        // Fresh registers become the block's parameters and are passed onward in
        // place of the predecessor-owned ones.
        let mut fresh: Vec<Reg> = Vec::new();
        for k in 0..args.len()
            invariant
                vregs.wf(),
                next == old(vregs).next,
                vregs.next == next + k,
                fresh@ == fresh_regs(next, k as nat),
                args@.len() == bb.branch_params[0].1.len(),
                bb == old(self).bbs()[v as int],
                bb.params.len() == 0,
                bb.branch_params.len() == 1,
        {
            match vregs.fresh() {
                Ok(r) => {
                    fresh.push(r);
                },
                Err(e) => {
                    return Err(e);
                },
            }
            assert(fresh@ =~= fresh_regs(next, (k + 1) as nat));
        }
        let link = match vregs.fresh() {
            Ok(r) => r,
            Err(e) => {
                return Err(e);
            },
        };
        let mut b = self.blocks[v].copy();
        let mut inst: Vec<MInst> = Vec::new();
        inst.push(MInst::JumpIssue { link, dst, kind: IssueKind::Jump, trig: 0 });
        inst.push(MInst::JumpTrigger { link, args: copy_regs(&fresh) });
        let mut passed: Vec<(Block, Vec<Reg>)> = Vec::new();
        passed.push((succ, copy_regs(&fresh)));
        b.params = fresh;
        b.branch_params = passed;
        b.inst = inst;
        proof {
            let want = promoted_block(bb, next);
            assert(b@.inst =~= want.inst);
            assert(b@.branch_params =~= want.branch_params);
            assert(b@ =~= want);
        }
        let ghost bv = b@;
        self.blocks.set(v, b);
        let ghost b1 = self.bbs();
        assert(b1 =~= bbs.update(v as int, bv));
        // The predecessor passes what the edge block's jump used to pass.
        let preds = self.predecessors(v);
        let pred: usize = preds[0];
        if pred >= self.blocks.len() {
            return Err(CodegenError::Malformed);
        }
        assert(b1[pred as int] == self.blocks@[pred as int]@);
        let mut p = self.blocks[pred].copy();
        let at: usize = match p.find_args(block) {
            Some(at) => at,
            None => {
                return Err(CodegenError::Malformed);
            },
        };
        let ghost before = p@.branch_params;
        assert(before[at as int].1 == p.branch_params@[at as int].1@);
        if p.branch_params[at].1.len() != 0 {
            return Err(CodegenError::Malformed);
        }
        let ghost av = args@;
        let key = p.branch_params[at].0;
        p.branch_params.set(at, (key, args));
        assert(p@.branch_params =~= before.update(at as int, (before[at as int].0, av)));
        let ghost pv = p@;
        self.blocks.set(pred, p);
        let ghost b2 = self.bbs();
        assert(b2 =~= b1.update(pred as int, pv));
        proof {
            assert forall|i: int, j: int| 0 <= i < j < b2.len() implies (#[trigger] b2[i]).vcode_bb
                != (#[trigger] b2[j]).vcode_bb by {
                assert(bbs[i].vcode_bb != bbs[j].vcode_bb);
                assert(b1[i].vcode_bb == bbs[i].vcode_bb && b1[j].vcode_bb == bbs[j].vcode_bb);
                assert(b2[i].vcode_bb == b1[i].vcode_bb && b2[j].vcode_bb == b1[j].vcode_bb);
            }
        }
        Ok(())
    }

    /// Promotes all edge blocks.
    fn promote_all(&mut self, vregs: &mut VRegAllocator) -> (r: Result<(), CodegenError>)
        requires
            old(self).wf(),
            old(vregs).wf(),
        ensures
            final(vregs).wf(),
            ({
                let s = settled(
                    promote_steps(old(self).succs()),
                    (old(self).bbs(), old(vregs).next as int),
                );
                match r {
                    Ok(()) => {
                        &&& final(self).wf()
                        &&& final(self).graph == old(self).graph
                        &&& final(self).root == old(self).root
                        &&& s == Some((final(self).bbs(), final(vregs).next as int))
                    },
                    Err(e) => refused(s, e, final(vregs).next),
                }
            }),
    {
        let ghost succs = self.succs();
        let ghost steps = promote_steps(succs);
        let ghost start = (self.bbs(), vregs.next as int);
        loop
            invariant
                self.wf(),
                vregs.wf(),
                self.graph == old(self).graph,
                self.root == old(self).root,
                succs == self.succs(),
                succs == old(self).succs(),
                steps == promote_steps(succs),
                start == (old(self).bbs(), old(vregs).next as int),
                settled(steps, start) == settled(steps, (self.bbs(), vregs.next as int)),
            decreases VREG_LIMIT - vregs.next,
        {
            let ghost s = (self.bbs(), vregs.next as int);
            match self.find_unnecessary_block() {
                None => {
                    proof {
                        settled_done(steps, s);
                    }
                    return Ok(());
                },
                Some(v) => {
                    proof {
                        match steps(s) {
                            Step::Next(t) => {
                                settled_next(steps, s);
                                promotions_grow(succs, t);
                            },
                            Step::Stuck => {
                                settled_stuck(steps, s);
                            },
                            Step::Done => {},
                        }
                    }
                    match self.promote(v, vregs) {
                        Ok(()) => {},
                        Err(e) => {
                            return Err(e);
                        },
                    }
                },
            }
        }
    }
}

/// A graph under construction: its vertices are the positions of the found
/// blocks, which the table maps the blocks' numbers to.
spec fn building(
    graph: AdjListGraph<usize, ()>,
    table: IndexTable,
    found: Seq<Block>,
) -> bool {
    &&& graph_vertices(graph) == positions(found.len())
    &&& forall|x: usize| #[trigger] graph_succs(graph).contains_key(x) <==> x < found.len()
    &&& forall|i: int|
        0 <= i < found.len() ==> {
            &&& table_contents(table).contains_key((#[trigger] found[i]).index as usize)
            &&& table_contents(table)[found[i].index as usize] == i
        }
    &&& forall|x: usize|
        #[trigger] table_contents(table).contains_key(x) ==> exists|i: int|
            0 <= i < found.len() && (#[trigger] found[i]).index == x
}

/// Whether the targets are the positions of the first `k` successors of a block.
spec fn targets_match(targets: Seq<usize>, b: BlockView, found: Seq<Block>, k: int) -> bool {
    &&& targets.len() == k
    &&& forall|j: int|
        0 <= j < k ==> (#[trigger] targets[j]) < found.len() && found[targets[j] as int]
            == b.succs[j].0
}

proof fn targets_match_grown(targets: Seq<usize>, b: BlockView, f: Seq<Block>, g: Seq<Block>, k: int)
    requires
        targets_match(targets, b, f, k),
        f.len() <= g.len(),
        forall|i: int| 0 <= i < f.len() ==> #[trigger] g[i] == f[i],
    ensures
        targets_match(targets, b, g, k),
{
    assert forall|j: int| 0 <= j < k implies (#[trigger] targets[j]) < g.len()
        && g[targets[j] as int] == b.succs[j].0 by {
        assert(g[targets[j] as int] == f[targets[j] as int]);
    }
}

/// Adds a block that has not been found before.
fn add_found(
    graph: &mut AdjListGraph<usize, ()>,
    table: &mut IndexTable,
    found: &mut Vec<Block>,
    b: Block,
)
    requires
        building(*old(graph), *old(table), old(found)@),
        !old(found)@.contains(b),
    ensures
        final(found)@ == old(found)@.push(b),
        building(*final(graph), *final(table), final(found)@),
        graph_succs(*final(graph)) == graph_succs(*old(graph)).insert(
            old(found)@.len() as usize,
            seq![],
        ),
{
    let ghost f0 = found@;
    let v: usize = found.len();
    let ghost t0 = table_contents(*table);
    assert(!graph_vertices(*graph).contains(v)) by {
        if graph_vertices(*graph).contains(v) {
            let i = choose|i: int|
                0 <= i < graph_vertices(*graph).len() && graph_vertices(*graph)[i] == v;
            assert(graph_vertices(*graph)[i] == i as usize);
        }
    }
    let _ = add_vertex(graph, v);
    insert(table, b.index as usize, v);
    found.push(b);
    let ghost f1 = found@;
    proof {
        assert(graph_vertices(*graph) =~= positions(f1.len()));
        let t1 = table_contents(*table);
        assert forall|i: int| 0 <= i < f1.len() implies {
            &&& t1.contains_key((#[trigger] f1[i]).index as usize)
            &&& t1[f1[i].index as usize] == i
        } by {
            if i < f0.len() {
                assert(f1[i] == f0[i]);
                assert(t0.contains_key(f0[i].index as usize));
                if f0[i].index == b.index {
                    assert(f0[i] == b);
                    assert(f0.contains(b));
                }
            }
        }
        assert forall|x: usize| #[trigger] t1.contains_key(x) implies exists|i: int|
            0 <= i < f1.len() && (#[trigger] f1[i]).index == x by {
            if x == b.index {
                assert(f1[f0.len() as int].index == x);
            } else {
                assert(t0.contains_key(x));
                let i = choose|i: int| 0 <= i < f0.len() && (#[trigger] f0[i]).index == x;
                assert(f1[i].index == x);
            }
        }
    }
}

/// Looks at a found block: finds its successors and adds the edges to them.
fn look_at(
    vcode: &VCode,
    v: usize,
    graph: &mut AdjListGraph<usize, ()>,
    table: &mut IndexTable,
    found: &mut Vec<Block>,
)
    requires
        vcode.wf(),
        building(*old(graph), *old(table), old(found)@),
        found_wf(block_views(vcode.blocks@), old(found)@),
        v < old(found)@.len(),
        graph_succs(*old(graph))[v].len() == 0,
        forall|w: usize|
            v < w && w < old(found)@.len() ==> (#[trigger] graph_succs(*old(graph))[w]).len() == 0,
    ensures
        ({
            let code = block_views(vcode.blocks@);
            let f0 = old(found)@;
            let f1 = final(found)@;
            let b = code[f0[v as int].index as int];
            &&& f1 == found_with(f0, b, 0)
            &&& found_wf(code, f1)
            &&& building(*final(graph), *final(table), f1)
            &&& targets_match(graph_succs(*final(graph))[v], b, f1, b.succs.len() as int)
            &&& forall|w: usize|
                w < v ==> #[trigger] graph_succs(*final(graph))[w] == graph_succs(*old(graph))[w]
            &&& forall|w: usize|
                v < w && w < f1.len() ==> (#[trigger] graph_succs(*final(graph))[w]).len() == 0
        }),
{
    let ghost code = block_views(vcode.blocks@);
    let ghost f0 = found@;
    let at: usize = found[v].index as usize;
    let ghost b = code[at as int];
    assert(f0[v as int].index < code.len());
    assert(block_wf(b, code.len()));
    assert(b == vcode.blocks@[at as int]@);
    let ghost g0 = graph_succs(*graph);
    let n: usize = vcode.blocks[at].succs.len();
    proof {
        found_with_keeps(code, f0, b, 0);
    }
    for k in 0..n
        invariant
            vcode.wf(),
            code == block_views(vcode.blocks@),
            at < vcode.blocks@.len(),
            b == vcode.blocks@[at as int]@,
            b == code[f0[v as int].index as int],
            block_wf(b, code.len()),
            n == b.succs.len(),
            n == vcode.blocks@[at as int].succs@.len(),
            v < f0.len(),
            f0.len() <= found@.len(),
            forall|i: int| 0 <= i < f0.len() ==> #[trigger] found@[i] == f0[i],
            found_wf(code, found@),
            building(*graph, *table, found@),
            found_with(f0, b, 0) == found_with(found@, b, k as int),
            targets_match(graph_succs(*graph)[v], b, found@, k as int),
            forall|w: usize| w < v ==> #[trigger] graph_succs(*graph)[w] == g0[w],
            forall|w: usize|
                v < w && w < found@.len() ==> (#[trigger] graph_succs(*graph)[w]).len() == 0,
    {
        let s: Block = vcode.blocks[at].succs[k].0;
        assert(b.succs[k as int].0 == s);
        assert(b.succs[k as int].0.index < code.len());
        let ghost f1 = found@;
        let ghost g1 = graph_succs(*graph);
        let count: usize = found.len();
        match lookup(table, s.index as usize) {
            Some(_) => {
                proof {
                    let i = choose|i: int|
                        0 <= i < f1.len() && (#[trigger] f1[i]).index == s.index as usize;
                    assert(f1[i] == s);
                }
            },
            None => {
                proof {
                    if f1.contains(s) {
                        let i = choose|i: int| 0 <= i < f1.len() && f1[i] == s;
                        assert(table_contents(*table).contains_key(f1[i].index as usize));
                    }
                }
                add_found(graph, table, found, s);
            },
        }
        let ghost f2 = found@;
        let ghost g2 = graph_succs(*graph);
        proof {
            assert(f2 == (if f1.contains(s) {
                f1
            } else {
                f1.push(s)
            }));
            assert(found_wf(code, f2));
            assert(g2[v] == g1[v]);
            targets_match_grown(g1[v], b, f1, f2, k as int);
            assert(f2.contains(s)) by {
                if !f1.contains(s) {
                    assert(f2[f1.len() as int] == s);
                }
            }
            let i = choose|i: int| 0 <= i < f2.len() && f2[i] == s;
            assert(table_contents(*table).contains_key(f2[i].index as usize));
        }
        let t: usize = match lookup(table, s.index as usize) {
            Some(t) => t,
            None => 0,
        };
        proof {
            let i = choose|i: int| 0 <= i < f2.len() && f2[i] == s;
            assert(table_contents(*table)[f2[i].index as usize] == i);
            assert(t == i);
            assert(graph_vertices(*graph)[t as int] == t);
            assert(graph_vertices(*graph)[v as int] == v);
        }
        let _ = add_edge(graph, v, t);
        proof {
            let g3 = graph_succs(*graph);
            assert(g3[v] == g2[v].push(t));
            assert forall|w: usize| v < w && w < f2.len() implies (#[trigger] g3[w]).len() == 0 by {
                if w < f1.len() {
                    assert(g1[w].len() == 0);
                }
                assert(g2[w].len() == 0);
            }
            assert forall|j: int| 0 <= j < k + 1 implies (#[trigger] g3[v][j]) < f2.len()
                && f2[g3[v][j] as int] == b.succs[j].0 by {
                if j < k {
                    assert(g3[v][j] == g2[v][j]);
                }
            }
        }
    }
}

/// The targets of a block's edges are the positions of its successors.
proof fn targets_are_positions(code: Seq<BlockView>, found: Seq<Block>, v: int, t: Seq<usize>)
    requires
        found_wf(code, found),
        0 <= v < found.len() <= usize::MAX,
        targets_match(
            t,
            code[found[v].index as int],
            found,
            code[found[v].index as int].succs.len() as int,
        ),
    ensures
        t == graph_targets(code, found, v),
{
    let b = code[found[v].index as int];
    let want = graph_targets(code, found, v);
    assert forall|k: int| 0 <= k < t.len() implies t[k] == want[k] by {
        let s = b.succs[k].0;
        assert(found[t[k] as int] == s);
        found_at_bounds(found, s, 0);
    }
    assert(t =~= want);
}

/// The edges of the lowered code's graph.
pub open spec fn code_succs(code: Seq<BlockView>, entry: Block) -> Map<usize, Seq<usize>> {
    let found = found_blocks(code, entry);
    Map::new(|v: usize| v < found.len(), |v: usize| graph_targets(code, found, v as int))
}

/// The blocks of the lowered code's graph, edge blocks being promoted, and the
/// index of the next register.
pub open spec fn code_blocks(code: Seq<BlockView>, entry: Block, next: int) -> Option<Promoting> {
    settled(
        promote_steps(code_succs(code, entry)),
        (graph_blocks(code, found_blocks(code, entry)), next),
    )
}

impl VCodeCFG {
    /// Builds the graph of the blocks that can be reached from the entry.
    ///
    /// Blocks consisting of just a jump, with one predecessor, split critical
    /// edges: their single jump passes registers owned by the predecessor. They
    /// are promoted into blocks with parameters of their own.
    ///
    /// They are kept rather than folded back into their edge: with every critical
    /// edge split, every block with multiple predecessors only has
    /// single-successor predecessors, and every block with multiple successors
    /// only has single-predecessor successors.
    pub fn from_vcode(vcode: &VCode, vregs: &mut VRegAllocator) -> (r: Result<
        VCodeCFG,
        CodegenError,
    >)
        requires
            vcode.wf(),
            old(vregs).wf(),
        ensures
            final(vregs).wf(),
            ({
                let code = block_views(vcode.blocks@);
                let whole = code_blocks(code, vcode.entry, old(vregs).next as int);
                match r {
                    Ok(cfg) => {
                        &&& cfg.wf()
                        &&& cfg.root == 0
                        &&& cfg.succs() == code_succs(code, vcode.entry)
                        &&& whole == Some((cfg.bbs(), final(vregs).next as int))
                    },
                    Err(e) => refused(whole, e, final(vregs).next),
                }
            }),
    {
        let ghost code = block_views(vcode.blocks@);
        let entry = vcode.entry;
        let mut graph = empty_graph();
        let mut table = new_table();
        let mut found: Vec<Block> = Vec::new();
        assert(graph_vertices(graph) =~= positions(0));
        add_found(&mut graph, &mut table, &mut found, entry);
        assert(found@ =~= seq![entry]);
        let total: usize = vcode.blocks.len();
        let mut k: usize = 0;
        while k < found.len()
            invariant
                vcode.wf(),
                code == block_views(vcode.blocks@),
                code_wf(code, entry),
                entry == vcode.entry,
                total == code.len(),
                k <= found@.len(),
                found@.len() > 0,
                found@[0] == entry,
                found_wf(code, found@),
                building(graph, table, found@),
                found_blocks(code, entry) == found_from(code, found@, k as int),
                forall|w: usize|
                    w < k ==> targets_match(
                        #[trigger] graph_succs(graph)[w],
                        code[found@[w as int].index as int],
                        found@,
                        code[found@[w as int].index as int].succs.len() as int,
                    ),
                forall|w: usize|
                    k <= w && w < found@.len() ==> (#[trigger] graph_succs(graph)[w]).len() == 0,
            decreases total - k,
        {
            let ghost f0 = found@;
            let ghost g0 = graph_succs(graph);
            proof {
                found_bound(code, f0);
                found_with_keeps(code, f0, code[f0[k as int].index as int], 0);
            }
            look_at(vcode, k, &mut graph, &mut table, &mut found);
            proof {
                let f1 = found@;
                let g1 = graph_succs(graph);
                assert forall|w: usize| w < k + 1 implies targets_match(
                    #[trigger] g1[w],
                    code[f1[w as int].index as int],
                    f1,
                    code[f1[w as int].index as int].succs.len() as int,
                ) by {
                    assert(f1[w as int] == f0[w as int]);
                    if w < k {
                        assert(g1[w] == g0[w]);
                        let b = code[f0[w as int].index as int];
                        targets_match_grown(g0[w], b, f0, f1, b.succs.len() as int);
                    }
                }
            }
            k = k + 1;
        }
        let ghost all = found@;
        let n: usize = found.len();
        proof {
            found_bound(code, all);
            assert(all == found_blocks(code, entry));
        }
        let mut blocks: Vec<VCodeBB> = Vec::new();
        for i in 0..n
            invariant
                n == found@.len(),
                all == found@,
                vcode.wf(),
                code == block_views(vcode.blocks@),
                found_wf(code, all),
                bb_views(blocks@) == graph_blocks(code, all).take(i as int),
        {
            broadcast use crate::bb::bb_views_push;

            let b: Block = found[i];
            let at: usize = b.index as usize;
            assert(all[i as int].index < code.len());
            assert(code[at as int] == vcode.blocks@[at as int]@);
            let one = VCodeBB {
                vcode_bb: b,
                inst: copy_insts(&vcode.blocks[at].insts),
                params: copy_regs(&vcode.blocks[at].params),
                branch_params: crate::bb::copy_args(&vcode.blocks[at].succs),
                param_order: Vec::new(),
                branch_param_order: Vec::new(),
            };
            assert(one@ =~= graph_block(code, b));
            blocks.push(one);
            assert(bb_views(blocks@) =~= graph_blocks(code, all).take(i as int + 1));
        }
        assert(bb_views(blocks@) =~= graph_blocks(code, all));
        let mut cfg = VCodeCFG { graph, blocks, root: 0 };
        let ghost succs = cfg.succs();
        proof {
            assert(graph_vertices(cfg.graph) =~= Seq::new(cfg.blocks@.len(), |i: int| i as usize));
            assert forall|v: usize| v < n implies {
                &&& (#[trigger] succs[v]).no_duplicates()
                &&& forall|i: int| 0 <= i < succs[v].len() ==> #[trigger] succs[v][i] < n
            } by {
                let b = code[all[v as int].index as int];
                assert(all[v as int].index < code.len());
                assert(block_wf(b, code.len()));
                assert forall|i: int, j: int|
                    0 <= i < succs[v].len() && 0 <= j < succs[v].len() && i != j implies succs[v][i]
                    != succs[v][j] by {
                    assert(all[succs[v][i] as int] == b.succs[i].0);
                    assert(all[succs[v][j] as int] == b.succs[j].0);
                    if i < j {
                        assert(b.succs[i].0 != b.succs[j].0);
                    } else {
                        assert(b.succs[j].0 != b.succs[i].0);
                    }
                }
            }
            let bbs = cfg.bbs();
            assert forall|i: int, j: int| 0 <= i < j < bbs.len() implies (
            #[trigger] bbs[i]).vcode_bb != (#[trigger] bbs[j]).vcode_bb by {
                assert(all[i] != all[j]);
            }
            assert forall|v: usize| v < n implies #[trigger] succs[v] == graph_targets(
                code,
                all,
                v as int,
            ) by {
                targets_are_positions(code, all, v as int, succs[v]);
            }
            assert(succs =~= code_succs(code, entry));
        }
        match cfg.promote_all(vregs) {
            Ok(()) => Ok(cfg),
            Err(e) => Err(e),
        }
    }
}

/// In the lowered code's graph no block is left that consists of just a jump and
/// has one predecessor and one successor.
pub proof fn no_edge_block_is_left(code: Seq<BlockView>, entry: Block, next: int, v: int)
    requires
        code_blocks(code, entry, next) is Some,
        0 <= v < code_blocks(code, entry, next)->Some_0.0.len(),
    ensures
        !unnecessary(code_blocks(code, entry, next)->Some_0.0, code_succs(code, entry), v),
{
    let succs = code_succs(code, entry);
    let steps = promote_steps(succs);
    let start = (graph_blocks(code, found_blocks(code, entry)), next);
    settled_keeps(steps, start, |x: Promoting| true);
    let (bbs, n) = code_blocks(code, entry, next)->Some_0;
    promotion_is_not_done((bbs, n), succs);
    first_unnecessary_skips(bbs, succs, 0, v);
}

proof fn promotion_is_not_done(s: Promoting, succs: Map<usize, Seq<usize>>)
    requires
        promote_steps(succs)(s) is Done,
    ensures
        first_unnecessary(s.0, succs, 0) >= s.0.len(),
{
}

proof fn first_unnecessary_skips(bbs: Seq<BBView>, succs: Map<usize, Seq<usize>>, w: int, v: int)
    requires
        0 <= w <= v < bbs.len(),
        first_unnecessary(bbs, succs, w) >= bbs.len(),
    ensures
        !unnecessary(bbs, succs, v),
    decreases v - w,
{
    if w < v {
        first_unnecessary_skips(bbs, succs, w + 1, v);
    }
}

/// Whether a block has instructions and distinct successors among `n` blocks.
fn check_block(b: &VCodeBlock, n: usize) -> (r: bool)
    ensures
        r == block_wf(b@, n as nat),
{
    let ghost bv = b@;
    if b.insts.len() == 0 {
        return false;
    }
    for j in 0..b.succs.len()
        invariant
            bv == b@,
            bv.insts.len() > 0,
            forall|i: int| 0 <= i < j ==> (#[trigger] bv.succs[i]).0.index < n,
            forall|i: int, k: int|
                0 <= i < k < j ==> (#[trigger] bv.succs[i]).0 != (#[trigger] bv.succs[k]).0,
    {
        let s: Block = b.succs[j].0;
        assert(bv.succs[j as int].0 == s);
        if s.index as usize >= n {
            assert(!(bv.succs[j as int].0.index < n));
            return false;
        }
        for i in 0..j
            invariant
                bv == b@,
                j < b.succs@.len(),
                bv.succs[j as int].0 == s,
                forall|k: int| 0 <= k < i ==> (#[trigger] bv.succs[k]).0 != s,
        {
            assert(bv.succs[i as int].0 == b.succs@[i as int].0);
            if b.succs[i].0 == s {
                assert(bv.succs[i as int].0 == bv.succs[j as int].0);
                return false;
            }
        }
    }
    true
}

impl VCode {
    /// Whether the entry and all successors are blocks, every block has
    /// instructions, and no block names a successor twice.
    pub fn is_wf(&self) -> (r: bool)
        ensures
            r == self.wf(),
    {
        let ghost code = block_views(self.blocks@);
        let n: usize = self.blocks.len();
        if self.entry.index as usize >= n || n > 0xffff_ffff {
            return false;
        }
        for b in 0..n
            invariant
                n == self.blocks@.len(),
                code == block_views(self.blocks@),
                forall|c: int| 0 <= c < b ==> block_wf(#[trigger] code[c], code.len()),
        {
            assert(code[b as int] == self.blocks@[b as int]@);
            if !check_block(&self.blocks[b], n) {
                assert(!block_wf(code[b as int], code.len()));
                return false;
            }
        }
        true
    }
}

} // verus!
