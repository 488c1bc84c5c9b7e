//! The control-flow graph of basic blocks and passes over its blocks.
use crate::bb::{bb_views, first_from, BBView, VCodeBB};
use crate::graph::{
    edges_sinked_in, edges_sourced_in, graph_succs, graph_vertices, sources_into,
};
use crate::pass::refused;
use crate::reg::{Block, CodegenError, VRegAllocator};
use graphene::common::AdjListGraph;
use vstd::prelude::*;

verus! {

broadcast use crate::bb::bb_views_push;

/// The control-flow graph of a function. The vertices of the graph are the
/// positions of the blocks.
pub struct VCodeCFG {
    pub graph: AdjListGraph<usize, ()>,
    pub blocks: Vec<VCodeBB>,
    /// The position of the entry block.
    pub root: usize,
}

/// The successors of each of `n` blocks are blocks, each of them once.
pub open spec fn succs_wf(succs: Map<usize, Seq<usize>>, n: nat) -> bool {
    forall|v: usize|
        v < n ==> {
            &&& (#[trigger] succs[v]).no_duplicates()
            &&& forall|i: int| 0 <= i < succs[v].len() ==> #[trigger] succs[v][i] < n
        }
}

/// The blocks stand for different blocks of the lowered code.
pub open spec fn blocks_distinct(bbs: Seq<BBView>) -> bool {
    forall|i: int, j: int|
        0 <= i < j < bbs.len() ==> (#[trigger] bbs[i]).vcode_bb != (#[trigger] bbs[j]).vcode_bb
}

impl VCodeCFG {
    /// The blocks as mathematical values.
    pub open spec fn bbs(&self) -> Seq<BBView> {
        bb_views(self.blocks@)
    }

    /// The successors of each block.
    pub open spec fn succs(&self) -> Map<usize, Seq<usize>> {
        graph_succs(self.graph)
    }

    /// The graph has the blocks' positions as its vertices, an edge occurs at
    /// most once, and the entry is a block.
    pub open spec fn wf(&self) -> bool {
        &&& graph_vertices(self.graph) == Seq::new(self.blocks@.len(), |i: int| i as usize)
        &&& succs_wf(self.succs(), self.blocks@.len())
        &&& self.root < self.blocks@.len()
        &&& blocks_distinct(self.bbs())
    }

    /// A position is a vertex.
    pub proof fn position_is_vertex(&self, v: usize)
        requires
            self.wf(),
            v < self.blocks@.len(),
        ensures
            graph_vertices(self.graph).contains(v),
    {
        assert(graph_vertices(self.graph)[v as int] == v);
    }

    /// The successors of a block.
    pub fn successors(&self, v: usize) -> (r: Vec<usize>)
        requires
            self.wf(),
            v < self.blocks@.len(),
        ensures
            r@ == self.succs()[v],
    {
        proof {
            self.position_is_vertex(v);
        }
        edges_sourced_in(&self.graph, v)
    }

    /// The predecessors of a block.
    pub fn predecessors(&self, v: usize) -> (r: Vec<usize>)
        ensures
            r@ == sources_into(graph_vertices(self.graph), self.succs(), v),
    {
        edges_sinked_in(&self.graph, v)
    }

    /// The vertex of the block with the given vcode block, if any.
    pub open spec fn spec_vertex_of(bbs: Seq<BBView>, block: Block) -> Option<usize> {
        let i = first_from(|i: int| bbs[i].vcode_bb == block, 0, bbs.len() as int);
        if i < bbs.len() {
            Some(i as usize)
        } else {
            None
        }
    }

    /// Returns the vertex of the block with the given vcode block, if any.
    pub fn vertex_of_block(&self, block: Block) -> (r: Option<usize>)
        ensures
            r == VCodeCFG::spec_vertex_of(self.bbs(), block),
    {
        let ghost bbs = self.bbs();
        let ghost p = |i: int| bbs[i].vcode_bb == block;
        for i in 0..self.blocks.len()
            invariant
                bbs == self.bbs(),
                p == (|i: int| bbs[i].vcode_bb == block),
                first_from(p, 0, bbs.len() as int) == first_from(p, i as int, bbs.len() as int),
        {
            assert(bbs[i as int] == self.blocks@[i as int]@);
            if self.blocks[i].vcode_bb == block {
                return Some(i);
            }
        }
        None
    }

    /// The same graph with other blocks.
    pub fn with_blocks(self, blocks: Vec<VCodeBB>) -> (r: VCodeCFG)
        ensures
            r.bbs() == bb_views(blocks@),
            r.graph == self.graph,
            r.root == self.root,
    {
        VCodeCFG { graph: self.graph, blocks, root: self.root }
    }
}

/// A rewriting of one block at a time.
pub trait BlockPass {
    /// Whether the pass can be run.
    spec fn ready(&self) -> bool;

    /// The rewritten block and the index of the next register, `None` where the
    /// block breaks what the pass relies on. `v` is the block's position.
    spec fn rewritten(&self, v: int, bb: BBView, next: int) -> Option<(BBView, int)>;

    /// Registers are only taken, never handed back, and the block stands for
    /// the same block of the lowered code.
    proof fn grows(&self, v: int, bb: BBView, next: int)
        ensures
            self.rewritten(v, bb, next) matches Some((b, n)) ==> n >= next && b.vcode_bb
                == bb.vcode_bb,
    ;

    /// Rewrites a block.
    fn run(&self, v: usize, bb: &VCodeBB, vregs: &mut VRegAllocator) -> (r: Result<
        VCodeBB,
        CodegenError,
    >)
        requires
            old(vregs).wf(),
            self.ready(),
        ensures
            final(vregs).wf(),
            match r {
                Ok(b) => self.rewritten(v as int, bb@, old(vregs).next as int) == Some(
                    (b@, final(vregs).next as int),
                ),
                Err(e) => refused(
                    self.rewritten(v as int, bb@, old(vregs).next as int),
                    e,
                    final(vregs).next,
                ),
            },
    ;
}

/// The blocks from position `v` on, rewritten in order.
pub open spec fn rewritten_from<P: BlockPass>(
    pass: P,
    bbs: Seq<BBView>,
    v: int,
    next: int,
) -> Option<(Seq<BBView>, int)>
    decreases bbs.len() - v,
{
    if v >= bbs.len() {
        Some((Seq::empty(), next))
    } else {
        match pass.rewritten(v, bbs[v], next) {
            None => None,
            Some((b, n)) => match rewritten_from(pass, bbs, v + 1, n) {
                None => None,
                Some((rest, m)) => Some((seq![b] + rest, m)),
            },
        }
    }
}

/// All blocks rewritten in order.
pub open spec fn all_rewritten<P: BlockPass>(pass: P, bbs: Seq<BBView>, next: int) -> Option<
    (Seq<BBView>, int),
> {
    rewritten_from(pass, bbs, 0, next)
}

/// A pass keeps the number of blocks and which blocks they stand for.
pub proof fn rewritten_keeps_blocks<P: BlockPass>(pass: P, bbs: Seq<BBView>, v: int, next: int)
    requires
        0 <= v <= bbs.len(),
    ensures
        rewritten_from(pass, bbs, v, next) matches Some((r, m)) ==> {
            &&& m >= next
            &&& r.len() == bbs.len() - v
            &&& forall|i: int|
                0 <= i < r.len() ==> (#[trigger] r[i]).vcode_bb == bbs[v + i].vcode_bb
        },
    decreases bbs.len() - v,
{
    if v < bbs.len() {
        pass.grows(v, bbs[v], next);
        if let Some((b, n)) = pass.rewritten(v, bbs[v], next) {
            rewritten_keeps_blocks(pass, bbs, v + 1, n);
            if let Some((rest, m)) = rewritten_from(pass, bbs, v + 1, n) {
                let r = seq![b] + rest;
                assert forall|i: int| 0 <= i < r.len() implies (#[trigger] r[i]).vcode_bb
                    == bbs[v + i].vcode_bb by {
                    if i > 0 {
                        assert(r[i] == rest[i - 1]);
                        assert(bbs[(v + 1) + (i - 1)] == bbs[v + i]);
                    }
                }
            }
        }
    }
}

/// Rewrites all blocks in order.
pub fn run_pass<P: BlockPass>(
    pass: &P,
    cfg: VCodeCFG,
    vregs: &mut VRegAllocator,
) -> (r: Result<VCodeCFG, CodegenError>)
    requires
        old(vregs).wf(),
        cfg.wf(),
        pass.ready(),
    ensures
        final(vregs).wf(),
        match r {
            Ok(c) => {
                &&& c.wf()
                &&& c.graph == cfg.graph
                &&& c.root == cfg.root
                &&& all_rewritten(*pass, cfg.bbs(), old(vregs).next as int) == Some(
                    (c.bbs(), final(vregs).next as int),
                )
            },
            Err(e) => refused(
                all_rewritten(*pass, cfg.bbs(), old(vregs).next as int),
                e,
                final(vregs).next,
            ),
        },
{
    let ghost bbs = cfg.bbs();
    let ghost start = vregs.next as int;
    let mut blocks: Vec<VCodeBB> = Vec::new();
    for v in 0..cfg.blocks.len()
        invariant
            vregs.wf(),
            pass.ready(),
            bbs == cfg.bbs(),
            start == old(vregs).next,
            blocks@.len() == v,
            all_rewritten(*pass, bbs, start) == (match rewritten_from(
                *pass,
                bbs,
                v as int,
                vregs.next as int,
            ) {
                None => None,
                Some((rest, m)) => Some((bb_views(blocks@) + rest, m)),
            }),
    {
        broadcast use crate::bb::bb_views_push;

        let ghost n0 = vregs.next as int;
        assert(bbs[v as int] == cfg.blocks@[v as int]@);
        match pass.run(v, &cfg.blocks[v], vregs) {
            Err(e) => {
                proof {
                    if let Some((b, n)) = pass.rewritten(v as int, bbs[v as int], n0) {
                        rewritten_keeps_blocks(*pass, bbs, v as int + 1, n);
                    }
                }
                return Err(e);
            },
            Ok(b) => {
                let ghost before = bb_views(blocks@);
                blocks.push(b);
                proof {
                    if let Some((rest, m)) = rewritten_from(
                        *pass,
                        bbs,
                        v as int + 1,
                        vregs.next as int,
                    ) {
                        assert(before + (seq![b@] + rest) =~= bb_views(blocks@) + rest);
                    }
                }
            },
        }
    }
    proof {
        rewritten_keeps_blocks(*pass, bbs, 0, start);
        assert(bb_views(blocks@) + Seq::<BBView>::empty() =~= bb_views(blocks@));
    }
    let c = cfg.with_blocks(blocks);
    assert(c.wf()) by {
        let r = c.bbs();
        assert forall|i: int, j: int| 0 <= i < j < r.len() implies (#[trigger] r[i]).vcode_bb != (
        #[trigger] r[j]).vcode_bb by {
            assert(bbs[i].vcode_bb != bbs[j].vcode_bb);
            assert(bbs[0 + i] == bbs[i] && bbs[0 + j] == bbs[j]);
        }
    }
    Ok(c)
}

} // verus!
