//! The flow of values along the edges of the control-flow graph.
use crate::bb::{args_view, BBView, VCodeBB};
use crate::cfg::{succs_wf, VCodeCFG};
use crate::reg::{Block, CodegenError, Reg};
use vstd::prelude::*;

verus! {

/// A value that one block passes to another.
#[derive(Clone, Copy, PartialEq, Eq, Structural, Debug)]
pub struct FlowEdge {
    /// The block that passes the value.
    pub src: usize,
    /// The block that receives it.
    pub sink: usize,
    /// The position of the value among those that are passed.
    pub idx: usize,
    /// The register that is passed.
    pub out: Reg,
    /// The parameter that receives it.
    pub into: Reg,
}

/// Where the registers for a block are listed, from `i` on.
pub open spec fn args_position(args: Seq<(Block, Seq<Reg>)>, block: Block, i: int) -> int
    decreases args.len() - i,
{
    if i >= args.len() || args[i].0 == block {
        i
    } else {
        args_position(args, block, i + 1)
    }
}

/// The registers passed to a block.
pub open spec fn args_for(args: Seq<(Block, Seq<Reg>)>, block: Block) -> Option<Seq<Reg>> {
    let i = args_position(args, block, 0);
    if i < args.len() {
        Some(args[i].1)
    } else {
        None
    }
}

/// Whether as many registers are passed from a block to another as the other has
/// parameters.
pub open spec fn edge_wf(bbs: Seq<BBView>, v: int, s: int) -> bool {
    args_for(bbs[v].branch_params, bbs[s].vcode_bb) matches Some(args) && args.len()
        == bbs[s].params.len()
}

/// The values that flow along an edge.
pub open spec fn edge_flows(bbs: Seq<BBView>, v: int, s: int) -> Seq<FlowEdge> {
    let args = args_for(bbs[v].branch_params, bbs[s].vcode_bb)->Some_0;
    Seq::new(
        args.len(),
        |k: int|
            FlowEdge {
                src: v as usize,
                sink: s as usize,
                idx: k as usize,
                out: args[k],
                into: bbs[s].params[k],
            },
    )
}

/// The values that flow from a block to its successors from the `k`th on; `None`
/// where an edge does not fit.
pub open spec fn flows_from(
    bbs: Seq<BBView>,
    succs: Seq<usize>,
    v: int,
    k: int,
) -> Option<Seq<FlowEdge>>
    decreases succs.len() - k,
{
    if k >= succs.len() {
        Some(Seq::empty())
    } else if !edge_wf(bbs, v, succs[k] as int) {
        None
    } else {
        match flows_from(bbs, succs, v, k + 1) {
            Some(rest) => Some(edge_flows(bbs, v, succs[k] as int) + rest),
            None => None,
        }
    }
}

/// The values that flow from a block to its successors.
pub open spec fn block_flows(bbs: Seq<BBView>, succs: Map<usize, Seq<usize>>, v: int) -> Option<
    Seq<FlowEdge>,
> {
    flows_from(bbs, succs[v as usize], v, 0)
}

/// The values that flow from the blocks from `v` on.
pub open spec fn all_flows(bbs: Seq<BBView>, succs: Map<usize, Seq<usize>>, v: int) -> Option<
    Seq<FlowEdge>,
>
    decreases bbs.len() - v,
{
    if v >= bbs.len() {
        Some(Seq::empty())
    } else {
        match (block_flows(bbs, succs, v), all_flows(bbs, succs, v + 1)) {
            (Some(first), Some(rest)) => Some(first + rest),
            _ => None,
        }
    }
}

impl VCodeBB {
    /// Where the registers for a block are listed.
    pub fn find_args(&self, block: Block) -> (r: Option<usize>)
        ensures
            match r {
                Some(i) => i == args_position(self@.branch_params, block, 0) && i
                    < self.branch_params@.len(),
                None => args_position(self@.branch_params, block, 0) >= self.branch_params@.len(),
            },
    {
        let ghost args = self@.branch_params;
        for i in 0..self.branch_params.len()
            invariant
                args == args_view(self.branch_params@),
                args_position(args, block, 0) == args_position(args, block, i as int),
        {
            assert(args[i as int].0 == self.branch_params@[i as int].0);
            if self.branch_params[i].0 == block {
                return Some(i);
            }
        }
        None
    }
}

impl VCodeCFG {
    /// The values that flow from a block to its successors.
    pub fn flows_of(&self, v: usize) -> (r: Result<Vec<FlowEdge>, CodegenError>)
        requires
            self.wf(),
            v < self.blocks@.len(),
        ensures
            match r {
                Ok(flows) => block_flows(self.bbs(), self.succs(), v as int) == Some(flows@),
                Err(e) => e is Malformed && block_flows(self.bbs(), self.succs(), v as int) is None,
            },
    {
        let ghost bbs = self.bbs();
        let succs = self.successors(v);
        let mut flows: Vec<FlowEdge> = Vec::new();
        let ghost whole = flows_from(bbs, succs@, v as int, 0);
        for k in 0..succs.len()
            invariant
                self.wf(),
                v < self.blocks@.len(),
                bbs == self.bbs(),
                succs@ == self.succs()[v],
                whole == flows_from(bbs, succs@, v as int, 0),
                whole == (match flows_from(bbs, succs@, v as int, k as int) {
                    Some(rest) => Some(flows@ + rest),
                    None => None,
                }),
        {
            let s: usize = succs[k];
            assert(succs_wf(self.succs(), self.blocks@.len()));
            assert(s < self.blocks@.len());
            assert(bbs[v as int] == self.blocks@[v as int]@);
            assert(bbs[s as int] == self.blocks@[s as int]@);
            let at: usize = match self.blocks[v].find_args(self.blocks[s].vcode_bb) {
                Some(at) => at,
                None => {
                    return Err(CodegenError::Malformed);
                },
            };
            let args = &self.blocks[v].branch_params[at].1;
            let params = &self.blocks[s].params;
            assert(args@ == args_for(bbs[v as int].branch_params, bbs[s as int].vcode_bb)->Some_0);
            if args.len() != params.len() {
                return Err(CodegenError::Malformed);
            }
            let ghost before = flows@;
            let ghost new = edge_flows(bbs, v as int, s as int);
            for i in 0..args.len()
                invariant
                    args@.len() == params@.len(),
                    new.len() == args@.len(),
                    forall|j: int|
                        0 <= j < args@.len() ==> #[trigger] new[j] == (FlowEdge {
                            src: v,
                            sink: s,
                            idx: j as usize,
                            out: args@[j],
                            into: params@[j],
                        }),
                    flows@ == before + new.take(i as int),
            {
                flows.push(FlowEdge { src: v, sink: s, idx: i, out: args[i], into: params[i] });
                assert(new[i as int] == flows@.last());
                assert(flows@ =~= before + new.take(i as int + 1));
            }
            assert(new.take(new.len() as int) =~= new);
            proof {
                if let Some(rest) = flows_from(bbs, succs@, v as int, k as int + 1) {
                    assert(before + (new + rest) =~= flows@ + rest);
                }
            }
        }
        assert(flows@ + Seq::<FlowEdge>::empty() =~= flows@);
        Ok(flows)
    }

    /// Returns the dataflow over the basic blocks of the graph.
    ///
    /// There is an edge for every register that a block passes to a successor.
    /// A value may have a different register in the producer than in the
    /// consumer; an edge names both, and the position of the value.
    pub fn dataflow_graph(&self) -> (r: Result<Vec<FlowEdge>, CodegenError>)
        requires
            self.wf(),
        ensures
            match r {
                Ok(flows) => all_flows(self.bbs(), self.succs(), 0) == Some(flows@),
                Err(e) => e is Malformed && all_flows(self.bbs(), self.succs(), 0) is None,
            },
    {
        let ghost bbs = self.bbs();
        let mut flows: Vec<FlowEdge> = Vec::new();
        for v in 0..self.blocks.len()
            invariant
                self.wf(),
                bbs == self.bbs(),
                bbs.len() == self.blocks@.len(),
                all_flows(bbs, self.succs(), 0) == (match all_flows(bbs, self.succs(), v as int) {
                    Some(rest) => Some(flows@ + rest),
                    None => None,
                }),
        {
            let ghost before = flows@;
            match self.flows_of(v) {
                Ok(mut new) => {
                    let ghost added = new@;
                    flows.append(&mut new);
                    proof {
                        if let Some(rest) = all_flows(bbs, self.succs(), v as int + 1) {
                            assert(before + (added + rest) =~= flows@ + rest);
                        }
                    }
                },
                Err(e) => {
                    return Err(e);
                },
            }
        }
        assert(flows@ + Seq::<FlowEdge>::empty() =~= flows@);
        Ok(flows)
    }
}

} // verus!
