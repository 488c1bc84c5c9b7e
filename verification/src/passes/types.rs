//! Inference of the registers' types over a whole function.
use crate::bb::BBView;
use crate::cfg::VCodeCFG;
use crate::flow::{block_flows, FlowEdge};
use crate::inst::MInstView;
use crate::ir::AbiParam;
use crate::pass::{
    settled, settled_done, settled_next, settled_stuck, Step,
};
use crate::passes::infer::{infer, infer_progresses, at_least, Here, Inference, Known, Site};
use crate::typemap::unknown;
use vstd::prelude::*;

verus! {

/// What the instructions of a block tell, from position `i` on.
pub open spec fn block_sweep(
    s: Known,
    bbs: Seq<BBView>,
    flows: Seq<FlowEdge>,
    rets: Seq<AbiParam>,
    soft: bool,
    v: int,
    i: int,
) -> Option<Known>
    decreases bbs[v].inst.len() - i,
{
    if i >= bbs[v].inst.len() {
        Some(s)
    } else {
        match infer(
            s,
            Site { bb: v as usize, inst: i as usize, soft, rets, flows },
            bbs[v].inst[i],
        ) {
            Some(t) => block_sweep(t, bbs, flows, rets, soft, v, i + 1),
            None => None,
        }
    }
}

/// What all instructions tell, from block `v` on.
pub open spec fn sweep(
    s: Known,
    bbs: Seq<BBView>,
    succs: Map<usize, Seq<usize>>,
    rets: Seq<AbiParam>,
    soft: bool,
    v: int,
) -> Option<Known>
    decreases bbs.len() - v,
{
    if v >= bbs.len() {
        Some(s)
    } else {
        match block_flows(bbs, succs, v) {
            None => None,
            Some(flows) => match block_sweep(s, bbs, flows, rets, soft, v, 0) {
                Some(t) => sweep(t, bbs, succs, rets, soft, v + 1),
                None => None,
            },
        }
    }
}

/// The steps of the inference: sweeps over all instructions, until one tells
/// nothing new of the types.
pub open spec fn sweep_steps(
    bbs: Seq<BBView>,
    succs: Map<usize, Seq<usize>>,
    rets: Seq<AbiParam>,
    soft: bool,
) -> spec_fn((Known, bool)) -> Step<(Known, bool)> {
    |s: (Known, bool)|
        if s.1 {
            Step::Done
        } else {
            match sweep(s.0, bbs, succs, rets, soft, 0) {
                Some(t) => Step::Next((t, t.types == s.0.types)),
                None => Step::Stuck,
            }
        }
}

/// What is known after one phase of the inference; `None` where the instructions
/// contradict each other.
pub open spec fn phase(
    s: Known,
    bbs: Seq<BBView>,
    succs: Map<usize, Seq<usize>>,
    rets: Seq<AbiParam>,
    soft: bool,
) -> Option<Known> {
    match settled(sweep_steps(bbs, succs, rets, soft), (s, false)) {
        Some((t, _)) => Some(t),
        None => None,
    }
}

proof fn block_sweep_progresses(
    s: Known,
    bbs: Seq<BBView>,
    flows: Seq<FlowEdge>,
    rets: Seq<AbiParam>,
    soft: bool,
    v: int,
    i: int,
)
    ensures
        block_sweep(s, bbs, flows, rets, soft, v, i) matches Some(t) ==> at_least(t, s),
    decreases bbs[v].inst.len() - i,
{
    if i < bbs[v].inst.len() {
        let at = Site { bb: v as usize, inst: i as usize, soft, rets, flows };
        infer_progresses(s, at, bbs[v].inst[i]);
        if let Some(t) = infer(s, at, bbs[v].inst[i]) {
            block_sweep_progresses(t, bbs, flows, rets, soft, v, i + 1);
        }
    }
}

proof fn sweep_progresses(
    s: Known,
    bbs: Seq<BBView>,
    succs: Map<usize, Seq<usize>>,
    rets: Seq<AbiParam>,
    soft: bool,
    v: int,
)
    ensures
        sweep(s, bbs, succs, rets, soft, v) matches Some(t) ==> at_least(t, s),
    decreases bbs.len() - v,
{
    if v < bbs.len() {
        if let Some(flows) = block_flows(bbs, succs, v) {
            block_sweep_progresses(s, bbs, flows, rets, soft, v, 0);
            if let Some(t) = block_sweep(s, bbs, flows, rets, soft, v, 0) {
                sweep_progresses(t, bbs, succs, rets, soft, v + 1);
            }
        }
    }
}

/// Sweeps over the instructions of a block.
fn sweep_block(
    cfg: &VCodeCFG,
    v: usize,
    flows: &Vec<FlowEdge>,
    rets: &Vec<AbiParam>,
    soft: bool,
    inf: &mut Inference,
) -> (ok: bool)
    requires
        old(inf).wf(),
        v < cfg.blocks@.len(),
    ensures
        final(inf).wf(),
        final(inf).base == old(inf).base,
        ok ==> block_sweep(old(inf)@, cfg.bbs(), flows@, rets@, soft, v as int, 0) == Some(
            final(inf)@,
        ),
        !ok ==> block_sweep(old(inf)@, cfg.bbs(), flows@, rets@, soft, v as int, 0) is None,
{
    let ghost bbs = cfg.bbs();
    let ghost whole = block_sweep(inf@, bbs, flows@, rets@, soft, v as int, 0);
    assert(bbs[v as int] == cfg.blocks@[v as int]@);
    let n: usize = cfg.blocks[v].inst.len();
    for i in 0..n
        invariant
            inf.wf(),
            inf.base == old(inf).base,
            n == cfg.blocks@[v as int].inst@.len(),
            bbs == cfg.bbs(),
            v < cfg.blocks@.len(),
            bbs[v as int] == cfg.blocks@[v as int]@,
            whole == block_sweep(old(inf)@, bbs, flows@, rets@, soft, v as int, 0),
            whole == block_sweep(inf@, bbs, flows@, rets@, soft, v as int, i as int),
    {
        let at = Here { bb: v, inst: i, soft, rets, flows };
        assert(at@ == Site { bb: v, inst: i, soft, rets: rets@, flows: flows@ });
        assert(bbs[v as int].inst[i as int] == cfg.blocks@[v as int].inst@[i as int]@);
        if !inf.infer(&at, &cfg.blocks[v].inst[i]) {
            return false;
        }
    }
    true
}

/// Sweeps over all instructions.
fn sweep_all(
    cfg: &VCodeCFG,
    rets: &Vec<AbiParam>,
    soft: bool,
    inf: &mut Inference,
) -> (ok: bool)
    requires
        old(inf).wf(),
        cfg.wf(),
    ensures
        final(inf).wf(),
        final(inf).base == old(inf).base,
        ok ==> sweep(old(inf)@, cfg.bbs(), cfg.succs(), rets@, soft, 0) == Some(final(inf)@),
        !ok ==> sweep(old(inf)@, cfg.bbs(), cfg.succs(), rets@, soft, 0) is None,
{
    let ghost bbs = cfg.bbs();
    let ghost succs = cfg.succs();
    let ghost whole = sweep(inf@, bbs, succs, rets@, soft, 0);
    for v in 0..cfg.blocks.len()
        invariant
            inf.wf(),
            inf.base == old(inf).base,
            cfg.wf(),
            bbs == cfg.bbs(),
            succs == cfg.succs(),
            bbs.len() == cfg.blocks@.len(),
            whole == sweep(old(inf)@, bbs, succs, rets@, soft, 0),
            whole == sweep(inf@, bbs, succs, rets@, soft, v as int),
    {
        let flows = match cfg.flows_of(v) {
            Ok(flows) => flows,
            Err(_) => {
                return false;
            },
        };
        if !sweep_block(cfg, v, &flows, rets, soft, inf) {
            return false;
        }
    }
    true
}

/// One phase of the inference: analyzes every instruction until the assignment
/// of types stabilizes.
///
/// `soft` gates the best-effort unifications. Hard operand constraints that
/// conflict with an established type are recorded as demanded casts rather than
/// applied. Returns whether the instructions agree.
pub fn type_analysis_phase(
    cfg: &VCodeCFG,
    rets: &Vec<AbiParam>,
    soft: bool,
    given: Inference,
) -> (r: Option<Inference>)
    requires
        given.wf(),
        cfg.wf(),
    ensures
        match r {
            Some(t) => t.wf() && phase(given@, cfg.bbs(), cfg.succs(), rets@, soft) == Some(t@),
            None => phase(given@, cfg.bbs(), cfg.succs(), rets@, soft) is None,
        },
{
    let ghost bbs = cfg.bbs();
    let ghost succs = cfg.succs();
    let ghost steps = sweep_steps(bbs, succs, rets@, soft);
    let ghost whole = settled(steps, (given@, false));
    let ghost start = given@;
    let mut inf = given;
    loop
        invariant
            inf.wf(),
            cfg.wf(),
            bbs == cfg.bbs(),
            succs == cfg.succs(),
            steps == sweep_steps(bbs, succs, rets@, soft),
            start == given@,
            whole == settled(steps, (start, false)),
            whole == settled(steps, (inf@, false)),
        decreases unknown(inf@.types),
    {
        let ghost s = inf@;
        inf.dirty = false;
        inf.base = Ghost(inf.types@);
        proof {
            sweep_progresses(s, bbs, succs, rets@, soft, 0);
        }
        if !sweep_all(cfg, rets, soft, &mut inf) {
            proof {
                settled_stuck(steps, (s, false));
            }
            return None;
        }
        proof {
            settled_next(steps, (s, false));
        }
        if !inf.dirty {
            proof {
                settled_done(steps, (inf@, true));
            }
            return Some(inf);
        }
    }
}

/// After a phase, a sweep over all instructions tells nothing new of the types.
pub proof fn phase_is_stable(
    s: Known,
    bbs: Seq<BBView>,
    succs: Map<usize, Seq<usize>>,
    rets: Seq<AbiParam>,
    soft: bool,
)
    requires
        phase(s, bbs, succs, rets, soft) is Some,
    ensures
        ({
            let t = phase(s, bbs, succs, rets, soft)->Some_0;
            exists|u: Known|
                u.types == t.types && sweep(u, bbs, succs, rets, soft, 0) == Some(t)
        }),
{
    let steps = sweep_steps(bbs, succs, rets, soft);
    let keeps = |x: (Known, bool)|
        x.1 ==> exists|u: Known|
            u.types == x.0.types && sweep(u, bbs, succs, rets, soft, 0) == Some(x.0);
    assert forall|x: (Known, bool)| #[trigger] keeps(x) && steps(x) is Next implies keeps(
        steps(x)->Next_0,
    ) by {
        let y = steps(x)->Next_0;
        if y.1 {
            assert(x.0.types == y.0.types && sweep(x.0, bbs, succs, rets, soft, 0) == Some(y.0));
        }
    }
    crate::pass::settled_keeps(steps, (s, false), keeps);
    let t = settled(steps, (s, false))->Some_0;
    assert(keeps(t) && t.1);
}

/// Demands are only added.
proof fn infer_keeps_demands(s: Known, at: Site, inst: MInstView)
    requires
        infer(s, at, inst) is Some,
    ensures
        infer(s, at, inst)->Some_0.demands.len() >= s.demands.len(),
{
    crate::passes::infer::infer_adds_demands(s, at, inst);
}

proof fn block_sweep_adds(
    s: Known,
    bbs: Seq<BBView>,
    flows: Seq<FlowEdge>,
    rets: Seq<AbiParam>,
    soft: bool,
    v: int,
    i: int,
)
    ensures
        block_sweep(s, bbs, flows, rets, soft, v, i) matches Some(t) ==> t.demands.len()
            >= s.demands.len(),
    decreases bbs[v].inst.len() - i,
{
    if i < bbs[v].inst.len() {
        let at = Site { bb: v as usize, inst: i as usize, soft, rets, flows };
        if let Some(t) = infer(s, at, bbs[v].inst[i]) {
            infer_keeps_demands(s, at, bbs[v].inst[i]);
            block_sweep_adds(t, bbs, flows, rets, soft, v, i + 1);
        }
    }
}

proof fn sweep_adds(
    s: Known,
    bbs: Seq<BBView>,
    succs: Map<usize, Seq<usize>>,
    rets: Seq<AbiParam>,
    soft: bool,
    v: int,
)
    ensures
        sweep(s, bbs, succs, rets, soft, v) matches Some(t) ==> t.demands.len() >= s.demands.len(),
    decreases bbs.len() - v,
{
    if v < bbs.len() {
        if let Some(flows) = block_flows(bbs, succs, v) {
            block_sweep_adds(s, bbs, flows, rets, soft, v, 0);
            if let Some(t) = block_sweep(s, bbs, flows, rets, soft, v, 0) {
                sweep_adds(t, bbs, succs, rets, soft, v + 1);
            }
        }
    }
}

proof fn block_sweep_settled(
    s: Known,
    bbs: Seq<BBView>,
    flows: Seq<FlowEdge>,
    rets: Seq<AbiParam>,
    soft: bool,
    v: int,
    i: int,
    j: int,
)
    requires
        0 <= i <= j < bbs[v].inst.len(),
        s.demands.len() == 0,
        block_sweep(s, bbs, flows, rets, soft, v, i) matches Some(t) && t.types == s.types
            && t.demands.len() == 0,
    ensures
        infer(
            s,
            Site { bb: v as usize, inst: j as usize, soft, rets, flows },
            bbs[v].inst[j],
        ) == Some(s),
    decreases j - i,
{
    let at = Site { bb: v as usize, inst: i as usize, soft, rets, flows };
    infer_progresses(s, at, bbs[v].inst[i]);
    infer_keeps_demands(s, at, bbs[v].inst[i]);
    let u = infer(s, at, bbs[v].inst[i])->Some_0;
    block_sweep_progresses(u, bbs, flows, rets, soft, v, i + 1);
    block_sweep_adds(u, bbs, flows, rets, soft, v, i + 1);
    assert(u.demands =~= s.demands);
    assert(u == s);
    if i < j {
        block_sweep_settled(s, bbs, flows, rets, soft, v, i + 1, j);
    }
}

proof fn sweep_settled(
    s: Known,
    bbs: Seq<BBView>,
    succs: Map<usize, Seq<usize>>,
    rets: Seq<AbiParam>,
    soft: bool,
    w: int,
    v: int,
    j: int,
)
    requires
        0 <= w <= v < bbs.len(),
        0 <= j < bbs[v].inst.len(),
        s.demands.len() == 0,
        sweep(s, bbs, succs, rets, soft, w) matches Some(t) && t.types == s.types
            && t.demands.len() == 0,
    ensures
        block_flows(bbs, succs, v) is Some,
        infer(
            s,
            Site {
                bb: v as usize,
                inst: j as usize,
                soft,
                rets,
                flows: block_flows(bbs, succs, v)->Some_0,
            },
            bbs[v].inst[j],
        ) == Some(s),
    decreases v - w,
{
    let flows = block_flows(bbs, succs, w)->Some_0;
    block_sweep_progresses(s, bbs, flows, rets, soft, w, 0);
    block_sweep_adds(s, bbs, flows, rets, soft, w, 0);
    let u = block_sweep(s, bbs, flows, rets, soft, w, 0)->Some_0;
    sweep_progresses(u, bbs, succs, rets, soft, w + 1);
    sweep_adds(u, bbs, succs, rets, soft, w + 1);
    assert(u.demands =~= s.demands);
    assert(u == s);
    if w < v {
        sweep_settled(s, bbs, succs, rets, soft, w + 1, v, j);
    } else {
        block_sweep_settled(s, bbs, flows, rets, soft, v, 0, j);
    }
}

/// After a phase that demands no casts, every instruction agrees with the types:
/// it tells nothing new of them, and demands nothing.
pub proof fn instructions_agree_with_types(
    s: Known,
    bbs: Seq<BBView>,
    succs: Map<usize, Seq<usize>>,
    rets: Seq<AbiParam>,
    soft: bool,
    v: int,
    j: int,
)
    requires
        phase(s, bbs, succs, rets, soft) is Some,
        phase(s, bbs, succs, rets, soft)->Some_0.demands.len() == 0,
        0 <= v < bbs.len(),
        0 <= j < bbs[v].inst.len(),
    ensures
        ({
            let t = phase(s, bbs, succs, rets, soft)->Some_0;
            &&& block_flows(bbs, succs, v) is Some
            &&& infer(
                t,
                Site {
                    bb: v as usize,
                    inst: j as usize,
                    soft,
                    rets,
                    flows: block_flows(bbs, succs, v)->Some_0,
                },
                bbs[v].inst[j],
            ) == Some(t)
        }),
{
    phase_is_stable(s, bbs, succs, rets, soft);
    let t = phase(s, bbs, succs, rets, soft)->Some_0;
    let u = choose|u: Known| u.types == t.types && sweep(u, bbs, succs, rets, soft, 0) == Some(t);
    sweep_adds(u, bbs, succs, rets, soft, 0);
    assert(u.demands =~= t.demands);
    assert(u == t);
    sweep_settled(t, bbs, succs, rets, soft, 0, v, j);
}

} // verus!
