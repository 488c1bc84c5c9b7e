//! Alternation of setting references and widening jumps.
use crate::bb::BBView;
use crate::cfg::{all_rewritten, rewritten_from, rewritten_keeps_blocks, BlockPass, VCodeCFG};
use crate::layout::Shape;
use crate::pass::{
    iterate, iterate_more, refused, settled, settled_done, settled_keeps, settled_next, settled_stuck, Step,
};
use crate::passes::branches::laid_out;
use crate::passes::distances::{
    insert_ref_distances, references_keep_chains, InsertRefDistances,
};
use crate::passes::far_jumps::{
    all_small_chains, all_small_cons, blocks_progress, code_too_long, starts, widen_far_jumps, widened,
};
use crate::reg::{CodegenError, VRegAllocator, VREG_LIMIT};
use vstd::prelude::*;

verus! {

/// The blocks, the index of the next register, and whether the jumps are settled.
pub type State = (Seq<BBView>, int, bool);

/// One round: references are set, then jumps are widened. The jumps are settled
/// where no jump is.
pub open spec fn settle_step(s: State, succs: Map<usize, Seq<usize>>, root: usize) -> Step<State> {
    if s.2 {
        Step::Done
    } else {
        match all_rewritten(InsertRefDistances, s.0, s.1) {
            None => Step::Stuck,
            Some((b1, n1)) => match widened(Shape { bbs: b1, succs, root }, n1) {
                None => Step::Stuck,
                Some((b2, n2)) => Step::Next((b2, n2, b2 == b1)),
            },
        }
    }
}

/// The rounds as a function.
pub open spec fn settle_steps(succs: Map<usize, Seq<usize>>, root: usize) -> spec_fn(State) -> Step<
    State,
> {
    |s: State| settle_step(s, succs, root)
}

/// The blocks with settled jumps, and the index of the next register.
pub open spec fn jumps_settled(g: Shape, next: int) -> Option<(Seq<BBView>, int)> {
    match settled(settle_steps(g.succs, g.root), (g.bbs, next, false)) {
        Some((b, n, _)) => Some((b, n)),
        None => None,
    }
}

/// Whether in a round, once its references are set, the code is too long.
pub open spec fn round_too_long(s: State, succs: Map<usize, Seq<usize>>, root: usize) -> bool {
    !s.2 && (all_rewritten(InsertRefDistances, s.0, s.1) matches Some((b1, _)) && code_too_long(
        Shape { bbs: b1, succs, root },
    ))
}

/// Whether the code gets too long while the jumps are settled.
pub open spec fn code_runs_out(g: Shape, next: int) -> bool {
    exists|k: nat|
        (#[trigger] iterate(settle_steps(g.succs, g.root), (g.bbs, next, false), k)) matches Some(s)
            && round_too_long(s, g.succs, g.root)
}

proof fn references_keep_all_chains(bbs: Seq<BBView>, v: int, next: int)
    requires
        0 <= v <= bbs.len(),
    ensures
        rewritten_from(InsertRefDistances, bbs, v, next) matches Some((r, n)) ==> n >= next && (n
            > next || all_small_chains(r, r.len() as int) + all_small_chains(bbs, v)
            == all_small_chains(bbs, bbs.len() as int)),
    decreases bbs.len() - v,
{
    rewritten_keeps_blocks(InsertRefDistances, bbs, v, next);
    if v < bbs.len() {
        references_keep_chains(bbs[v], next);
        if let Some((b, n)) = InsertRefDistances.rewritten(v, bbs[v], next) {
            rewritten_keeps_blocks(InsertRefDistances, bbs, v + 1, n);
            InsertRefDistances.grows(v, bbs[v], next);
            references_keep_all_chains(bbs, v + 1, n);
            if let Some((rest, m)) = rewritten_from(InsertRefDistances, bbs, v + 1, n) {
                all_small_cons(b, rest, rest.len() as int);
            }
        }
    }
}

/// Widening takes registers or widens chains, unless it leaves everything as it
/// was.
pub proof fn widening_progresses(g: Shape, next: int)
    ensures
        widened(g, next) matches Some((b, n)) ==> {
            &&& n >= next
            &&& b == g.bbs ==> n == next
            &&& n > next || b == g.bbs || all_small_chains(b, b.len() as int) < all_small_chains(
                g.bbs,
                g.bbs.len() as int,
            )
        },
{
    if let Some(layout) = g.layout() {
        if let Some(addrs) = starts(g.bbs, layout) {
            blocks_progress(g.bbs, laid_out(g.bbs, layout), addrs, 0, next);
            assert(g.bbs.skip(0) =~= g.bbs);
        }
    }
}

/// A round takes registers only.
proof fn round_grows(s: State, succs: Map<usize, Seq<usize>>, root: usize)
    ensures
        settle_step(s, succs, root) matches Step::Next((_, n, _)) ==> n >= s.1,
{
    rewritten_keeps_blocks(InsertRefDistances, s.0, 0, s.1);
    if let Some((b1, n1)) = all_rewritten(InsertRefDistances, s.0, s.1) {
        widening_progresses(Shape { bbs: b1, succs, root }, n1);
    }
}

/// Settling jumps takes registers and hands none back.
pub proof fn rounds_grow(s: State, succs: Map<usize, Seq<usize>>, root: usize)
    ensures
        settled(settle_steps(succs, root), s) matches Some((_, n, _)) ==> n >= s.1,
{
    if settled(settle_steps(succs, root), s) is Some {
        let keeps = |x: State| x.1 >= s.1;
        assert forall|x: State|
            #[trigger] keeps(x) && settle_steps(succs, root)(x) is Next implies keeps(
            settle_steps(succs, root)(x)->Next_0,
        ) by {
            round_grows(x, succs, root);
        }
        settled_keeps(settle_steps(succs, root), s, keeps);
    }
}

/// Sets the references and widens the jumps until no jump needs widening.
///
/// Widening a jump inserts instructions, which changes the reference distances
/// and can push other jumps out of range. A jump is only ever widened, never
/// shortened.
pub fn settle_jumps(given: VCodeCFG, vregs: &mut VRegAllocator) -> (r: Result<
    VCodeCFG,
    CodegenError,
>)
    requires
        old(vregs).wf(),
        given.wf(),
    ensures
        final(vregs).wf(),
        ({
            let whole = jumps_settled(given.shape(), old(vregs).next as int);
            match r {
                Ok(c) => {
                    &&& c.wf()
                    &&& c.graph == given.graph
                    &&& c.root == given.root
                    &&& whole == Some((c.bbs(), final(vregs).next as int))
                },
                Err(e) => {
                    ||| refused(whole, e, final(vregs).next)
                    ||| whole is None && e is CodeTooLarge && code_runs_out(
                        given.shape(),
                        old(vregs).next as int,
                    )
                },
            }
        }),
{
    let ghost succs = given.succs();
    let ghost root = given.root;
    let ghost steps = settle_steps(succs, root);
    let ghost start = (given.bbs(), vregs.next as int, false);
    let ghost mut k: nat = 0;
    let mut cfg = given;
    loop
        invariant
            iterate(steps, start, k) == Some((cfg.bbs(), vregs.next as int, false)),
            cfg.wf(),
            vregs.wf(),
            cfg.graph == given.graph,
            cfg.root == given.root,
            succs == given.succs(),
            root == given.root,
            steps == settle_steps(succs, root),
            start == (given.bbs(), old(vregs).next as int, false),
            settled(steps, start) == settled(steps, (cfg.bbs(), vregs.next as int, false)),
        decreases VREG_LIMIT - vregs.next, all_small_chains(cfg.bbs(), cfg.bbs().len() as int),
    {
        let ghost s = (cfg.bbs(), vregs.next as int, false);
        proof {
            references_keep_all_chains(s.0, 0, s.1);
            rewritten_keeps_blocks(InsertRefDistances, s.0, 0, s.1);
            if let Some((b1, n1)) = all_rewritten(InsertRefDistances, s.0, s.1) {
                widening_progresses(Shape { bbs: b1, succs, root }, n1);
            }
            match steps(s) {
                Step::Next(t) => {
                    settled_next(steps, s);
                    rounds_grow(t, succs, root);
                },
                Step::Stuck => {
                    settled_stuck(steps, s);
                },
                Step::Done => {},
            }
        }
        let mid = match insert_ref_distances(cfg, vregs) {
            Ok(c) => c,
            Err(e) => {
                return Err(e);
            },
        };
        proof {
            if round_too_long(s, succs, root) {
                assert(code_runs_out(given.shape(), start.1));
            }
        }
        match widen_far_jumps(mid, vregs) {
            Ok((c, changed)) => {
                proof {
                    iterate_more(steps, start, k);
                    k = k + 1;
                }
                cfg = c;
                if !changed {
                    proof {
                        settled_done(steps, (cfg.bbs(), vregs.next as int, true));
                    }
                    return Ok(cfg);
                }
            },
            Err(e) => {
                return Err(e);
            },
        }
    }
}

/// Settled jumps are jumps that widening leaves as they are.
pub proof fn settled_jumps_need_no_widening(g: Shape, next: int)
    requires
        jumps_settled(g, next) is Some,
    ensures
        ({
            let (b, n) = jumps_settled(g, next)->Some_0;
            widened(Shape { bbs: b, ..g }, n) == Some((b, n))
        }),
{
    let steps = settle_steps(g.succs, g.root);
    let keeps = |x: State|
        x.2 ==> widened(Shape { bbs: x.0, ..g }, x.1) == Some((x.0, x.1));
    assert forall|x: State| #[trigger] keeps(x) && steps(x) is Next implies keeps(
        steps(x)->Next_0,
    ) by {
        let y = steps(x)->Next_0;
        if y.2 {
            let (b1, n1) = all_rewritten(InsertRefDistances, x.0, x.1)->Some_0;
            widening_progresses(Shape { bbs: b1, succs: g.succs, root: g.root }, n1);
            assert(Shape { bbs: b1, succs: g.succs, root: g.root } == Shape { bbs: y.0, ..g });
            assert(n1 == y.1);
        }
    }
    settled_keeps(steps, (g.bbs, next, false), keeps);
    let t = settled(steps, (g.bbs, next, false))->Some_0;
    assert(keeps(t) && t.2);
}

} // verus!
