//! What the passes over the code have in common: how they are iterated and how
//! they fail.
use crate::reg::{ran_out, CodegenError, VREG_LIMIT};
use vstd::prelude::*;

verus! {

/// What one step of an iterated rewriting does.
#[verifier::reject_recursive_types(S)]
pub enum Step<S> {
    /// Nothing is left to do.
    Done,
    /// The rewriting goes on with the given state.
    Next(S),
    /// The state breaks what the rewriting relies on.
    Stuck,
}

/// The state after `k` steps, if each of them goes on.
pub open spec fn iterate<S>(step: spec_fn(S) -> Step<S>, s: S, k: nat) -> Option<S>
    decreases k,
{
    if k == 0 {
        Some(s)
    } else {
        match step(s) {
            Step::Next(n) => iterate(step, n, (k - 1) as nat),
            _ => None,
        }
    }
}

/// One more step.
pub proof fn iterate_more<S>(step: spec_fn(S) -> Step<S>, s: S, k: nat)
    requires
        iterate(step, s, k) is Some,
        step(iterate(step, s, k)->Some_0) is Next,
    ensures
        iterate(step, s, k + 1) == Some(step(iterate(step, s, k)->Some_0)->Next_0),
    decreases k,
{
    if k > 0 {
        iterate_more(step, step(s)->Next_0, (k - 1) as nat);
    } else {
        let n = step(s)->Next_0;
        assert(iterate(step, n, 0) == Some(n));
    }
}

/// `k` steps from `s` lead to `t`, where nothing is left to do.
pub open spec fn settles<S>(step: spec_fn(S) -> Step<S>, s: S, k: nat, t: S) -> bool {
    iterate(step, s, k) == Some(t) && step(t) is Done
}

/// The state in which the steps from `s` end, if they do.
pub open spec fn settled<S>(step: spec_fn(S) -> Step<S>, s: S) -> Option<S> {
    if exists|k: nat, t: S| settles(step, s, k, t) {
        let (k, t) = choose|k: nat, t: S| settles(step, s, k, t);
        Some(t)
    } else {
        None
    }
}

/// A rewriting ends in at most one state.
pub proof fn settled_is_unique<S>(step: spec_fn(S) -> Step<S>, s: S, k: nat, t: S)
    requires
        settles(step, s, k, t),
    ensures
        settled(step, s) == Some(t),
{
    let (k2, t2) = choose|k2: nat, t2: S| settles(step, s, k2, t2);
    settles_same(step, s, k, t, k2, t2);
}

proof fn settles_same<S>(step: spec_fn(S) -> Step<S>, s: S, k: nat, t: S, k2: nat, t2: S)
    requires
        settles(step, s, k, t),
        settles(step, s, k2, t2),
    ensures
        t == t2,
    decreases k,
{
    if k > 0 && k2 > 0 {
        let n = step(s)->Next_0;
        settles_same(step, n, (k - 1) as nat, t, (k2 - 1) as nat, t2);
    }
}

/// Where nothing is left to do, the state is the result.
pub proof fn settled_done<S>(step: spec_fn(S) -> Step<S>, s: S)
    requires
        step(s) is Done,
    ensures
        settled(step, s) == Some(s),
{
    assert(settles(step, s, 0, s));
    settled_is_unique(step, s, 0, s);
}

/// A step does not change where the rewriting ends.
pub proof fn settled_next<S>(step: spec_fn(S) -> Step<S>, s: S)
    requires
        step(s) is Next,
    ensures
        settled(step, s) == settled(step, step(s)->Next_0),
{
    let n = step(s)->Next_0;
    if exists|k: nat, t: S| settles(step, n, k, t) {
        let (k, t) = choose|k: nat, t: S| settles(step, n, k, t);
        assert(settles(step, s, k + 1, t));
        settled_is_unique(step, s, k + 1, t);
        settled_is_unique(step, n, k, t);
    } else if exists|k: nat, t: S| settles(step, s, k, t) {
        let (k, t) = choose|k: nat, t: S| settles(step, s, k, t);
        assert(k > 0);
        assert(settles(step, n, (k - 1) as nat, t));
    }
}

/// A stuck rewriting has no result.
pub proof fn settled_stuck<S>(step: spec_fn(S) -> Step<S>, s: S)
    requires
        step(s) is Stuck,
    ensures
        settled(step, s) is None,
{
    if exists|k: nat, t: S| settles(step, s, k, t) {
        let (k, t) = choose|k: nat, t: S| settles(step, s, k, t);
        assert(iterate(step, s, k) == Some(t));
        assert(k > 0 || step(t) is Done);
    }
}

/// A property that every step keeps holds of the result.
pub proof fn settled_keeps<S>(
    step: spec_fn(S) -> Step<S>,
    s: S,
    p: spec_fn(S) -> bool,
)
    requires
        p(s),
        forall|x: S| #[trigger] p(x) && step(x) is Next ==> p(step(x)->Next_0),
        settled(step, s) is Some,
    ensures
        p(settled(step, s)->Some_0),
        step(settled(step, s)->Some_0) is Done,
{
    let (k, t) = choose|k: nat, t: S| settles(step, s, k, t);
    iterate_keeps(step, s, p, k);
}

proof fn iterate_keeps<S>(step: spec_fn(S) -> Step<S>, s: S, p: spec_fn(S) -> bool, k: nat)
    requires
        p(s),
        forall|x: S| #[trigger] p(x) && step(x) is Next ==> p(step(x)->Next_0),
        iterate(step, s, k) is Some,
    ensures
        p(iterate(step, s, k)->Some_0),
    decreases k,
{
    if k > 0 {
        iterate_keeps(step, step(s)->Next_0, p, (k - 1) as nat);
    }
}

/// How a pass refuses its input. The input's result is `None` where it breaks
/// what the pass relies on, and otherwise comes with the index of the next
/// register, which may be more than there are. Code is too large only once no
/// register is left: the next index, `left`, is the limit.
pub open spec fn refused<T>(result: Option<(T, int)>, e: CodegenError, left: u32) -> bool {
    match result {
        None => e is Malformed || ran_out(e, left),
        Some((_, next)) => next > VREG_LIMIT && ran_out(e, left),
    }
}

} // verus!
