//! Frames are reserved once and freed before every return.
use crate::bb::{first_from_is_least, BBView};
use crate::cfg::{all_rewritten, rewritten_from, rewritten_keeps_blocks, BlockPass};
use crate::inst::{MInstOf, MInstView};
use crate::passes::frame::{
    adjustments, adjustments_sum_to_amount, amounts, body_start, first_ret, total_of, FrameLimits,
};
use vstd::arithmetic::power2::pow2;
use vstd::prelude::*;

verus! {

/// The number of bytes that the stack adjustments of one kind among the
/// instructions reserve or free.
pub open spec fn adjusted(insts: Seq<MInstView>, reserve: bool, private: bool) -> int
    decreases insts.len(),
{
    if insts.len() == 0 {
        0
    } else {
        adjusted(insts.drop_last(), reserve, private) + (match insts.last() {
            MInstOf::StackAdjust { reserve: r, private: p, amount_pow2 } => if r == reserve && p
                == private {
                pow2(amount_pow2 as nat) as int
            } else {
                0
            },
            _ => 0,
        })
    }
}

/// Whether all instructions are stack adjustments of one kind, of an amount in
/// total.
pub open spec fn adjusts(insts: Seq<MInstView>, reserve: bool, private: bool, amount: int) -> bool {
    &&& forall|k: int|
        0 <= k < insts.len() ==> {
            &&& #[trigger] insts[k] is StackAdjust
            &&& insts[k]->StackAdjust_reserve == reserve
            &&& insts[k]->StackAdjust_private == private
        }
    &&& adjusted(insts, reserve, private) == amount
}

/// Whether `free` frees an amount where `at` is a position of the instructions,
/// and is empty where it is their end.
pub open spec fn frees_at(
    free: Seq<MInstView>,
    insts: Seq<MInstView>,
    at: int,
    amount: int,
) -> bool {
    if at < insts.len() {
        adjusts(free, false, false, amount)
    } else {
        free.len() == 0
    }
}

/// Whether `at` is the position of the first return.
pub open spec fn returns_first_at(insts: Seq<MInstView>, at: int) -> bool {
    &&& 0 <= at < insts.len()
    &&& insts[at] is Ret
    &&& forall|k: int| 0 <= k < at ==> !(#[trigger] insts[k] is Ret)
}

/// Whether nothing returns.
pub open spec fn returns_nowhere(insts: Seq<MInstView>) -> bool {
    forall|k: int| 0 <= k < insts.len() ==> !(#[trigger] insts[k] is Ret)
}

/// Whether the parameters are received by exactly the instructions before `at`.
pub open spec fn receives_until(insts: Seq<MInstView>, at: int) -> bool {
    &&& 0 <= at <= insts.len()
    &&& forall|k: int|
        0 <= k < at ==> (#[trigger] insts[k] is Args || insts[k] is Echo || insts[k] is Discard)
    &&& at < insts.len() ==> !(insts[at] is Args || insts[at] is Echo || insts[at] is Discard)
}

/// Amounts of joined lists add up.
pub proof fn adjusted_add(a: Seq<MInstView>, b: Seq<MInstView>, reserve: bool, private: bool)
    ensures
        adjusted(a + b, reserve, private) == adjusted(a, reserve, private) + adjusted(
            b,
            reserve,
            private,
        ),
    decreases b.len(),
{
    if b.len() == 0 {
        assert(a + b =~= a);
    } else {
        assert((a + b).drop_last() =~= a + b.drop_last());
        adjusted_add(a, b.drop_last(), reserve, private);
    }
}

proof fn adjusted_total(ks: Seq<u16>, reserve: bool, private: bool)
    ensures
        adjusted(
            Seq::new(
                ks.len(),
                |i: int| MInstOf::StackAdjust { reserve, private, amount_pow2: ks[i] },
            ),
            reserve,
            private,
        ) == total_of(ks),
    decreases ks.len(),
{
    let all: Seq<MInstView> = Seq::new(
        ks.len(),
        |i: int| MInstOf::StackAdjust { reserve, private, amount_pow2: ks[i] },
    );
    if ks.len() > 0 {
        let tail: Seq<MInstView> = Seq::new(
            ks.skip(1).len(),
            |i: int| MInstOf::StackAdjust { reserve, private, amount_pow2: ks.skip(1)[i] },
        );
        let first: Seq<MInstView> = seq![
            MInstOf::StackAdjust { reserve, private, amount_pow2: ks[0] },
        ];
        assert(all =~= first + tail);
        adjusted_add(first, tail, reserve, private);
        adjusted_total(ks.skip(1), reserve, private);
        assert(first.drop_last() =~= Seq::<MInstView>::empty());
        assert(adjusted(first.drop_last(), reserve, private) == 0);
        assert(adjusted(first, reserve, private) == pow2(ks[0] as nat));
    }
}

/// The adjustments of an amount adjust exactly that.
pub proof fn adjustments_adjust(amount: int, reserve: bool, private: bool)
    requires
        0 <= amount < 65536,
    ensures
        adjusts(adjustments(amount, reserve, private), reserve, private, amount),
{
    adjustments_sum_to_amount(amount);
    adjusted_total(amounts(amount, 0), reserve, private);
    let ks = amounts(amount, 0);
    assert(adjustments(amount, reserve, private) =~= Seq::new(
        ks.len(),
        |i: int| MInstOf::StackAdjust { reserve, private, amount_pow2: ks[i] },
    ));
}

proof fn limited_block(pass: FrameLimits, bbs: Seq<BBView>, v: int, next: int, i: int)
    requires
        0 <= v <= i < bbs.len(),
        rewritten_from(pass, bbs, v, next) is Some,
    ensures
        rewritten_from(pass, bbs, v, next)->Some_0.0.len() == bbs.len() - v,
        pass.rewritten(i, bbs[i], 0) is Some,
        rewritten_from(pass, bbs, v, next)->Some_0.0[i - v] == pass.rewritten(
            i,
            bbs[i],
            0,
        )->Some_0.0,
    decreases bbs.len() - v,
{
    rewritten_keeps_blocks(pass, bbs, v, next);
    let (b, n) = pass.rewritten(v, bbs[v], next)->Some_0;
    let rest = rewritten_from(pass, bbs, v + 1, n)->Some_0.0;
    assert(rewritten_from(pass, bbs, v, next)->Some_0.0 == seq![b] + rest);
    if i > v {
        limited_block(pass, bbs, v + 1, n, i);
        assert((seq![b] + rest)[i - v] == rest[i - (v + 1)]);
    }
}

proof fn first_ret_is(insts: Seq<MInstView>, at: int)
    requires
        returns_first_at(insts, at),
    ensures
        first_ret(insts) == at,
{
    let p = |i: int| insts[i] is Ret;
    first_from_is_least(p, 0, insts.len() as int);
    let f = first_ret(insts);
    if f < at {
        assert(p(f));
        assert(!(insts[f] is Ret));
    } else if f > at {
        assert(!p(at));
    }
}

proof fn first_ret_is_none(insts: Seq<MInstView>)
    requires
        returns_nowhere(insts),
    ensures
        first_ret(insts) == insts.len(),
{
    let p = |i: int| insts[i] is Ret;
    first_from_is_least(p, 0, insts.len() as int);
    let f = first_ret(insts);
    if f < insts.len() {
        assert(p(f));
        assert(insts[f] is Ret);
    }
}

proof fn body_start_is(insts: Seq<MInstView>, at: int)
    requires
        receives_until(insts, at),
    ensures
        body_start(insts) == at,
{
    let p = |i: int| !crate::passes::frame::receives_params(insts[i]);
    first_from_is_least(p, 0, insts.len() as int);
    let f = body_start(insts);
    if f < at {
        assert(p(f));
        assert(insts[f] is Args || insts[f] is Echo || insts[f] is Discard);
    } else if f > at {
        assert(!p(at));
    }
}

/// A block that returns frees the whole frame directly before its first return,
/// wherever it stands; nothing else of a block other than the entry changes.
pub proof fn returns_free_the_frame(
    root: usize,
    frame: u32,
    bbs: Seq<BBView>,
    next: int,
    v: int,
    at: int,
)
    requires
        0 < frame < 65536,
        0 <= v < bbs.len(),
        v != root,
        returns_first_at(bbs[v].inst, at),
    ensures
        all_rewritten(FrameLimits { root, frame }, bbs, next) matches Some((after, _)) ==> {
            &&& after.len() == bbs.len()
            &&& after[v] == (BBView { inst: after[v].inst, ..bbs[v] })
            &&& exists|free: Seq<MInstView>|
                {
                    &&& #[trigger] adjusts(free, false, false, frame as int)
                    &&& after[v].inst == bbs[v].inst.take(at) + free + bbs[v].inst.skip(at)
                }
        },
{
    let pass = FrameLimits { root, frame };
    if all_rewritten(pass, bbs, next) is Some {
        limited_block(pass, bbs, 0, next, v);
        first_ret_is(bbs[v].inst, at);
        adjustments_adjust(frame as int, false, false);
    }
}

/// A block other than the entry that does not return stays as it is.
pub proof fn blocks_without_returns_keep_their_frame(
    root: usize,
    frame: u32,
    bbs: Seq<BBView>,
    next: int,
    v: int,
)
    requires
        0 < frame < 65536,
        0 <= v < bbs.len(),
        v != root,
        returns_nowhere(bbs[v].inst),
    ensures
        all_rewritten(FrameLimits { root, frame }, bbs, next) matches Some((after, _)) ==> after.len()
            == bbs.len() && after[v] == bbs[v],
{
    let pass = FrameLimits { root, frame };
    if all_rewritten(pass, bbs, next) is Some {
        limited_block(pass, bbs, 0, next, v);
        first_ret_is_none(bbs[v].inst);
    }
}

/// The entry reserves the whole frame directly behind the reception of its
/// parameters, and frees it directly before its first return, if it returns.
pub proof fn the_entry_reserves_the_frame(
    root: usize,
    frame: u32,
    bbs: Seq<BBView>,
    next: int,
    start: int,
    at: int,
)
    requires
        0 < frame < 65536,
        root < bbs.len(),
        receives_until(bbs[root as int].inst, start),
        returns_first_at(bbs[root as int].inst, at) || (returns_nowhere(bbs[root as int].inst)
            && at == bbs[root as int].inst.len()),
    ensures
        start <= at,
        all_rewritten(FrameLimits { root, frame }, bbs, next) matches Some((after, _)) ==> {
            let old_insts = bbs[root as int].inst;
            &&& after.len() == bbs.len()
            &&& after[root as int] == (BBView { inst: after[root as int].inst, ..bbs[root as int] })
            &&& exists|reserve: Seq<MInstView>, free: Seq<MInstView>|
                {
                    &&& #[trigger] adjusts(reserve, true, true, frame as int)
                    &&& #[trigger] frees_at(free, old_insts, at, frame as int)
                    &&& after[root as int].inst == old_insts.take(start) + reserve
                        + old_insts.subrange(start, at) + free + old_insts.skip(at)
                }
        },
{
    let pass = FrameLimits { root, frame };
    let insts = bbs[root as int].inst;
    if at < start {
        assert(insts[at] is Args || insts[at] is Echo || insts[at] is Discard);
    }
    if all_rewritten(pass, bbs, next) is Some {
        limited_block(pass, bbs, 0, next, root as int);
        body_start_is(insts, start);
        adjustments_adjust(frame as int, true, true);
        adjustments_adjust(frame as int, false, false);
        let new = adjustments(frame as int, true, true);
        let with = insts.take(start) + new + insts.skip(start);
        assert(adjusts(new, true, true, frame as int));
        if at < insts.len() {
            let free = adjustments(frame as int, false, false);
            assert(returns_first_at(with, at + new.len())) by {
                assert(with[at + new.len()] == insts[at]);
                assert forall|k: int| 0 <= k < at + new.len() implies !(#[trigger] with[k] is Ret) by {
                    if k < start {
                        assert(with[k] == insts[k]);
                    } else if k < start + new.len() {
                        assert(with[k] == new[k - start]);
                    } else {
                        assert(with[k] == insts[k - new.len()]);
                    }
                }
            }
            first_ret_is(with, at + new.len());
            assert(with.take(at + new.len()) + free + with.skip(at + new.len()) =~= insts.take(start)
                + new + insts.subrange(start, at) + free + insts.skip(at));
            assert(frees_at(free, insts, at, frame as int));
        } else {
            let free = Seq::<MInstView>::empty();
            assert(returns_nowhere(with)) by {
                assert forall|k: int| 0 <= k < with.len() implies !(#[trigger] with[k] is Ret) by {
                    if k < start {
                        assert(with[k] == insts[k]);
                    } else if k < start + new.len() {
                        assert(with[k] == new[k - start]);
                    } else {
                        assert(with[k] == insts[k - new.len()]);
                    }
                }
            }
            first_ret_is_none(with);
            assert(with =~= insts.take(start) + new + insts.subrange(start, at) + free + insts.skip(
                at,
            ));
            assert(frees_at(free, insts, at, frame as int));
        }
    }
}

/// What a block reserves and frees grows by exactly the frame where the entry
/// starts and where a block returns: on every path from the entry to a return as
/// much is freed as was reserved.
pub proof fn reserved_and_freed_amounts_are_equal(
    root: usize,
    frame: u32,
    bbs: Seq<BBView>,
    next: int,
    v: int,
)
    requires
        0 < frame < 65536,
        0 <= v < bbs.len(),
    ensures
        all_rewritten(FrameLimits { root, frame }, bbs, next) matches Some((after, _)) ==> {
            &&& adjusted(after[v].inst, true, true) == adjusted(bbs[v].inst, true, true) + (if v
                == root {
                frame as int
            } else {
                0
            })
            &&& adjusted(after[v].inst, false, false) == adjusted(bbs[v].inst, false, false) + (
            if returns_nowhere(bbs[v].inst) {
                0
            } else {
                frame as int
            })
        },
{
    let pass = FrameLimits { root, frame };
    let insts = bbs[v].inst;
    if all_rewritten(pass, bbs, next) is Some {
        let after = all_rewritten(pass, bbs, next)->Some_0.0[v].inst;
        limited_block(pass, bbs, 0, next, v);
        let n = frame as int;
        let res = if v == root {
            adjustments(n, true, true)
        } else {
            Seq::empty()
        };
        let start = if v == root {
            body_start(insts)
        } else {
            0
        };
        first_from_is_least(
            |i: int| !crate::passes::frame::receives_params(insts[i]),
            0,
            insts.len() as int,
        );
        let with = insts.take(start) + res + insts.skip(start);
        if v != root {
            assert(with =~= insts);
        }
        let at = first_ret(with);
        let p = |i: int| with[i] is Ret;
        first_from_is_least(p, 0, with.len() as int);
        adjustments_adjust(n, true, true);
        adjustments_adjust(n, false, false);
        none_of_kind(adjustments(n, true, true), true, true, false, false);
        none_of_kind(adjustments(n, false, false), false, false, true, true);
        split_amounts(insts, start, res, true, true);
        split_amounts(insts, start, res, false, false);
        if at < with.len() {
            assert(p(at));
            assert(!returns_nowhere(insts)) by {
                if at < start {
                    assert(with[at] == insts[at]);
                } else if at < start + res.len() {
                    assert(with[at] == res[at - start]);
                } else {
                    assert(with[at] == insts[at - res.len()]);
                }
            }
            split_amounts(with, at, adjustments(n, false, false), true, true);
            split_amounts(with, at, adjustments(n, false, false), false, false);
        } else {
            assert(returns_nowhere(insts)) by {
                assert forall|k: int| 0 <= k < insts.len() implies !(#[trigger] insts[k] is Ret) by {
                    let j = if k < start {
                        k
                    } else {
                        k + res.len()
                    };
                    assert(with[j] == insts[k]);
                    assert(!p(j));
                }
            }
        }
    }
}

proof fn none_of_kind(insts: Seq<MInstView>, reserve: bool, private: bool, r: bool, p: bool)
    requires
        r != reserve,
        forall|k: int|
            0 <= k < insts.len() ==> {
                &&& #[trigger] insts[k] is StackAdjust
                &&& insts[k]->StackAdjust_reserve == reserve
                &&& insts[k]->StackAdjust_private == private
            },
    ensures
        adjusted(insts, r, p) == 0,
    decreases insts.len(),
{
    if insts.len() > 0 {
        none_of_kind(insts.drop_last(), reserve, private, r, p);
        assert(insts.last() == insts[insts.len() - 1]);
    }
}

proof fn split_amounts(
    insts: Seq<MInstView>,
    at: int,
    new: Seq<MInstView>,
    reserve: bool,
    private: bool,
)
    requires
        0 <= at <= insts.len(),
    ensures
        adjusted(insts.take(at) + new + insts.skip(at), reserve, private) == adjusted(
            insts,
            reserve,
            private,
        ) + adjusted(new, reserve, private),
{
    adjusted_add(insts.take(at), new, reserve, private);
    adjusted_add(insts.take(at) + new, insts.skip(at), reserve, private);
    adjusted_add(insts.take(at), insts.skip(at), reserve, private);
    assert(insts.take(at) + insts.skip(at) =~= insts);
}

proof fn limits_fit(pass: FrameLimits, bbs: Seq<BBView>, v: int, next: int)
    requires
        pass.frame < 65536,
        0 <= v <= bbs.len(),
    ensures
        rewritten_from(pass, bbs, v, next) is Some,
        rewritten_from(pass, bbs, v, next)->Some_0.1 == next,
    decreases bbs.len() - v,
{
    if v < bbs.len() {
        limits_fit(pass, bbs, v + 1, next);
    }
}

/// A frame of fewer than 65536 bytes is always reserved and freed, without further
/// registers; an empty one changes nothing; a larger one is refused.
pub proof fn frames_are_limited_where_they_fit(
    root: usize,
    frame: u32,
    bbs: Seq<BBView>,
    next: int,
)
    requires
        0 < bbs.len(),
    ensures
        frame < pow2(16) <==> all_rewritten(FrameLimits { root, frame }, bbs, next) is Some,
        all_rewritten(FrameLimits { root, frame }, bbs, next) matches Some((after, n)) ==> n == next,
        frame == 0 ==> all_rewritten(FrameLimits { root, frame }, bbs, next) == Some((bbs, next)),
{
    vstd::arithmetic::power2::lemma2_to64();
    let pass = FrameLimits { root, frame };
    if frame < 65536 {
        limits_fit(pass, bbs, 0, next);
        let after = all_rewritten(pass, bbs, next)->Some_0.0;
        rewritten_keeps_blocks(pass, bbs, 0, next);
        if frame == 0 {
            assert forall|i: int| 0 <= i < bbs.len() implies #[trigger] after[i] == bbs[i] by {
                limited_block(pass, bbs, 0, next, i);
            }
            assert(after =~= bbs);
        }
    }
}

} // verus!
