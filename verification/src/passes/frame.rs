//! Reservation and release of stack frames.
use crate::bb::{first_from, replace_range, BBView, VCodeBB};
use crate::cfg::{all_rewritten, run_pass, BlockPass, VCodeCFG};
use crate::inst::{views, MInst, MInstOf, MInstView};
use crate::pass::refused;
use crate::reg::{CodegenError, VRegAllocator};
use vstd::prelude::*;

verus! {

broadcast use {crate::inst::views_push, crate::inst::views_add};

/// The powers of two, from the `k`th on and below the sixteenth, that an amount
/// shifted right by `k` is the sum of, the smallest first.
pub open spec fn amounts(rest: int, k: int) -> Seq<u16>
    decreases 16 - k,
{
    if k >= 16 {
        Seq::empty()
    } else if rest % 2 == 1 {
        seq![k as u16] + amounts(rest / 2, k + 1)
    } else {
        amounts(rest / 2, k + 1)
    }
}

/// The instructions that reserve or free an amount: one per power of two.
pub open spec fn adjustments(amount: int, reserve: bool, private: bool) -> Seq<MInstView> {
    let ks = amounts(amount, 0);
    Seq::new(ks.len(), |i: int| MInstOf::StackAdjust { reserve, private, amount_pow2: ks[i] })
}

/// The sum of the powers of two.
pub open spec fn total_of(ks: Seq<u16>) -> int
    decreases ks.len(),
{
    if ks.len() == 0 {
        0
    } else {
        vstd::arithmetic::power2::pow2(ks[0] as nat) + total_of(ks.skip(1))
    }
}

proof fn amounts_total(rest: int, k: int)
    requires
        0 <= k <= 16,
        0 <= rest < vstd::arithmetic::power2::pow2((16 - k) as nat),
    ensures
        total_of(amounts(rest, k)) == rest * vstd::arithmetic::power2::pow2(k as nat),
    decreases 16 - k,
{
    broadcast use vstd::arithmetic::power2::lemma_pow2_unfold;

    vstd::arithmetic::power2::lemma2_to64();
    if k < 16 {
        vstd::arithmetic::power2::lemma_pow2_unfold((16 - k) as nat);
        amounts_total(rest / 2, k + 1);
        let p = vstd::arithmetic::power2::pow2(k as nat) as int;
        vstd::arithmetic::power2::lemma_pow2_unfold((k + 1) as nat);
        assert(vstd::arithmetic::power2::pow2((k + 1) as nat) == 2 * p);
        assert((rest / 2) * (2 * p) == 2 * (rest / 2) * p) by (nonlinear_arith);
        if rest % 2 == 1 {
            assert(amounts(rest, k).skip(1) =~= amounts(rest / 2, k + 1));
            assert((2 * (rest / 2) + 1) * p == 2 * (rest / 2) * p + p) by (nonlinear_arith);
            assert(rest == 2 * (rest / 2) + 1);
        } else {
            assert(rest == 2 * (rest / 2));
        }
    } else {
        assert(rest == 0);
    }
}

/// The reserved, or freed, powers of two sum up to the amount.
pub proof fn adjustments_sum_to_amount(amount: int)
    requires
        0 <= amount < 65536,
    ensures
        total_of(amounts(amount, 0)) == amount,
{
    vstd::arithmetic::power2::lemma2_to64();
    amounts_total(amount, 0);
    let one = vstd::arithmetic::power2::pow2(0) as int;
    assert(amount * one == amount) by (nonlinear_arith)
        requires
            one == 1,
    ;
}

/// The instructions that reserve or free an amount.
pub fn adjust_chunks(amount: u32, reserve: bool, private: bool) -> (r: Vec<MInst>)
    ensures
        views(r@) == adjustments(amount as int, reserve, private),
{
    let ghost ks = amounts(amount as int, 0);
    let ghost whole = adjustments(amount as int, reserve, private);
    let mut r: Vec<MInst> = Vec::new();
    let mut rest: u32 = amount;
    for k in 0..16u16
        invariant
            ks == amounts(amount as int, 0),
            whole == adjustments(amount as int, reserve, private),
            ks.len() == whole.len(),
            r@.len() <= ks.len(),
            ks.skip(r@.len() as int) == amounts(rest as int, k as int),
            views(r@) == whole.take(r@.len() as int),
    {
        broadcast use crate::inst::views_push;

        let ghost n = r@.len() as int;
        if rest % 2 == 1 {
            assert(ks.skip(n)[0] == k);
            r.push(MInst::StackAdjust { reserve, private, amount_pow2: k });
            assert(ks.skip(n + 1) =~= ks.skip(n).skip(1));
            assert(amounts(rest as int, k as int).skip(1) =~= amounts(rest as int / 2, k + 1));
            assert(views(r@) =~= whole.take(n + 1));
        }
        rest = rest / 2;
    }
    assert(ks.skip(r@.len() as int).len() == 0);
    assert(views(r@) =~= whole);
    r
}

/// The instructions with others inserted.
pub open spec fn spliced(insts: Seq<MInstView>, at: int, new: Seq<MInstView>) -> Seq<MInstView> {
    insts.take(at) + new + insts.skip(at)
}

/// Inserts instructions.
pub fn splice(insts: &Vec<MInst>, at: usize, new: Vec<MInst>) -> (r: Vec<MInst>)
    requires
        at <= insts@.len(),
    ensures
        views(r@) == spliced(views(insts@), at as int, views(new@)),
{
    replace_range(insts, at, at, new)
}

/// Whether an instruction is part of the reception of parameters.
pub open spec fn receives_params(inst: MInstView) -> bool {
    inst is Args || inst is Echo || inst is Discard
}

/// The first position behind the reception of parameters.
pub open spec fn body_start(insts: Seq<MInstView>) -> int {
    first_from(|i: int| !receives_params(insts[i]), 0, insts.len() as int)
}

/// The position of the first return issue.
pub open spec fn first_ret(insts: Seq<MInstView>) -> int {
    first_from(|i: int| insts[i] is Ret, 0, insts.len() as int)
}

/// The entry block's instructions with the frame reserved.
pub open spec fn reserved(insts: Seq<MInstView>, frame: int) -> Seq<MInstView> {
    spliced(insts, body_start(insts), adjustments(frame, true, true))
}

/// A block's instructions with the frame freed before the return.
pub open spec fn freed(insts: Seq<MInstView>, frame: int) -> Seq<MInstView> {
    if first_ret(insts) < insts.len() {
        spliced(insts, first_ret(insts), adjustments(frame, false, false))
    } else {
        insts
    }
}

/// Reserves and frees the frame.
pub struct FrameLimits {
    /// The position of the entry block.
    pub root: usize,
    /// The size of the frame.
    pub frame: u32,
}

impl BlockPass for FrameLimits {
    open spec fn ready(&self) -> bool {
        true
    }

    open spec fn rewritten(&self, v: int, bb: BBView, next: int) -> Option<(BBView, int)> {
        if self.frame == 0 {
            Some((bb, next))
        } else if self.frame >= 65536 {
            None
        } else {
            let inst = if v == self.root {
                reserved(bb.inst, self.frame as int)
            } else {
                bb.inst
            };
            Some((BBView { inst: freed(inst, self.frame as int), ..bb }, next))
        }
    }

    proof fn grows(&self, v: int, bb: BBView, next: int) {
    }

    fn run(&self, v: usize, bb: &VCodeBB, vregs: &mut VRegAllocator) -> Result<
        VCodeBB,
        CodegenError,
    > {
        if self.frame == 0 {
            return Ok(bb.copy());
        }
        if self.frame >= 65536 {
            return Err(CodegenError::Malformed);
        }
        let mut b = bb.copy();
        if v == self.root {
            let at: usize = find_body_start(&b.inst);
            b.inst = splice(&b.inst, at, adjust_chunks(self.frame, true, true));
        }
        let at: usize = find_first_ret(&b.inst);
        if at < b.inst.len() {
            b.inst = splice(&b.inst, at, adjust_chunks(self.frame, false, false));
        }
        Ok(b)
    }
}

fn find_body_start(insts: &Vec<MInst>) -> (r: usize)
    ensures
        r == body_start(views(insts@)),
        r <= insts@.len(),
{
    let ghost all = views(insts@);
    let ghost p = |i: int| !receives_params(all[i]);
    for i in 0..insts.len()
        invariant
            all == views(insts@),
            p == (|i: int| !receives_params(all[i])),
            body_start(all) == first_from(p, i as int, all.len() as int),
    {
        assert(all[i as int] == insts@[i as int]@);
        match &insts[i] {
            MInst::Args { .. } | MInst::Echo { .. } | MInst::Discard { .. } => {},
            _ => {
                assert(p(i as int));
                return i;
            },
        }
    }
    insts.len()
}

fn find_first_ret(insts: &Vec<MInst>) -> (r: usize)
    ensures
        r == first_ret(views(insts@)),
        r <= insts@.len(),
{
    let ghost all = views(insts@);
    let ghost p = |i: int| all[i] is Ret;
    for i in 0..insts.len()
        invariant
            all == views(insts@),
            p == (|i: int| all[i] is Ret),
            first_ret(all) == first_from(p, i as int, all.len() as int),
    {
        assert(all[i as int] == insts@[i as int]@);
        match &insts[i] {
            MInst::Ret { .. } => {
                assert(p(i as int));
                return i;
            },
            _ => {},
        }
    }
    insts.len()
}

/// Inserts the stack frame reservation and release instructions.
///
/// The frame is reserved on the private frame at function entry, behind the
/// reception of the parameters, and released before every return by freeing the
/// shared frame. The instructions can only encode power-of-two amounts, so one
/// per set bit of the frame size is inserted. Frames of 64 KiB and more are
/// refused.
pub fn insert_frame_limits(cfg: VCodeCFG, frame: u32, vregs: &mut VRegAllocator) -> (r: Result<
    VCodeCFG,
    CodegenError,
>)
    requires
        old(vregs).wf(),
        cfg.wf(),
    ensures
        final(vregs).wf(),
        ({
            let whole = all_rewritten(
                FrameLimits { root: cfg.root, frame },
                cfg.bbs(),
                old(vregs).next as int,
            );
            match r {
                Ok(c) => {
                    &&& c.wf()
                    &&& c.graph == cfg.graph
                    &&& c.root == cfg.root
                    &&& whole == Some((c.bbs(), final(vregs).next as int))
                },
                Err(e) => refused(whole, e, final(vregs).next),
            }
        }),
{
    let pass = FrameLimits { root: cfg.root, frame };
    run_pass(&pass, cfg, vregs)
}

} // verus!
