//! Renaming registers in a block.
use crate::bb::{args_view, count_of, count_of_take, first_from, BBView, VCodeBB};
use crate::inst::{views, MInst, MInstView};
use crate::reg::{ran_out, vreg, Block, CodegenError, Reg, VRegAllocator, VREG_LIMIT};
use vstd::prelude::*;

verus! {

broadcast use {crate::inst::views_push, crate::inst::views_update, crate::bb::args_view_push};

/// A list with every occurrence of `find` replaced.
pub open spec fn replace_each<T>(s: Seq<T>, find: T, replace: T) -> Seq<T> {
    Seq::new(
        s.len(),
        |i: int|
            if s[i] == find {
                replace
            } else {
                s[i]
            },
    )
}

/// A list with the first `k` occurrences of `find` replaced.
pub open spec fn replace_first_k<T>(s: Seq<T>, find: T, replace: T, k: nat) -> Seq<T> {
    Seq::new(
        s.len(),
        |i: int|
            if s[i] == find && count_of(s.take(i), find) < k {
                replace
            } else {
                s[i]
            },
    )
}

impl MInstView {
    /// The instruction with all its uses of `find` replaced.
    pub open spec fn rename_uses(self, find: Reg, replace: Reg) -> MInstView {
        self.with_uses(replace_each(self.uses(), find, replace))
    }
}

/// The block with all uses of `find` replaced: those of the instructions, those
/// in the output order, and as many in each list of passed registers as the
/// order has.
pub open spec fn renamed(bb: BBView, find: Reg, replace: Reg) -> BBView {
    let k = count_of(bb.branch_param_order, Some(find));
    BBView {
        inst: Seq::new(bb.inst.len(), |i: int| bb.inst[i].rename_uses(find, replace)),
        branch_param_order: replace_each(bb.branch_param_order, Some(find), Some(replace)),
        branch_params: Seq::new(
            bb.branch_params.len(),
            |i: int|
                (
                    bb.branch_params[i].0,
                    replace_first_k(bb.branch_params[i].1, find, replace, k),
                ),
        ),
        ..bb
    }
}

/// The first `k` of the registers renamed, in order, to those from `next` on.
pub open spec fn renamed_each(bb: BBView, regs: Seq<Reg>, next: int, k: int) -> BBView
    decreases k,
{
    if k <= 0 {
        bb
    } else {
        renamed(renamed_each(bb, regs, next, k - 1), regs[k - 1], vreg(next + k - 1))
    }
}

/// Renaming keeps the number of instructions and the block's name.
pub proof fn renamed_each_keeps(bb: BBView, regs: Seq<Reg>, next: int, k: int)
    ensures
        renamed_each(bb, regs, next, k).inst.len() == bb.inst.len(),
        renamed_each(bb, regs, next, k).vcode_bb == bb.vcode_bb,
    decreases k,
{
    if k > 0 {
        renamed_each_keeps(bb, regs, next, k - 1);
    }
}

/// The registers from `next` on.
pub open spec fn fresh_regs(next: int, n: nat) -> Seq<Reg> {
    Seq::new(n, |i: int| vreg(next + i))
}

/// The position of the first instruction that uses `find`.
pub open spec fn first_user(bb: BBView, find: Reg) -> int {
    first_from(|i: int| bb.inst[i].uses().contains(find), 0, bb.inst.len() as int)
}

/// The position of `find` in the output order.
pub open spec fn order_position(bb: BBView, find: Reg) -> int {
    first_from(
        |i: int| bb.branch_param_order[i] == Some(find),
        0,
        bb.branch_param_order.len() as int,
    )
}

/// The block with the first use of `find` replaced, and whether there is one.
pub open spec fn first_use_replaced(bb: BBView, find: Reg, replace: Reg) -> (BBView, bool) {
    let i = first_user(bb, find);
    let j = order_position(bb, find);
    if i < bb.inst.len() {
        (
            BBView {
                inst: bb.inst.update(
                    i,
                    bb.inst[i].with_uses(replace_first_k(bb.inst[i].uses(), find, replace, 1)),
                ),
                ..bb
            },
            true,
        )
    } else if j < bb.branch_param_order.len() {
        (
            BBView {
                branch_param_order: bb.branch_param_order.update(j, Some(replace)),
                branch_params: Seq::new(
                    bb.branch_params.len(),
                    |a: int|
                        (
                            bb.branch_params[a].0,
                            replace_first_k(bb.branch_params[a].1, find, replace, 1),
                        ),
                ),
                ..bb
            },
            true,
        )
    } else {
        (bb, false)
    }
}

/// Replaces the first `k` occurrences of a register in a list.
fn replace_some(regs: &Vec<Reg>, find: Reg, replace: Reg, k: usize) -> (r: Vec<Reg>)
    ensures
        r@ == replace_first_k(regs@, find, replace, k as nat),
{
    let mut r: Vec<Reg> = Vec::new();
    let mut n: usize = 0;
    for i in 0..regs.len()
        invariant
            n == count_of(regs@.take(i as int), find),
            n <= i,
            r@ == replace_first_k(regs@, find, replace, k as nat).take(i as int),
    {
        proof {
            count_of_take(regs@, find, i as int);
        }
        if regs[i] == find {
            if n < k {
                r.push(replace);
            } else {
                r.push(find);
            }
            n = n + 1;
        } else {
            r.push(regs[i]);
        }
        assert(r@ =~= replace_first_k(regs@, find, replace, k as nat).take(i as int + 1));
    }
    assert(r@ =~= replace_first_k(regs@, find, replace, k as nat));
    r
}

/// Replaces every occurrence of a register in a list.
pub fn replace_every(regs: &Vec<Reg>, find: Reg, replace: Reg) -> (r: Vec<Reg>)
    ensures
        r@ == replace_each(regs@, find, replace),
{
    let mut r: Vec<Reg> = Vec::new();
    for i in 0..regs.len()
        invariant
            r@ == replace_each(regs@, find, replace).take(i as int),
    {
        if regs[i] == find {
            r.push(replace);
        } else {
            r.push(regs[i]);
        }
        assert(r@ =~= replace_each(regs@, find, replace).take(i as int + 1));
    }
    assert(r@ =~= replace_each(regs@, find, replace));
    r
}

/// Replaces the first `k` occurrences of a register in each list.
fn replace_in_args(
    args: &Vec<(Block, Vec<Reg>)>,
    find: Reg,
    replace: Reg,
    k: usize,
) -> (r: Vec<(Block, Vec<Reg>)>)
    ensures
        args_view(r@) == Seq::new(
            args@.len(),
            |i: int| (args@[i].0, replace_first_k(args@[i].1@, find, replace, k as nat)),
        ),
{
    let ghost whole = Seq::new(
        args@.len(),
        |i: int| (args@[i].0, replace_first_k(args@[i].1@, find, replace, k as nat)),
    );
    let mut r: Vec<(Block, Vec<Reg>)> = Vec::new();
    for i in 0..args.len()
        invariant
            whole == Seq::new(
                args@.len(),
                |i: int| (args@[i].0, replace_first_k(args@[i].1@, find, replace, k as nat)),
            ),
            args_view(r@) == whole.take(i as int),
    {
        r.push((args[i].0, replace_some(&args[i].1, find, replace, k)));
        assert(args_view(r@) =~= whole.take(i as int + 1));
    }
    assert(args_view(r@) =~= whole);
    r
}

/// Whether a register is in a list.
pub fn contains_reg(regs: &Vec<Reg>, find: Reg) -> (r: bool)
    ensures
        r == regs@.contains(find),
{
    for i in 0..regs.len()
        invariant
            !regs@.take(i as int).contains(find),
    {
        if regs[i] == find {
            return true;
        }
        assert(regs@.take(i as int + 1) =~= regs@.take(i as int).push(regs@[i as int]));
        assert forall|j: int| 0 <= j <= i implies #[trigger] regs@.take(i as int + 1)[j] != find by {
            if j < i {
                assert(regs@.take(i as int)[j] == regs@[j]);
            }
        }
    }
    assert(regs@.take(regs@.len() as int) =~= regs@);
    false
}

impl VCodeBB {
    /// Replaces all uses of the `find` register with the `replace` register.
    pub fn replace_all_uses(&mut self, find: Reg, replace: Reg)
        ensures
            final(self)@ == renamed(old(self)@, find, replace),
    {
        let ghost before = self@;
        let mut inst: Vec<MInst> = Vec::new();
        for i in 0..self.inst.len()
            invariant
                before == self@,
                views(inst@) == renamed(before, find, replace).inst.take(i as int),
        {
            let mut one = self.inst[i].copy();
            let uses = one.get_uses();
            let us = replace_every(&uses, find, replace);
            one.set_uses(&us);
            inst.push(one);
            assert(views(inst@) =~= renamed(before, find, replace).inst.take(i as int + 1));
        }
        let mut order: Vec<Option<Reg>> = Vec::new();
        let mut k: usize = 0;
        for i in 0..self.branch_param_order.len()
            invariant
                before == self@,
                k == count_of(before.branch_param_order.take(i as int), Some(find)),
                k <= i,
                order@ == renamed(before, find, replace).branch_param_order.take(i as int),
        {
            proof {
                count_of_take(before.branch_param_order, Some(find), i as int);
            }
            let p = self.branch_param_order[i];
            let hit: bool = match p {
                Some(reg) => reg == find,
                None => false,
            };
            if hit {
                order.push(Some(replace));
                k = k + 1;
            } else {
                order.push(p);
            }
            assert(order@ =~= renamed(before, find, replace).branch_param_order.take(i as int + 1));
        }
        assert(before.branch_param_order.take(before.branch_param_order.len() as int)
            =~= before.branch_param_order);
        self.branch_params = replace_in_args(&self.branch_params, find, replace, k);
        self.inst = inst;
        self.branch_param_order = order;
        assert(self@ =~= renamed(before, find, replace));
    }

    /// Replaces all uses of each of the registers, in order, by a fresh one. All
    /// goes well where there are as many registers left.
    pub fn replace_by_fresh(&mut self, regs: &Vec<Reg>, vregs: &mut VRegAllocator) -> (r: Result<
        Vec<Reg>,
        CodegenError,
    >)
        requires
            old(vregs).wf(),
        ensures
            final(vregs).wf(),
            match r {
                Ok(fresh) => {
                    &&& final(vregs).next == old(vregs).next + regs@.len()
                    &&& fresh@ == fresh_regs(old(vregs).next as int, regs@.len())
                    &&& final(self)@ == renamed_each(
                        old(self)@,
                        regs@,
                        old(vregs).next as int,
                        regs@.len() as int,
                    )
                },
                Err(e) => old(vregs).next + regs@.len() > VREG_LIMIT && ran_out(e, final(vregs).next),
            },
    {
        let ghost before = self@;
        let ghost start = vregs.next as int;
        let mut fresh: Vec<Reg> = Vec::new();
        for k in 0..regs.len()
            invariant
                vregs.wf(),
                before == old(self)@,
                start == old(vregs).next,
                vregs.next == start + k,
                fresh@ == fresh_regs(start, k as nat),
                self@ == renamed_each(before, regs@, start, k as int),
        {
            let r = match vregs.fresh() {
                Ok(r) => r,
                Err(e) => {
                    return Err(e);
                },
            };
            self.replace_all_uses(regs[k], r);
            fresh.push(r);
            assert(fresh@ =~= fresh_regs(start, (k + 1) as nat));
        }
        Ok(fresh)
    }

    /// Replaces the first use of the `find` register with the `replace`
    /// register, returning whether any replacement was made.
    pub fn replace_first_use(&mut self, find: Reg, replace: Reg) -> (r: bool)
        ensures
            (final(self)@, r) == first_use_replaced(old(self)@, find, replace),
    {
        let ghost before = self@;
        let ghost p = |i: int| before.inst[i].uses().contains(find);
        let n: usize = self.inst.len();
        for i in 0..n
            invariant
                before == self@,
                before == old(self)@,
                n == self.inst@.len(),
                p == (|i: int| before.inst[i].uses().contains(find)),
                first_user(before, find) == first_from(p, i as int, before.inst.len() as int),
        {
            let uses = self.inst[i].get_uses();
            if contains_reg(&uses, find) {
                let us = replace_some(&uses, find, replace, 1);
                let mut one = self.inst[i].copy();
                one.set_uses(&us);
                self.inst.set(i, one);
                assert(self@ =~= first_use_replaced(before, find, replace).0);
                return true;
            }
        }
        let ghost q = |i: int| before.branch_param_order[i] == Some(find);
        let m: usize = self.branch_param_order.len();
        for j in 0..m
            invariant
                before == old(self)@,
                m == self.branch_param_order@.len(),
                before == self@,
                first_user(before, find) >= before.inst.len(),
                q == (|i: int| before.branch_param_order[i] == Some(find)),
                order_position(before, find) == first_from(
                    q,
                    j as int,
                    before.branch_param_order.len() as int,
                ),
        {
            let hit: bool = match self.branch_param_order[j] {
                Some(reg) => reg == find,
                None => false,
            };
            if hit {
                self.branch_param_order.set(j, Some(replace));
                self.branch_params = replace_in_args(&self.branch_params, find, replace, 1);
                assert(self@ =~= first_use_replaced(before, find, replace).0);
                return true;
            }
        }
        false
    }
}

} // verus!
