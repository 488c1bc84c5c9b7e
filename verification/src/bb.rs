//! Basic blocks: their instructions, parameters and the registers they pass on.
use crate::inst::{views, MInst, MInstView, OperandKind};
use crate::reg::{copy_regs, Block, Reg};
use vstd::prelude::*;

verus! {

broadcast use crate::inst::views_push;

/// A basic block.
pub struct VCodeBB {
    /// The block of the lowered code that this block stands for.
    pub vcode_bb: Block,
    /// Instructions in the block.
    pub inst: Vec<MInst>,
    /// The block's parameters (inputs).
    pub params: Vec<Reg>,
    /// The registers that the block passes to each of its successors.
    pub branch_params: Vec<(Block, Vec<Reg>)>,
    /// Ordered list of inputs to the block.
    ///
    /// May differ from `params` if the caller outputs more parameters than this
    /// block needs, for instance on a conditional branch where one block takes
    /// more inputs than the other.
    pub param_order: Vec<Option<Reg>>,
    /// Ordered list of outputs of this block. May differ from `params` of the
    /// successor blocks.
    pub branch_param_order: Vec<Option<Reg>>,
}

/// A basic block as a mathematical value.
#[verifier::ext_equal]
pub struct BBView {
    pub vcode_bb: Block,
    pub inst: Seq<MInstView>,
    pub params: Seq<Reg>,
    pub branch_params: Seq<(Block, Seq<Reg>)>,
    pub param_order: Seq<Option<Reg>>,
    pub branch_param_order: Seq<Option<Reg>>,
}

/// The registers passed to each successor, as mathematical values.
pub open spec fn args_view(args: Seq<(Block, Vec<Reg>)>) -> Seq<(Block, Seq<Reg>)> {
    Seq::new(args.len(), |i: int| (args[i].0, args[i].1@))
}

/// The lists for the successors with one more list.
pub broadcast proof fn args_view_push(s: Seq<(Block, Vec<Reg>)>, x: (Block, Vec<Reg>))
    ensures
        #[trigger] args_view(s.push(x)) == args_view(s).push((x.0, x.1@)),
{
    assert(args_view(s.push(x)) =~= args_view(s).push((x.0, x.1@)));
}

/// The views of a list with one more block.
pub broadcast proof fn bb_views_push(s: Seq<VCodeBB>, x: VCodeBB)
    ensures
        #[trigger] bb_views(s.push(x)) == bb_views(s).push(x@),
{
    assert(bb_views(s.push(x)) =~= bb_views(s).push(x@));
}

impl View for VCodeBB {
    type V = BBView;

    open spec fn view(&self) -> BBView {
        BBView {
            vcode_bb: self.vcode_bb,
            inst: views(self.inst@),
            params: self.params@,
            branch_params: args_view(self.branch_params@),
            param_order: self.param_order@,
            branch_param_order: self.branch_param_order@,
        }
    }
}

/// A list of blocks as mathematical values.
pub open spec fn bb_views(bbs: Seq<VCodeBB>) -> Seq<BBView> {
    Seq::new(bbs.len(), |i: int| bbs[i]@)
}

/// How often a value occurs in a list.
pub open spec fn count_of<T>(s: Seq<T>, x: T) -> nat
    decreases s.len(),
{
    if s.len() == 0 {
        0
    } else {
        count_of(s.drop_last(), x) + (if s.last() == x {
            1nat
        } else {
            0nat
        })
    }
}

/// Counting goes on by one element.
pub proof fn count_of_take<T>(s: Seq<T>, x: T, i: int)
    requires
        0 <= i < s.len(),
    ensures
        count_of(s.take(i + 1), x) == count_of(s.take(i), x) + (if s[i] == x {
            1nat
        } else {
            0nat
        }),
{
    assert(s.take(i + 1).drop_last() =~= s.take(i));
}

/// What does not occur is counted zero times, and the other way round.
pub proof fn count_of_zero<T>(s: Seq<T>, x: T)
    ensures
        count_of(s, x) == 0 <==> !s.contains(x),
    decreases s.len(),
{
    if s.len() > 0 {
        count_of_zero(s.drop_last(), x);
        if s.last() == x {
            assert(s[s.len() - 1] == x);
        } else if s.contains(x) {
            let i = choose|i: int| 0 <= i < s.len() && s[i] == x;
            assert(s.drop_last()[i] == x);
        }
        if s.drop_last().contains(x) {
            let i = choose|i: int| 0 <= i < s.drop_last().len() && s.drop_last()[i] == x;
            assert(s[i] == x);
        }
    }
}

/// The least index from `i` on, below `n`, that satisfies `p`, or `n`.
pub open spec fn first_from(p: spec_fn(int) -> bool, i: int, n: int) -> int
    decreases n - i,
{
    if i >= n || p(i) {
        i
    } else {
        first_from(p, i + 1, n)
    }
}

/// The greatest index below `n` that satisfies `p`, or -1.
pub open spec fn last_below(p: spec_fn(int) -> bool, n: int) -> int
    decreases n,
{
    if n <= 0 {
        -1
    } else if p(n - 1) {
        n - 1
    } else {
        last_below(p, n - 1)
    }
}

/// The first match satisfies the property, and nothing before it does.
pub proof fn first_from_is_least(p: spec_fn(int) -> bool, i: int, n: int)
    requires
        i <= n,
    ensures
        i <= first_from(p, i, n) <= n,
        first_from(p, i, n) < n ==> p(first_from(p, i, n)),
        forall|j: int| i <= j < first_from(p, i, n) ==> !#[trigger] p(j),
    decreases n - i,
{
    if i < n && !p(i) {
        first_from_is_least(p, i + 1, n);
    }
}

/// The last match satisfies the property, and nothing after it does.
pub proof fn last_below_is_greatest(p: spec_fn(int) -> bool, n: int)
    requires
        0 <= n,
    ensures
        -1 <= last_below(p, n) < n || (n == 0 && last_below(p, n) == -1),
        last_below(p, n) >= 0 ==> p(last_below(p, n)),
        forall|j: int| last_below(p, n) < j < n ==> !#[trigger] p(j),
    decreases n,
{
    if n > 0 && !p(n - 1) {
        last_below_is_greatest(p, n - 1);
    }
}

/// The indices of the instructions that have the register as an operand of the
/// given kind, each as often as it has.
pub open spec fn op_positions(insts: Seq<MInstView>, reg: Reg, kind: OperandKind) -> Seq<usize>
    decreases insts.len(),
{
    if insts.len() == 0 {
        Seq::empty()
    } else {
        op_positions(insts.drop_last(), reg, kind) + Seq::new(
            count_of(insts.last().operands(), (reg, kind)),
            |i: int| (insts.len() - 1) as usize,
        )
    }
}

/// How many operands of the given kind name the register.
pub open spec fn op_count(insts: Seq<MInstView>, reg: Reg, kind: OperandKind) -> nat {
    op_positions(insts, reg, kind).len()
}

/// The operands among the definitions.
pub open spec fn def_operands(ops: Seq<(Reg, OperandKind)>) -> Seq<Reg>
    decreases ops.len(),
{
    if ops.len() == 0 {
        Seq::empty()
    } else if ops.last().1 is Def {
        def_operands(ops.drop_last()).push(ops.last().0)
    } else {
        def_operands(ops.drop_last())
    }
}

/// All definitions of a list of instructions with their positions, in order.
pub open spec fn all_defs(insts: Seq<MInstView>) -> Seq<(usize, Reg)>
    decreases insts.len(),
{
    if insts.len() == 0 {
        Seq::empty()
    } else {
        let ds = def_operands(insts.last().operands());
        all_defs(insts.drop_last()) + Seq::new(
            ds.len(),
            |i: int| ((insts.len() - 1) as usize, ds[i]),
        )
    }
}

/// How often an operand occurs in a list of operands.
fn count_operand(ops: &Vec<(Reg, OperandKind)>, reg: Reg, kind: OperandKind) -> (r: usize)
    ensures
        r == count_of(ops@, (reg, kind)),
{
    let mut n: usize = 0;
    for i in 0..ops.len()
        invariant
            n == count_of(ops@.take(i as int), (reg, kind)),
            n <= i,
    {
        proof {
            count_of_take(ops@, (reg, kind), i as int);
        }
        if ops[i].0 == reg && ops[i].1 == kind {
            n = n + 1;
        }
    }
    assert(ops@.take(ops@.len() as int) =~= ops@);
    n
}

/// A copy of the registers passed to each successor.
pub fn copy_args(args: &Vec<(Block, Vec<Reg>)>) -> (r: Vec<(Block, Vec<Reg>)>)
    ensures
        args_view(r@) == args_view(args@),
{
    let mut r: Vec<(Block, Vec<Reg>)> = Vec::new();
    for i in 0..args.len()
        invariant
            args_view(r@) == args_view(args@).take(i as int),
    {
        broadcast use args_view_push;
        r.push((args[i].0, copy_regs(&args[i].1)));
        assert(args_view(r@) =~= args_view(args@).take(i as int + 1));
    }
    assert(args_view(args@).take(args@.len() as int) =~= args_view(args@));
    r
}

/// A copy of an order.
pub fn copy_order(v: &Vec<Option<Reg>>) -> (r: Vec<Option<Reg>>)
    ensures
        r@ == v@,
{
    let mut r: Vec<Option<Reg>> = Vec::new();
    for i in 0..v.len()
        invariant
            r@ == v@.take(i as int),
    {
        r.push(v[i]);
        assert(r@ =~= v@.take(i as int + 1));
    }
    assert(r@ =~= v@);
    r
}

/// A copy of a list of instructions.
pub fn copy_insts(v: &Vec<MInst>) -> (r: Vec<MInst>)
    ensures
        views(r@) == views(v@),
{
    let mut r: Vec<MInst> = Vec::new();
    for i in 0..v.len()
        invariant
            views(r@) == views(v@).take(i as int),
    {
        r.push(v[i].copy());
        assert(views(r@) =~= views(v@).take(i as int + 1));
    }
    assert(views(r@) =~= views(v@));
    r
}

/// The instructions with those from `first` below `end` replaced.
pub fn replace_range(insts: &Vec<MInst>, first: usize, end: usize, new: Vec<MInst>) -> (r: Vec<MInst>)
    requires
        first <= end <= insts@.len(),
    ensures
        views(r@) == views(insts@).take(first as int) + views(new@) + views(insts@).skip(end as int),
{
    let ghost all = views(insts@);
    let mut r: Vec<MInst> = Vec::new();
    for k in 0..first
        invariant
            first <= end <= insts@.len(),
            all == views(insts@),
            views(r@) == all.take(k as int),
    {
        broadcast use crate::inst::views_push;

        r.push(insts[k].copy());
        assert(views(r@) =~= all.take(k as int + 1));
    }
    broadcast use crate::inst::views_add;

    let mut new = new;
    r.append(&mut new);
    let ghost head = views(r@);
    for k in end..insts.len()
        invariant
            first <= end <= insts@.len(),
            all == views(insts@),
            views(r@) == head + all.subrange(end as int, k as int),
    {
        broadcast use crate::inst::views_push;

        r.push(insts[k].copy());
        assert(views(r@) =~= head + all.subrange(end as int, k as int + 1));
    }
    assert(all.subrange(end as int, insts@.len() as int) =~= all.skip(end as int));
    r
}

impl VCodeBB {
    /// A copy of the block.
    pub fn copy(&self) -> (r: VCodeBB)
        ensures
            r@ == self@,
    {
        VCodeBB {
            vcode_bb: self.vcode_bb,
            inst: copy_insts(&self.inst),
            params: copy_regs(&self.params),
            branch_params: copy_args(&self.branch_params),
            param_order: copy_order(&self.param_order),
            branch_param_order: copy_order(&self.branch_param_order),
        }
    }

    /// The block with other instructions.
    pub fn with_insts(&self, inst: Vec<MInst>) -> (r: VCodeBB)
        ensures
            r@ == (BBView { inst: views(inst@), ..self@ }),
    {
        VCodeBB {
            vcode_bb: self.vcode_bb,
            inst,
            params: copy_regs(&self.params),
            branch_params: copy_args(&self.branch_params),
            param_order: copy_order(&self.param_order),
            branch_param_order: copy_order(&self.branch_param_order),
        }
    }

    /// Gets the indices of instructions that have the given register as an
    /// operand of the given kind. An instruction that has it multiple times
    /// appears multiple times.
    pub fn reg_op_kind(&self, reg: Reg, kind: OperandKind) -> (r: Vec<usize>)
        ensures
            r@ == op_positions(self@.inst, reg, kind),
    {
        let ghost insts = self@.inst;
        let mut r: Vec<usize> = Vec::new();
        for i in 0..self.inst.len()
            invariant
                insts == views(self.inst@),
                r@ == op_positions(insts.take(i as int), reg, kind),
        {
            let ops = self.inst[i].get_operands();
            let n: usize = count_operand(&ops, reg, kind);
            let ghost before = r@;
            for k in 0..n
                invariant
                    r@ == before + Seq::new(k as nat, |j: int| i),
            {
                r.push(i);
                assert(r@ =~= before + Seq::new((k + 1) as nat, |j: int| i));
            }
            proof {
                assert(insts.take(i as int + 1).drop_last() =~= insts.take(i as int));
                assert(r@ =~= op_positions(insts.take(i as int + 1), reg, kind));
            }
        }
        assert(insts.take(insts.len() as int) =~= insts);
        r
    }

    /// Gets the indices of instructions that use the given register.
    ///
    /// Instructions that use the register multiple times appear multiple times.
    pub fn reg_uses(&self, reg: Reg) -> (r: Vec<usize>)
        ensures
            r@ == op_positions(self@.inst, reg, OperandKind::Use),
    {
        self.reg_op_kind(reg, OperandKind::Use)
    }

    /// Gets the indices of instructions that define the given register.
    ///
    /// Instructions that define the register multiple times appear multiple times.
    pub fn reg_defs(&self, reg: Reg) -> (r: Vec<usize>)
        ensures
            r@ == op_positions(self@.inst, reg, OperandKind::Def),
    {
        self.reg_op_kind(reg, OperandKind::Def)
    }

    /// All definitions in the block, with the indices of their instructions.
    pub fn inst_defs(&self) -> (r: Vec<(usize, Reg)>)
        ensures
            r@ == all_defs(self@.inst),
    {
        let ghost insts = self@.inst;
        let mut r: Vec<(usize, Reg)> = Vec::new();
        for i in 0..self.inst.len()
            invariant
                insts == views(self.inst@),
                r@ == all_defs(insts.take(i as int)),
        {
            let ops = self.inst[i].get_operands();
            let ghost before = r@;
            for k in 0..ops.len()
                invariant
                    r@ == before + Seq::new(
                        def_operands(ops@.take(k as int)).len(),
                        |j: int| (i, def_operands(ops@.take(k as int))[j]),
                    ),
            {
                let op = ops[k];
                assert(ops@.take(k as int + 1).drop_last() =~= ops@.take(k as int));
                match op.1 {
                    OperandKind::Def => {
                        r.push((i, op.0));
                    },
                    OperandKind::Use => {},
                }
                assert(r@ =~= before + Seq::new(
                    def_operands(ops@.take(k as int + 1)).len(),
                    |j: int| (i, def_operands(ops@.take(k as int + 1))[j]),
                ));
            }
            proof {
                assert(ops@.take(ops@.len() as int) =~= ops@);
                assert(insts.take(i as int + 1).drop_last() =~= insts.take(i as int));
                assert(r@ =~= all_defs(insts.take(i as int + 1)));
            }
        }
        assert(insts.take(insts.len() as int) =~= insts);
        r
    }
}

} // verus!
