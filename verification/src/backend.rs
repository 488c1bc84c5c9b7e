//! The back end: compilation of a function's lowered code.
use crate::abi::{
    areas_fit, areas_fit_parts, round_up, round_up_is_least_multiple, spec_stack_area_size,
    spec_stack_locals_base, stack_area_size, stack_locals_base,
};
use crate::assemble::{assemble, assembled, blocks_overflow, no_code, CompiledCode};
use crate::bb::BBView;
use crate::cfg::{all_rewritten, rewritten_keeps_blocks, VCodeCFG};
use crate::emission::built_from;
use crate::emit::Flags;
use crate::inst::{views, MInst, MInstView, OperandKind};
use crate::ir::{self, ArgumentExtension, Signature, SignatureView};
use crate::isa::Instruction;
use crate::layout::Shape;
use crate::machinst::FunctionAlignment;
use crate::passes::branches::{conditions_fixed, conditions_grow, fix_branch_conditions, laid_out};
use crate::passes::capacities::{assert_queue_capacities, capacities_hold};
use crate::passes::duplicates::{insert_duplicates, InsertDuplicates};
use crate::passes::echoes::{expand_echoes, ExpandEchoes};
use crate::passes::frame::{insert_frame_limits, FrameLimits};
use crate::passes::infer::has_registers;
use crate::passes::live_ins::{live_ins_explicit, live_ins_grow, make_live_ins_explicit};
use crate::passes::orderings::{fix_orderings, FixOrderings};
use crate::passes::params::{params_prepared, prepare_block_params, prepared_grows};
use crate::passes::resolve::{
    refused_typed, resolve_instruction_types, types_resolved, types_resolved_grow,
};
use crate::passes::rets::{insert_rets, IssueRets};
use crate::passes::settle::{code_runs_out, jumps_settled, rounds_grow, settle_jumps};
use crate::passes::stack_args::{lower_stack_args, stack_args_grow, stack_args_lowered};
use crate::passes::triggers::{set_trigger_offsets, SetTriggerOffsets};
use crate::reg::{Block, CodegenError, Reg, VRegAllocator, VREG_LIMIT};
use crate::typemap::defaults_wf;
use crate::vcode::{
    block_views, code_blocks, code_succs, found_blocks, found_from, found_with, BlockView, VCode,
    VCodeBlock,
};
use vstd::prelude::*;

verus! {

/// The processor architectures, as far as they are told apart.
#[derive(Clone, Copy, PartialEq, Eq, Structural, Debug)]
pub enum Architecture {
    Scry,
    Other,
}

/// What code is generated for.
#[derive(Clone, Copy, PartialEq, Eq, Structural, Debug)]
pub struct Triple {
    pub architecture: Architecture,
}

/// The place of a stack slot in the function's part of the frame.
#[derive(Clone, Copy, PartialEq, Eq, Structural, Debug)]
pub struct StackSlot {
    pub offset: u32,
    pub size: u32,
}

/// A function to be compiled.
pub struct FunctionCode {
    /// The lowered code.
    pub vcode: VCode,
    /// The function's signature.
    pub sig: Signature,
    /// The types of the virtual registers, by index.
    pub reg_types: Vec<Option<ir::Type>>,
    /// The function's stack slots.
    pub slots: Vec<StackSlot>,
}

/// The largest index of a virtual register among the first `k` operands, or 0.
pub open spec fn max_operand(ops: Seq<(Reg, OperandKind)>, k: int) -> int
    decreases k,
{
    if k <= 0 {
        0
    } else {
        let m = max_operand(ops, k - 1);
        match ops[k - 1].0 {
            Reg::Virtual(i) => if i > m {
                i as int
            } else {
                m
            },
            Reg::Real(_) => m,
        }
    }
}

/// The largest index of a virtual register in the first `k` instructions, or 0.
pub open spec fn max_vreg(insts: Seq<MInstView>, k: int) -> int
    decreases k,
{
    if k <= 0 {
        0
    } else {
        let m = max_vreg(insts, k - 1);
        let n = max_operand(insts[k - 1].operands(), insts[k - 1].operands().len() as int);
        if n > m {
            n
        } else {
            m
        }
    }
}

/// The largest index of a virtual register among the first `k` registers, or 0.
pub open spec fn max_reg(regs: Seq<Reg>, k: int) -> int
    decreases k,
{
    if k <= 0 {
        0
    } else {
        let m = max_reg(regs, k - 1);
        match regs[k - 1] {
            Reg::Virtual(i) => if i > m {
                i as int
            } else {
                m
            },
            Reg::Real(_) => m,
        }
    }
}

/// The largest index of a virtual register passed to the first `k` successors, or
/// 0.
pub open spec fn max_passed(succs: Seq<(Block, Seq<Reg>)>, k: int) -> int
    decreases k,
{
    if k <= 0 {
        0
    } else {
        larger(
            max_passed(succs, k - 1),
            max_reg(succs[k - 1].1, succs[k - 1].1.len() as int),
        )
    }
}

/// The larger of two numbers.
pub open spec fn larger(a: int, b: int) -> int {
    if b > a {
        b
    } else {
        a
    }
}

/// The largest index of a virtual register that a block names: in its
/// instructions, as a parameter, or passed to a successor; 0 if it names none.
pub open spec fn block_max_vreg(b: BlockView) -> int {
    larger(
        max_vreg(b.insts, b.insts.len() as int),
        larger(
            max_reg(b.params, b.params.len() as int),
            max_passed(b.succs, b.succs.len() as int),
        ),
    )
}

/// The largest index of a virtual register in the first `k` of the given blocks,
/// or 0.
pub open spec fn max_block_vreg(code: Seq<BlockView>, found: Seq<Block>, k: int) -> int
    decreases k,
{
    if k <= 0 {
        0
    } else {
        larger(
            max_block_vreg(code, found, k - 1),
            block_max_vreg(code[found[k - 1].index as int]),
        )
    }
}

/// The first index behind those of all registers that reachable blocks name.
pub open spec fn first_free(code: Seq<BlockView>, entry: Block) -> int {
    let found = found_blocks(code, entry);
    max_block_vreg(code, found, found.len() as int) + 1
}

/// Whether a block names a register: in an instruction, as a parameter, or passed
/// to a successor.
pub open spec fn names_reg(b: BlockView, r: Reg) -> bool {
    ||| b.params.contains(r)
    ||| exists|j: int| 0 <= j < b.succs.len() && (#[trigger] b.succs[j]).1.contains(r)
    ||| exists|i: int, o: int|
        0 <= i < b.insts.len() && 0 <= o < b.insts[i].operands().len() && (
        #[trigger] b.insts[i].operands()[o]).0 == r
}

proof fn max_reg_bounds(regs: Seq<Reg>, k: int, i: int)
    requires
        0 <= i < k <= regs.len(),
    ensures
        regs[i] matches Reg::Virtual(x) ==> x <= max_reg(regs, k),
    decreases k,
{
    if i < k - 1 {
        max_reg_bounds(regs, k - 1, i);
    }
}

proof fn max_passed_bounds(succs: Seq<(Block, Seq<Reg>)>, k: int, j: int)
    requires
        0 <= j < k <= succs.len(),
    ensures
        max_reg(succs[j].1, succs[j].1.len() as int) <= max_passed(succs, k),
    decreases k,
{
    if j < k - 1 {
        max_passed_bounds(succs, k - 1, j);
    }
}

proof fn max_operand_bounds(ops: Seq<(Reg, OperandKind)>, k: int, o: int)
    requires
        0 <= o < k <= ops.len(),
    ensures
        ops[o].0 matches Reg::Virtual(x) ==> x <= max_operand(ops, k),
    decreases k,
{
    if o < k - 1 {
        max_operand_bounds(ops, k - 1, o);
    }
}

proof fn max_vreg_bounds(insts: Seq<MInstView>, k: int, i: int)
    requires
        0 <= i < k <= insts.len(),
    ensures
        max_operand(insts[i].operands(), insts[i].operands().len() as int) <= max_vreg(insts, k),
    decreases k,
{
    if i < k - 1 {
        max_vreg_bounds(insts, k - 1, i);
    }
}

proof fn max_block_bounds(code: Seq<BlockView>, found: Seq<Block>, k: int, f: int)
    requires
        0 <= f < k <= found.len(),
    ensures
        block_max_vreg(code[found[f].index as int]) <= max_block_vreg(code, found, k),
    decreases k,
{
    if f < k - 1 {
        max_block_bounds(code, found, k - 1, f);
    }
}

/// The registers handed out from the first free one on clash with none that a
/// reachable block names.
pub proof fn free_registers_are_unnamed(code: Seq<BlockView>, entry: Block, f: int, index: u32)
    requires
        0 <= f < found_blocks(code, entry).len(),
        index >= first_free(code, entry),
    ensures
        !names_reg(code[found_blocks(code, entry)[f].index as int], Reg::Virtual(index)),
{
    let found = found_blocks(code, entry);
    let b = code[found[f].index as int];
    let r = Reg::Virtual(index);
    max_block_bounds(code, found, found.len() as int, f);
    if b.params.contains(r) {
        let i = choose|i: int| 0 <= i < b.params.len() && b.params[i] == r;
        max_reg_bounds(b.params, b.params.len() as int, i);
    }
    if exists|j: int| 0 <= j < b.succs.len() && (#[trigger] b.succs[j]).1.contains(r) {
        let j = choose|j: int| 0 <= j < b.succs.len() && (#[trigger] b.succs[j]).1.contains(r);
        let passed = b.succs[j].1;
        let i = choose|i: int| 0 <= i < passed.len() && passed[i] == r;
        max_reg_bounds(passed, passed.len() as int, i);
        max_passed_bounds(b.succs, b.succs.len() as int, j);
    }
    if exists|i: int, o: int|
        0 <= i < b.insts.len() && 0 <= o < b.insts[i].operands().len() && (
        #[trigger] b.insts[i].operands()[o]).0 == r {
        let (i, o) = choose|i: int, o: int|
            0 <= i < b.insts.len() && 0 <= o < b.insts[i].operands().len() && (
            #[trigger] b.insts[i].operands()[o]).0 == r;
        let ops = b.insts[i].operands();
        max_operand_bounds(ops, ops.len() as int, o);
        max_vreg_bounds(b.insts, b.insts.len() as int, i);
    }
}

fn find_max_vreg(insts: &Vec<MInst>) -> (r: u32)
    ensures
        r == max_vreg(views(insts@), insts@.len() as int),
{
    let ghost all = views(insts@);
    let mut m: u32 = 0;
    for i in 0..insts.len()
        invariant
            all == views(insts@),
            m == max_vreg(all, i as int),
    {
        assert(all[i as int] == insts@[i as int]@);
        let ops = insts[i].get_operands();
        let mut n: u32 = 0;
        for k in 0..ops.len()
            invariant
                n == max_operand(ops@, k as int),
        {
            match ops[k].0 {
                Reg::Virtual(x) => {
                    if x > n {
                        n = x;
                    }
                },
                Reg::Real(_) => {},
            }
        }
        if n > m {
            m = n;
        }
    }
    m
}

impl VCode {
    /// The blocks that can be reached from the entry, in the order in which they
    /// are found.
    pub fn reachable(&self) -> (r: Vec<Block>)
        requires
            self.wf(),
        ensures
            r@ == found_blocks(block_views(self.blocks@), self.entry),
            forall|i: int| 0 <= i < r@.len() ==> (#[trigger] r@[i]).index < self.blocks@.len(),
    {
        let ghost code = block_views(self.blocks@);
        let mut found: Vec<Block> = Vec::new();
        found.push(self.entry);
        assert(found@ =~= seq![self.entry]);
        let total: usize = self.blocks.len();
        let mut k: usize = 0;
        while k < found.len() && k < total
            invariant
                self.wf(),
                code == block_views(self.blocks@),
                total == code.len(),
                k <= found@.len(),
                forall|i: int|
                    0 <= i < found@.len() ==> (#[trigger] found@[i]).index < self.blocks@.len(),
                found_blocks(code, self.entry) == found_from(code, found@, k as int),
            decreases total - k,
        {
            let at: usize = found[k].index as usize;
            let ghost f0 = found@;
            assert(f0[k as int].index < code.len());
            let ghost b = code[at as int];
            assert(b == self.blocks@[at as int]@);
            assert(crate::vcode::block_wf(b, code.len()));
            let n: usize = self.blocks[at].succs.len();
            for j in 0..n
                invariant
                    at < self.blocks@.len(),
                    b == self.blocks@[at as int]@,
                    n == b.succs.len(),
                    n == self.blocks@[at as int].succs@.len(),
                    code == block_views(self.blocks@),
                    crate::vcode::block_wf(b, code.len()),
                    f0.len() <= found@.len(),
                    forall|i: int|
                        0 <= i < found@.len() ==> (#[trigger] found@[i]).index < self.blocks@.len(),
                    found_with(f0, b, 0) == found_with(found@, b, j as int),
            {
                let s: Block = self.blocks[at].succs[j].0;
                assert(b.succs[j as int].0 == s);
                assert(b.succs[j as int].0.index < code.len());
                if !contains_block(&found, s) {
                    found.push(s);
                }
            }
            k = k + 1;
        }
        found
    }

    /// An allocator whose registers clash with none that reachable blocks name.
    pub fn new_vregs(&self) -> (r: Result<VRegAllocator, CodegenError>)
        requires
            self.wf(),
        ensures
            match r {
                Ok(vregs) => vregs.wf() && vregs.next == first_free(
                    block_views(self.blocks@),
                    self.entry,
                ),
                Err(e) => e is CodeTooLarge && first_free(block_views(self.blocks@), self.entry)
                    > VREG_LIMIT,
            },
    {
        let ghost code = block_views(self.blocks@);
        let found = self.reachable();
        let mut m: u32 = 0;
        for k in 0..found.len()
            invariant
                code == block_views(self.blocks@),
                forall|i: int|
                    0 <= i < found@.len() ==> (#[trigger] found@[i]).index < self.blocks@.len(),
                m == max_block_vreg(code, found@, k as int),
        {
            let at: usize = found[k].index as usize;
            assert(code[at as int] == self.blocks@[at as int]@);
            let n: u32 = find_block_max(&self.blocks[at]);
            if n > m {
                m = n;
            }
        }
        if m >= VREG_LIMIT {
            return Err(CodegenError::CodeTooLarge);
        }
        Ok(VRegAllocator { next: m + 1 })
    }
}

fn find_max_reg(regs: &Vec<Reg>) -> (m: u32)
    ensures
        m == max_reg(regs@, regs@.len() as int),
{
    let mut m: u32 = 0;
    for k in 0..regs.len()
        invariant
            m == max_reg(regs@, k as int),
    {
        match regs[k] {
            Reg::Virtual(x) => {
                if x > m {
                    m = x;
                }
            },
            Reg::Real(_) => {},
        }
    }
    m
}

fn find_block_max(b: &VCodeBlock) -> (m: u32)
    ensures
        m == block_max_vreg(b@),
{
    let mut passed: u32 = 0;
    for k in 0..b.succs.len()
        invariant
            passed == max_passed(b@.succs, k as int),
    {
        assert(b@.succs[k as int].1 == b.succs@[k as int].1@);
        let n: u32 = find_max_reg(&b.succs[k].1);
        if n > passed {
            passed = n;
        }
    }
    assert(b@.succs.len() == b.succs@.len());
    let params: u32 = find_max_reg(&b.params);
    let insts: u32 = find_max_vreg(&b.insts);
    let others: u32 = if passed > params {
        passed
    } else {
        params
    };
    if others > insts {
        others
    } else {
        insts
    }
}

fn contains_block(blocks: &Vec<Block>, b: Block) -> (r: bool)
    ensures
        r == blocks@.contains(b),
{
    for i in 0..blocks.len()
        invariant
            forall|j: int| 0 <= j < i ==> #[trigger] blocks@[j] != b,
    {
        if blocks[i] == b {
            assert(blocks@[i as int] == b);
            return true;
        }
    }
    false
}

/// The end of the first `k` stack slots.
pub open spec fn slots_end(slots: Seq<StackSlot>, k: int) -> int
    decreases k,
{
    if k <= 0 {
        0
    } else {
        let m = slots_end(slots, k - 1);
        let n = slots[k - 1].offset + slots[k - 1].size;
        if n > m {
            n
        } else {
            m
        }
    }
}

/// The size of the private frame: the incoming area, then the stack slots, each
/// rounded up to the frame's alignment.
pub open spec fn private_bytes(sig: SignatureView, slots: Seq<StackSlot>) -> int {
    spec_stack_locals_base(sig) + round_up(slots_end(slots, slots.len() as int), 16)
}

/// The size of the private frame, if it fits.
fn find_private_bytes(sig: &Signature, slots: &Vec<StackSlot>) -> (r: Option<u32>)
    requires
        areas_fit(sig@),
    ensures
        match r {
            Some(n) => n == private_bytes(sig@, slots@),
            None => private_bytes(sig@, slots@) > u32::MAX,
        },
{
    proof {
        areas_fit_parts(sig@);
    }
    let mut end: u64 = 0;
    for k in 0..slots.len()
        invariant
            end == slots_end(slots@, k as int),
            end <= 0x1_ffff_fffe,
    {
        let n: u64 = slots[k].offset as u64 + slots[k].size as u64;
        if n > end {
            end = n;
        }
    }
    proof {
        round_up_is_least_multiple(end as int, 16);
    }
    let locals: u64 = end + (16 - end % 16) % 16;
    let total: u64 = stack_locals_base(sig) as u64 + locals;
    if total > 0xffff_ffff {
        None
    } else {
        Some(total as u32)
    }
}

/// The blocks after the first passes: with explicit live-ins, received parameters
/// and return issues.
pub open spec fn blocks_prepared(code: Seq<BlockView>, entry: Block, sig: SignatureView, next: int) -> Option<
    (Seq<BBView>, int),
> {
    let succs = code_succs(code, entry);
    match code_blocks(code, entry, next) {
        None => None,
        Some((b0, n0)) => match live_ins_explicit(b0, succs, 0, n0) {
            None => None,
            Some((b1, n1)) => match params_prepared(
                b1,
                succs,
                0,
                sig.params.len() as int,
                n1,
            ) {
                None => None,
                Some((b2, n2)) => all_rewritten(IssueRets, b2, n2),
            },
        },
    }
}

/// The blocks after the frame is laid out and the types are resolved.
pub open spec fn blocks_framed(
    bbs: Seq<BBView>,
    succs: Map<usize, Seq<usize>>,
    sig: SignatureView,
    reg_types: Seq<Option<ir::Type>>,
    private: int,
    next: int,
) -> Option<(Seq<BBView>, int)> {
    match stack_args_lowered(bbs, 0, sig, private, 0, next) {
        None => None,
        Some((b1, n1)) => match all_rewritten(
            FrameLimits { root: 0, frame: (private - spec_stack_area_size(sig)) as u32 },
            b1,
            n1,
        ) {
            None => None,
            Some((b2, n2)) => types_resolved(b2, succs, 0, sig, reg_types, n2),
        },
    }
}

/// The blocks after the operands are put in order and the conditions fixed.
pub open spec fn blocks_ordered(bbs: Seq<BBView>, succs: Map<usize, Seq<usize>>, next: int) -> Option<
    (Seq<BBView>, int),
> {
    match all_rewritten(InsertDuplicates, bbs, next) {
        None => None,
        Some((b1, n1)) => match all_rewritten(ExpandEchoes, b1, n1) {
            None => None,
            Some((b2, n2)) => match all_rewritten(FixOrderings, b2, n2) {
                None => None,
                Some((b3, n3)) => conditions_fixed(Shape { bbs: b3, succs, root: 0 }, n3),
            },
        },
    }
}

/// Whether no queue of any block is delivered more operands than it holds.
pub open spec fn all_capacities_hold(bbs: Seq<BBView>) -> bool {
    forall|v: int| 0 <= v < bbs.len() ==> capacities_hold((#[trigger] bbs[v]).inst)
}

/// The blocks after the jumps are settled and all offsets are filled in.
pub open spec fn blocks_finished(bbs: Seq<BBView>, succs: Map<usize, Seq<usize>>, next: int) -> Option<
    (Seq<BBView>, int),
> {
    match jumps_settled(Shape { bbs, succs, root: 0 }, next) {
        None => None,
        Some((b1, n1)) => if all_capacities_hold(b1) {
            all_rewritten(SetTriggerOffsets, b1, n1)
        } else {
            None
        },
    }
}

/// The blocks after all passes.
pub open spec fn blocks_compiled(
    code: Seq<BlockView>,
    entry: Block,
    sig: SignatureView,
    reg_types: Seq<Option<ir::Type>>,
    private: int,
    next: int,
) -> Option<(Seq<BBView>, int)> {
    let succs = code_succs(code, entry);
    match blocks_prepared(code, entry, sig, next) {
        None => None,
        Some((b1, n1)) => match blocks_framed(b1, succs, sig, reg_types, private, n1) {
            None => None,
            Some((b2, n2)) => match blocks_ordered(b2, succs, n2) {
                None => None,
                Some((b3, n3)) => blocks_finished(b3, succs, n3),
            },
        },
    }
}

/// A graph of blocks after a pass, and the index of the next register.
spec fn after_pass(
    r: Result<VCodeCFG, CodegenError>,
    whole: Option<(Seq<BBView>, int)>,
    succs: Map<usize, Seq<usize>>,
    next: u32,
) -> bool {
    match r {
        Ok(c) => {
            &&& c.wf()
            &&& c.root == 0
            &&& c.succs() == succs
            &&& whole == Some((c.bbs(), next as int))
        },
        Err(e) => refused_typed(whole, e, next),
    }
}

proof fn framed_grows(
    bbs: Seq<BBView>,
    succs: Map<usize, Seq<usize>>,
    sig: SignatureView,
    reg_types: Seq<Option<ir::Type>>,
    private: int,
    next: int,
)
    ensures
        blocks_framed(bbs, succs, sig, reg_types, private, next) matches Some((_, n)) ==> n >= next,
{
    stack_args_grow(bbs, 0, sig, private, 0, next);
    if let Some((b1, n1)) = stack_args_lowered(bbs, 0, sig, private, 0, next) {
        let frame = FrameLimits { root: 0, frame: (private - spec_stack_area_size(sig)) as u32 };
        rewritten_keeps_blocks(frame, b1, 0, n1);
        if let Some((b2, n2)) = all_rewritten(frame, b1, n1) {
            types_resolved_grow(b2, succs, 0, sig, reg_types, n2);
        }
    }
}

proof fn ordered_grows(bbs: Seq<BBView>, succs: Map<usize, Seq<usize>>, next: int)
    ensures
        blocks_ordered(bbs, succs, next) matches Some((_, n)) ==> n >= next,
{
    rewritten_keeps_blocks(InsertDuplicates, bbs, 0, next);
    if let Some((b1, n1)) = all_rewritten(InsertDuplicates, bbs, next) {
        rewritten_keeps_blocks(ExpandEchoes, b1, 0, n1);
        if let Some((b2, n2)) = all_rewritten(ExpandEchoes, b1, n1) {
            rewritten_keeps_blocks(FixOrderings, b2, 0, n2);
            if let Some((b3, n3)) = all_rewritten(FixOrderings, b2, n2) {
                fixed_grows(Shape { bbs: b3, succs, root: 0 }, n3);
            }
        }
    }
}

proof fn fixed_grows(g: Shape, next: int)
    ensures
        conditions_fixed(g, next) matches Some((_, n)) ==> n >= next,
{
    if let Some(layout) = g.layout() {
        conditions_grow(g.bbs, laid_out(g.bbs, layout), 0, next);
    }
}

proof fn finished_grows(bbs: Seq<BBView>, succs: Map<usize, Seq<usize>>, next: int)
    ensures
        blocks_finished(bbs, succs, next) matches Some((_, n)) ==> n >= next,
{
    rounds_grow((bbs, next, false), succs, 0);
    if let Some((b1, n1)) = jumps_settled(Shape { bbs, succs, root: 0 }, next) {
        rewritten_keeps_blocks(SetTriggerOffsets, b1, 0, n1);
    }
}

/// Builds the graph and runs the first passes.
fn prepare_blocks(vcode: &VCode, sig: &Signature, vregs: &mut VRegAllocator) -> (r: Result<
    VCodeCFG,
    CodegenError,
>)
    requires
        vcode.wf(),
        old(vregs).wf(),
    ensures
        final(vregs).wf(),
        after_pass(
            r,
            blocks_prepared(
                block_views(vcode.blocks@),
                vcode.entry,
                sig@,
                old(vregs).next as int,
            ),
            code_succs(block_views(vcode.blocks@), vcode.entry),
            final(vregs).next,
        ),
{
    let ghost code = block_views(vcode.blocks@);
    let ghost entry = vcode.entry;
    let ghost succs = code_succs(code, entry);
    let ghost next = vregs.next as int;
    proof {
        if let Some((b0, n0)) = code_blocks(code, entry, next) {
            live_ins_grow(b0, succs, 0, n0);
            if let Some((b1, n1)) = live_ins_explicit(b0, succs, 0, n0) {
                prepared_grows(b1, succs, 0, sig@.params.len() as int, n1);
                if let Some((b2, n2)) = params_prepared(
                    b1,
                    succs,
                    0,
                    sig@.params.len() as int,
                    n1,
                ) {
                    rewritten_keeps_blocks(IssueRets, b2, 0, n2);
                }
            }
        }
    }
    let cfg = match VCodeCFG::from_vcode(vcode, vregs) {
        Ok(c) => c,
        Err(e) => {
            return Err(e);
        },
    };
    let cfg = match make_live_ins_explicit(cfg, vregs) {
        Ok(c) => c,
        Err(e) => {
            return Err(e);
        },
    };
    let cfg = match prepare_block_params(cfg, sig, vregs) {
        Ok(c) => c,
        Err(e) => {
            return Err(e);
        },
    };
    insert_rets(cfg, vregs)
}

/// Lays out the frame and resolves the types.
fn frame_blocks(
    cfg: VCodeCFG,
    sig: &Signature,
    reg_types: Vec<Option<ir::Type>>,
    private: u32,
    vregs: &mut VRegAllocator,
) -> (r: Result<VCodeCFG, CodegenError>)
    requires
        cfg.wf(),
        cfg.root == 0,
        old(vregs).wf(),
        areas_fit(sig@),
        defaults_wf(reg_types@),
        private >= spec_stack_area_size(sig@),
    ensures
        final(vregs).wf(),
        after_pass(
            r,
            blocks_framed(
                cfg.bbs(),
                cfg.succs(),
                sig@,
                reg_types@,
                private as int,
                old(vregs).next as int,
            ),
            cfg.succs(),
            final(vregs).next,
        ),
{
    let ghost bbs = cfg.bbs();
    let ghost succs = cfg.succs();
    let ghost next = vregs.next as int;
    proof {
        areas_fit_parts(sig@);
        if let Some((b1, n1)) = stack_args_lowered(bbs, 0, sig@, private as int, 0, next) {
            let frame = FrameLimits {
                root: 0,
                frame: (private - spec_stack_area_size(sig@)) as u32,
            };
            rewritten_keeps_blocks(frame, b1, 0, n1);
            if let Some((b2, n2)) = all_rewritten(frame, b1, n1) {
                types_resolved_grow(b2, succs, 0, sig@, reg_types@, n2);
            }
        }
    }
    let incoming: u32 = stack_area_size(sig);
    let cfg = match lower_stack_args(cfg, sig, private, vregs) {
        Ok(c) => c,
        Err(e) => {
            return Err(e);
        },
    };
    let cfg = match insert_frame_limits(cfg, private - incoming, vregs) {
        Ok(c) => c,
        Err(e) => {
            return Err(e);
        },
    };
    resolve_instruction_types(cfg, reg_types, sig, vregs)
}

/// Puts the operands in order and fixes the conditions.
fn order_blocks(cfg: VCodeCFG, vregs: &mut VRegAllocator) -> (r: Result<VCodeCFG, CodegenError>)
    requires
        cfg.wf(),
        cfg.root == 0,
        old(vregs).wf(),
    ensures
        final(vregs).wf(),
        after_pass(
            r,
            blocks_ordered(cfg.bbs(), cfg.succs(), old(vregs).next as int),
            cfg.succs(),
            final(vregs).next,
        ),
{
    let ghost bbs = cfg.bbs();
    let ghost succs = cfg.succs();
    let ghost next = vregs.next as int;
    proof {
        if let Some((b1, n1)) = all_rewritten(InsertDuplicates, bbs, next) {
            rewritten_keeps_blocks(ExpandEchoes, b1, 0, n1);
            if let Some((b2, n2)) = all_rewritten(ExpandEchoes, b1, n1) {
                rewritten_keeps_blocks(FixOrderings, b2, 0, n2);
                if let Some((b3, n3)) = all_rewritten(FixOrderings, b2, n2) {
                    fixed_grows(Shape { bbs: b3, succs, root: 0 }, n3);
                }
            }
        }
    }
    let cfg = match insert_duplicates(cfg, vregs) {
        Ok(c) => c,
        Err(e) => {
            return Err(e);
        },
    };
    let cfg = match expand_echoes(cfg, vregs) {
        Ok(c) => c,
        Err(e) => {
            return Err(e);
        },
    };
    let cfg = match fix_orderings(cfg, vregs) {
        Ok(c) => c,
        Err(e) => {
            return Err(e);
        },
    };
    fix_branch_conditions(cfg, vregs)
}

/// Settles the jumps and fills in all offsets.
fn finish_blocks(cfg: VCodeCFG, vregs: &mut VRegAllocator) -> (r: Result<VCodeCFG, CodegenError>)
    requires
        cfg.wf(),
        cfg.root == 0,
        old(vregs).wf(),
    ensures
        final(vregs).wf(),
        ({
            let whole = blocks_finished(cfg.bbs(), cfg.succs(), old(vregs).next as int);
            ||| after_pass(r, whole, cfg.succs(), final(vregs).next)
            ||| {
                &&& whole is None
                &&& r matches Err(CodegenError::CodeTooLarge)
                &&& code_runs_out(
                    Shape { bbs: cfg.bbs(), succs: cfg.succs(), root: 0 },
                    old(vregs).next as int,
                )
            }
        }),
{
    let ghost bbs = cfg.bbs();
    let ghost succs = cfg.succs();
    let ghost next = vregs.next as int;
    proof {
        if let Some((b1, n1)) = jumps_settled(Shape { bbs, succs, root: 0 }, next) {
            rewritten_keeps_blocks(SetTriggerOffsets, b1, 0, n1);
        }
    }
    let cfg = match settle_jumps(cfg, vregs) {
        Ok(c) => c,
        Err(e) => {
            return Err(e);
        },
    };
    match assert_queue_capacities(&cfg) {
        Ok(()) => {},
        Err(e) => {
            assert(!all_capacities_hold(cfg.bbs()));
            return Err(e);
        },
    }
    set_trigger_offsets(cfg, vregs)
}

/// The assembled code of blocks that all passes are done with.
pub open spec fn blocks_assembled(bbs: Seq<BBView>, succs: Map<usize, Seq<usize>>) -> Option<
    (Seq<Instruction>, Seq<u32>, Seq<crate::emit::Reloc>),
> {
    match (Shape { bbs, succs, root: 0 }).layout() {
        None => None,
        Some(layout) => match built_from(bbs, layout, 0) {
            None => None,
            Some(blocks) => assembled(blocks),
        },
    }
}

/// The code of a function whose fresh registers start at `next`: the
/// instructions, the addresses of the blocks and the references to symbols, and
/// the index of the next register; `None` where the code breaks what a pass
/// relies on.
pub open spec fn code_compiled(
    code: Seq<BlockView>,
    entry: Block,
    sig: SignatureView,
    reg_types: Seq<Option<ir::Type>>,
    slots: Seq<StackSlot>,
    next: int,
) -> Option<((Seq<Instruction>, Seq<u32>, Seq<crate::emit::Reloc>), int)> {
    let private = private_bytes(sig, slots);
    if private > u32::MAX {
        None
    } else {
        match blocks_compiled(code, entry, sig, reg_types, private, next) {
            None => None,
            Some((bbs, n)) => match blocks_assembled(bbs, code_succs(code, entry)) {
                Some(c) => Some((c, n)),
                None => None,
            },
        }
    }
}

/// The code of a function: the instructions, the addresses of the blocks and the
/// references to symbols; `None` where the code breaks what a pass relies on.
pub open spec fn function_compiled(
    code: Seq<BlockView>,
    entry: Block,
    sig: SignatureView,
    reg_types: Seq<Option<ir::Type>>,
    slots: Seq<StackSlot>,
) -> Option<((Seq<Instruction>, Seq<u32>, Seq<crate::emit::Reloc>), int)> {
    code_compiled(code, entry, sig, reg_types, slots, first_free(code, entry))
}

/// Whether the code of a function gets too long, while its jumps are settled or
/// when it is emitted.
pub open spec fn code_overflows(
    code: Seq<BlockView>,
    entry: Block,
    sig: SignatureView,
    reg_types: Seq<Option<ir::Type>>,
    slots: Seq<StackSlot>,
    next: int,
) -> bool {
    let succs = code_succs(code, entry);
    let private = private_bytes(sig, slots);
    match blocks_prepared(code, entry, sig, next) {
        None => false,
        Some((b1, n1)) => match blocks_framed(b1, succs, sig, reg_types, private, n1) {
            None => false,
            Some((b2, n2)) => match blocks_ordered(b2, succs, n2) {
                None => false,
                Some((b3, n3)) => {
                    ||| code_runs_out(Shape { bbs: b3, succs, root: 0 }, n3)
                    ||| {
                        &&& blocks_finished(b3, succs, n3) matches Some((b4, _))
                        &&& (Shape { bbs: b4, succs, root: 0 }).layout() matches Some(layout)
                        &&& built_from(b4, layout, 0) matches Some(blocks)
                        &&& blocks_overflow(no_code(), blocks, 0)
                    }
                },
            },
        },
    }
}

/// A Scry backend.
pub struct ScryBackend {
    pub triple: Triple,
    pub flags: Flags,
    pub isa_flags: Flags,
}

impl ScryBackend {
    /// Creates a new backend with the given (shared) flags.
    pub fn new_with_flags(triple: Triple, flags: Flags, isa_flags: Flags) -> (r: ScryBackend)
        ensures
            r.triple == triple,
            r.flags == flags,
            r.isa_flags == isa_flags,
    {
        ScryBackend { triple, flags, isa_flags }
    }

    /// The name of the back end.
    pub fn name(&self) -> (r: &'static str)
        ensures
            r@ == "scry"@,
    {
        "scry"
    }

    /// What code is generated for.
    pub fn triple(&self) -> (r: &Triple)
        ensures
            *r == self.triple,
    {
        &self.triple
    }

    /// The shared flags.
    pub fn flags(&self) -> (r: &Flags)
        ensures
            *r == self.flags,
    {
        &self.flags
    }

    /// The flags of the machine.
    pub fn isa_flags(&self) -> (r: &Flags)
        ensures
            *r == self.isa_flags,
    {
        &self.isa_flags
    }

    /// Whether the machine has fused multiplication and addition: it has not.
    pub fn has_native_fma(&self) -> (r: bool)
        ensures
            r == false,
    {
        false
    }

    /// Whether the machine rounds: it does not.
    pub fn has_round(&self) -> (r: bool)
        ensures
            r == false,
    {
        false
    }

    /// The alignment of functions.
    pub fn function_alignment(&self) -> (r: FunctionAlignment)
        ensures
            r.minimum == 2,
            r.preferred == 2,
    {
        MInst::function_alignment()
    }

    /// The alignment of pages, as a power of two.
    pub fn page_size_align_log2(&self) -> (r: u8)
        ensures
            r == 12,
    {
        12
    }

    /// How arguments are extended by default: not at all.
    pub fn default_argument_extension(&self) -> (r: ArgumentExtension)
        ensures
            r is NoExt,
    {
        ArgumentExtension::NoExt
    }

    /// Whether a type of the function's registers has no registers, and which.
    pub open spec fn unsupported(reg_types: Seq<Option<ir::Type>>, t: ir::Type) -> bool {
        exists|i: int|
            0 <= i < reg_types.len() && #[trigger] reg_types[i] == Some(t)
                && !crate::abi::is_machine_int(t)
    }

    /// The lowered code with an allocator for further registers.
    pub fn compile_vcode(&self, vcode: VCode) -> (r: Result<(VCode, VRegAllocator), CodegenError>)
        requires
            vcode.wf(),
        ensures
            match r {
                Ok((code, vregs)) => {
                    &&& code == vcode
                    &&& vregs.wf()
                    &&& vregs.next == first_free(block_views(vcode.blocks@), vcode.entry)
                },
                Err(e) => e is CodeTooLarge && first_free(block_views(vcode.blocks@), vcode.entry)
                    > VREG_LIMIT,
            },
    {
        match vcode.new_vregs() {
            Ok(vregs) => Ok((vcode, vregs)),
            Err(e) => Err(e),
        }
    }

    /// Turns lowered code into code for the operand queues and emits it, with
    /// fresh registers from the given allocator.
    pub fn compile_code(&self, func: FunctionCode, vregs: &mut VRegAllocator) -> (r: Result<
        CompiledCode,
        CodegenError,
    >)
        requires
            func.vcode.wf(),
            areas_fit(func.sig@),
            defaults_wf(func.reg_types@),
            old(vregs).wf(),
        ensures
            final(vregs).wf(),
            ({
                let code = block_views(func.vcode.blocks@);
                let entry = func.vcode.entry;
                let next = old(vregs).next as int;
                let whole = code_compiled(
                    code,
                    entry,
                    func.sig@,
                    func.reg_types@,
                    func.slots@,
                    next,
                );
                match r {
                    Ok(c) => whole == Some(
                        ((c.insts@, c.bb_starts@, c.relocs@), final(vregs).next as int),
                    ),
                    Err(e) => {
                        ||| refused_typed(whole, e, final(vregs).next)
                        ||| whole is None && e is CodeTooLarge && code_overflows(
                            code,
                            entry,
                            func.sig@,
                            func.reg_types@,
                            func.slots@,
                            next,
                        )
                    },
                }
            }),
    {
        let FunctionCode { vcode, sig, reg_types, slots } = func;
        let ghost code = block_views(vcode.blocks@);
        let ghost entry = vcode.entry;
        let ghost succs = code_succs(code, entry);
        let ghost next = vregs.next as int;
        proof {
            areas_fit_parts(sig@);
            slots_end_nonneg(slots@, slots@.len() as int);
            round_up_is_least_multiple(slots_end(slots@, slots@.len() as int), 16);
        }
        let private: u32 = match find_private_bytes(&sig, &slots) {
            Some(n) => n,
            None => {
                return Err(CodegenError::Malformed);
            },
        };
        let ghost types = reg_types@;
        proof {
            if let Some((b1, n1)) = blocks_prepared(code, entry, sig@, next) {
                framed_grows(b1, succs, sig@, types, private as int, n1);
                if let Some((b2, n2)) = blocks_framed(
                    b1,
                    succs,
                    sig@,
                    types,
                    private as int,
                    n1,
                ) {
                    ordered_grows(b2, succs, n2);
                    if let Some((b3, n3)) = blocks_ordered(b2, succs, n2) {
                        finished_grows(b3, succs, n3);
                    }
                }
            }
        }
        let cfg = match prepare_blocks(&vcode, &sig, vregs) {
            Ok(c) => c,
            Err(e) => {
                return Err(e);
            },
        };
        let cfg = match frame_blocks(cfg, &sig, reg_types, private, vregs) {
            Ok(c) => c,
            Err(e) => {
                return Err(e);
            },
        };
        let cfg = match order_blocks(cfg, vregs) {
            Ok(c) => c,
            Err(e) => {
                return Err(e);
            },
        };
        let cfg = match finish_blocks(cfg, vregs) {
            Ok(c) => c,
            Err(e) => {
                return Err(e);
            },
        };
        let blocks = match cfg.build_vcode() {
            Ok(blocks) => blocks,
            Err(e) => {
                return Err(e);
            },
        };
        match assemble(&blocks) {
            Ok(c) => Ok(c),
            Err(e) => Err(e),
        }
    }

    /// Compiles a function: turns its lowered code into code for the operand
    /// queues and emits it.
    pub fn compile_function(&self, func: FunctionCode) -> (r: Result<CompiledCode, CodegenError>)
        requires
            func.vcode.wf(),
            areas_fit(func.sig@),
        ensures
            ({
                let code = block_views(func.vcode.blocks@);
                let free = first_free(code, func.vcode.entry);
                let whole = function_compiled(
                    code,
                    func.vcode.entry,
                    func.sig@,
                    func.reg_types@,
                    func.slots@,
                );
                match r {
                    Ok(c) => {
                        &&& defaults_wf(func.reg_types@)
                        &&& free <= VREG_LIMIT
                        &&& whole is Some
                        &&& whole->Some_0.0 == (c.insts@, c.bb_starts@, c.relocs@)
                        &&& whole->Some_0.1 <= VREG_LIMIT
                    },
                    Err(CodegenError::UnsupportedType(t)) => ScryBackend::unsupported(
                        func.reg_types@,
                        t,
                    ),
                    Err(e) => {
                        &&& defaults_wf(func.reg_types@)
                        &&& free > VREG_LIMIT ==> e is CodeTooLarge
                        // Where the result is `None`, registers or code space may
                        // run out before the reason for that is met.
                        &&& free <= VREG_LIMIT ==> (whole matches Some((_, n)) ==> n > VREG_LIMIT
                            && e is CodeTooLarge)
                    },
                }
            }),
    {
        match find_unsupported(&func.reg_types) {
            Some(t) => {
                return Err(CodegenError::UnsupportedType(t));
            },
            None => {},
        }
        let FunctionCode { vcode, sig, reg_types, slots } = func;
        let (vcode, mut vregs) = match self.compile_vcode(vcode) {
            Ok(found) => found,
            Err(e) => {
                return Err(e);
            },
        };
        self.compile_code(FunctionCode { vcode, sig, reg_types, slots }, &mut vregs)
    }
}

proof fn slots_end_nonneg(slots: Seq<StackSlot>, k: int)
    ensures
        0 <= slots_end(slots, k),
    decreases k,
{
    if k > 0 {
        slots_end_nonneg(slots, k - 1);
    }
}

/// The first type of a register that the machine has no registers for.
fn find_unsupported(reg_types: &Vec<Option<ir::Type>>) -> (r: Option<ir::Type>)
    ensures
        match r {
            Some(t) => ScryBackend::unsupported(reg_types@, t),
            None => defaults_wf(reg_types@),
        },
{
    for i in 0..reg_types.len()
        invariant
            forall|j: int|
                0 <= j < i ==> (#[trigger] reg_types@[j] matches Some(t)
                    ==> crate::abi::is_machine_int(t)),
    {
        match reg_types[i] {
            Some(t) => {
                if !has_registers(t) {
                    assert(reg_types@[i as int] == Some(t));
                    return Some(t);
                }
            },
            None => {},
        }
    }
    None
}

/// The back end for a target; the target must be the machine's own.
pub fn isa_builder(triple: Triple, flags: Flags, isa_flags: Flags) -> (r: ScryBackend)
    requires
        triple.architecture is Scry,
    ensures
        r.triple == triple,
        r.flags == flags,
        r.isa_flags == isa_flags,
{
    ScryBackend::new_with_flags(triple, flags, isa_flags)
}

} // verus!
