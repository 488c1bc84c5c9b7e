//! Lowering of stack accesses and jump tables.
use crate::abi::{areas_fit, areas_fit_parts, spec_stack_locals_base, stack_locals_base};
use crate::inst::{views, BinaryAluOp, IssueKind, MInst, MInstOf, MInstView};
use crate::ir::{IntCC, Signature, Type};
use crate::isatype::IsaType;
use crate::reg::{ran_out, vreg, CodegenError, MachLabel, Reg, VRegAllocator, VREG_LIMIT};
use vstd::prelude::*;

verus! {

broadcast use {crate::inst::views_push, crate::inst::views_add};

/// The scale with a power of two.
pub open spec fn scale_of_pow2(p: int) -> int
    decreases p,
{
    if p <= 0 {
        1
    } else if p == 1 {
        2
    } else if p == 2 {
        4
    } else if p == 3 {
        8
    } else {
        2 * scale_of_pow2(p - 1)
    }
}

proof fn scale_is_shift(p: u32)
    requires
        p <= 31,
    ensures
        scale_of_pow2(p as int) == 1u32 << p,
        1u32 << p > 0,
    decreases p,
{
    assert(1u32 << 0u32 == 1 && 1u32 << 1u32 == 2 && 1u32 << 2u32 == 4 && 1u32 << 3u32 == 8)
        by (bit_vector);
    if p > 3 {
        let q: u32 = (p - 1) as u32;
        scale_is_shift(q);
        assert((1u32 << p) == 2 * (1u32 << q)) by (bit_vector)
            requires
                3 < p <= 31,
                q == p - 1,
        ;
    }
}

/// Whether an offset is reached by an index of a scale.
pub open spec fn reaches(frame_offset: int, scale: int) -> bool {
    frame_offset >= 0 && frame_offset % scale == 0 && frame_offset / scale <= 31
}

/// The largest scale of at most `p`, as a power of two, that reaches the offset,
/// and the index.
pub open spec fn scaled_below(frame_offset: int, p: int) -> Option<(u16, u16)>
    decreases p + 1,
{
    if p < 0 {
        None
    } else if reaches(frame_offset, scale_of_pow2(p)) {
        Some((p as u16, (frame_offset / scale_of_pow2(p)) as u16))
    } else {
        scaled_below(frame_offset, p - 1)
    }
}

/// The offset as a scale and an index, the scale being as large as possible.
pub open spec fn spec_scaled_index(frame_offset: int) -> Option<(u16, u16)> {
    scaled_below(frame_offset, 3)
}

proof fn scaled_below_is_largest(frame_offset: int, p: int)
    requires
        p <= 3,
    ensures
        match scaled_below(frame_offset, p) {
            Some((s, i)) => {
                &&& s <= p
                &&& i <= 31
                &&& i * scale_of_pow2(s as int) == frame_offset
                &&& forall|q: int| s < q <= p ==> !reaches(frame_offset, #[trigger] scale_of_pow2(q))
            },
            None => forall|q: int|
                0 <= q <= p ==> !reaches(frame_offset, #[trigger] scale_of_pow2(q)),
        },
    decreases p + 1,
{
    if p >= 0 {
        let scale = scale_of_pow2(p);
        if reaches(frame_offset, scale) {
            vstd::arithmetic::div_mod::lemma_fundamental_div_mod(frame_offset, scale);
            vstd::arithmetic::div_mod::lemma_div_pos_is_pos(frame_offset, scale);
            assert(scale * (frame_offset / scale) == (frame_offset / scale) * scale)
                by (nonlinear_arith);
        } else {
            scaled_below_is_largest(frame_offset, p - 1);
        }
    }
}

/// A scaled index stands for exactly its offset, and no larger scale reaches the
/// offset. Where there is none, no scale reaches it.
pub proof fn scaled_index_is_exact(frame_offset: int)
    ensures
        match spec_scaled_index(frame_offset) {
            Some((s, i)) => {
                &&& s <= 3
                &&& i <= 31
                &&& i * scale_of_pow2(s as int) == frame_offset
                &&& forall|q: int| s < q <= 3 ==> !reaches(frame_offset, #[trigger] scale_of_pow2(q))
            },
            None => forall|q: int|
                0 <= q <= 3 ==> !reaches(frame_offset, #[trigger] scale_of_pow2(q)),
        },
{
    scaled_below_is_largest(frame_offset, 3);
}

/// The scale with a power of two.
pub fn scale_for(p: u16) -> (r: u32)
    requires
        p <= 31,
    ensures
        r == scale_of_pow2(p as int),
        r > 0,
{
    proof {
        scale_is_shift(p as u32);
    }
    1u32 << p as u32
}

/// Expresses the given frame offset as a (power-of-two scale, index) pair
/// encodable by the stack instructions, trying the largest scales first. Returns
/// `None` if the offset is not reachable by any scaled index.
pub fn scaled_index(frame_offset: i64) -> (r: Option<(u16, u16)>)
    ensures
        r == spec_scaled_index(frame_offset as int),
{
    reveal_with_fuel(scaled_below, 5);
    if frame_offset < 0 {
        return None;
    }
    if frame_offset % 8 == 0 && frame_offset / 8 <= 31 {
        return Some((3, (frame_offset / 8) as u16));
    }
    if frame_offset % 4 == 0 && frame_offset / 4 <= 31 {
        return Some((2, (frame_offset / 4) as u16));
    }
    if frame_offset % 2 == 0 && frame_offset / 2 <= 31 {
        return Some((1, (frame_offset / 2) as u16));
    }
    if frame_offset <= 31 {
        return Some((0, frame_offset as u16));
    }
    None
}

/// The scaled stack index for an access of `size` bytes at `frame_offset`, if
/// the offset is a size-aligned index in range of the index field.
pub open spec fn spec_access_index(frame_offset: int, size: int) -> Option<u16> {
    if reaches(frame_offset, size) {
        Some((frame_offset / size) as u16)
    } else {
        None
    }
}

/// The scaled stack index for an access of `size` bytes at `frame_offset`, if
/// the offset is a size-aligned index in range of the index field.
pub fn access_index(frame_offset: i64, size: u32) -> (r: Option<u16>)
    requires
        size > 0,
    ensures
        r == spec_access_index(frame_offset as int, size as int),
{
    if frame_offset < 0 {
        return None;
    }
    let size: i64 = size as i64;
    proof {
        vstd::arithmetic::div_mod::lemma_div_pos_is_pos(frame_offset as int, size as int);
    }
    if frame_offset % size == 0 && frame_offset / size <= 31 {
        Some((frame_offset / size) as u16)
    } else {
        None
    }
}

/// The instructions that materialize the address of a frame offset, the register
/// that holds it, and the index of the next register.
pub open spec fn stack_addr(frame_offset: int, next: int) -> (Seq<MInstView>, Reg, int) {
    match spec_scaled_index(frame_offset) {
        Some((scale_pow2, idx)) => (
            seq![MInstOf::SAddr { rd: vreg(next), scale_pow2, idx }],
            vreg(next),
            next + 1,
        ),
        None => (
            seq![
                MInstOf::SAddr { rd: vreg(next), scale_pow2: 0, idx: 0 },
                MInstOf::Const {
                    ty: IsaType::Invalid,
                    rd: vreg(next + 1),
                    imm: frame_offset as i64,
                },
                MInstOf::BinaryAlu {
                    op: BinaryAluOp::IntAddWrap,
                    rd: vreg(next + 2),
                    rs1: vreg(next),
                    rs2: vreg(next + 1),
                },
            ],
            vreg(next + 2),
            next + 3,
        ),
    }
}

/// Materializes the address of the given frame offset.
///
/// Gives a stack address reaching the offset as a scaled index. If the offset
/// cannot be expressed as a scaled index, the frame base address (index 0) is
/// materialized and the offset added onto it.
pub fn make_stack_addr(frame_offset: i64, vregs: &mut VRegAllocator) -> (r: Result<
    (Vec<MInst>, Reg),
    CodegenError,
>)
    requires
        old(vregs).wf(),
    ensures
        final(vregs).wf(),
        ({
            let s = stack_addr(frame_offset as int, old(vregs).next as int);
            match r {
                Ok((insts, addr)) => s == (views(insts@), addr, final(vregs).next as int),
                Err(e) => s.2 > VREG_LIMIT && ran_out(e, final(vregs).next),
            }
        }),
{
    let ghost s = stack_addr(frame_offset as int, vregs.next as int);
    let mut insts: Vec<MInst> = Vec::new();
    match scaled_index(frame_offset) {
        Some((scale_pow2, idx)) => {
            let rd = match vregs.fresh() {
                Ok(r) => r,
                Err(e) => {
                    return Err(e);
                },
            };
            insts.push(MInst::SAddr { rd, scale_pow2, idx });
            assert(views(insts@) =~= s.0);
            Ok((insts, rd))
        },
        None => {
            let base = match vregs.fresh() {
                Ok(r) => r,
                Err(e) => {
                    return Err(e);
                },
            };
            let off = match vregs.fresh() {
                Ok(r) => r,
                Err(e) => {
                    return Err(e);
                },
            };
            let sum = match vregs.fresh() {
                Ok(r) => r,
                Err(e) => {
                    return Err(e);
                },
            };
            insts.push(MInst::SAddr { rd: base, scale_pow2: 0, idx: 0 });
            insts.push(MInst::Const { ty: IsaType::Invalid, rd: off, imm: frame_offset });
            insts.push(
                MInst::BinaryAlu { op: BinaryAluOp::IntAddWrap, rd: sum, rs1: base, rs2: off },
            );
            assert(views(insts@) =~= s.0);
            Ok((insts, sum))
        },
    }
}

/// A stack access.
#[derive(Clone, Copy, PartialEq, Eq, Structural, Debug)]
pub enum StackAccess {
    /// Store the register's value.
    Store(Reg),
    /// Load into the register. The load's type is left for type resolution to
    /// fill in from the destination's uses.
    Load(Reg),
}

/// The access by a scaled index of the frame.
pub open spec fn indexed_access(access: StackAccess, idx: u16) -> MInstView {
    match access {
        StackAccess::Store(rs) => MInstOf::StoreStack { rs, idx },
        StackAccess::Load(rd) => MInstOf::LoadStack { ty: IsaType::Invalid, rd, idx },
    }
}

/// The access through an address.
pub open spec fn addressed_access(access: StackAccess, addr: Reg) -> MInstView {
    match access {
        StackAccess::Store(rs) => MInstOf::Store { rd: addr, rs },
        StackAccess::Load(rd) => MInstOf::Load { ty: IsaType::Invalid, rd, rs: addr, out: 0 },
    }
}

/// The instructions of a stack access of a scale at a frame offset, and the
/// index of the next register.
pub open spec fn stack_access(frame_offset: int, scale: int, access: StackAccess, next: int) -> (
    Seq<MInstView>,
    int,
) {
    match spec_access_index(frame_offset, scale) {
        Some(idx) => (seq![indexed_access(access, idx)], next),
        None => {
            let (insts, addr, n) = stack_addr(frame_offset, next);
            (insts.push(addressed_access(access, addr)), n)
        },
    }
}

/// Resolves a stack access of the given size at the given frame offset into
/// instructions, by reach:
/// 1. a stack access indexed by the accessed size,
/// 2. a stack address of some other scale plus a plain memory access,
/// 3. full address materialization, frame base + offset.
pub fn stack_access_insts(
    frame_offset: i64,
    size: u32,
    access: StackAccess,
    vregs: &mut VRegAllocator,
) -> (r: Result<Vec<MInst>, CodegenError>)
    requires
        old(vregs).wf(),
        size > 0,
    ensures
        final(vregs).wf(),
        ({
            let s = stack_access(
                frame_offset as int,
                size as int,
                access,
                old(vregs).next as int,
            );
            match r {
                Ok(insts) => s == (views(insts@), final(vregs).next as int),
                Err(e) => s.1 > VREG_LIMIT && ran_out(e, final(vregs).next),
            }
        }),
{
    let ghost s = stack_access(frame_offset as int, size as int, access, vregs.next as int);
    match access_index(frame_offset, size) {
        Some(idx) => {
            let mut insts: Vec<MInst> = Vec::new();
            insts.push(
                match access {
                    StackAccess::Store(rs) => MInst::StoreStack { rs, idx },
                    StackAccess::Load(rd) => MInst::LoadStack { ty: IsaType::Invalid, rd, idx },
                },
            );
            assert(views(insts@) =~= s.0);
            Ok(insts)
        },
        None => match make_stack_addr(frame_offset, vregs) {
            Ok((mut insts, addr)) => {
                insts.push(
                    match access {
                        StackAccess::Store(rs) => MInst::Store { rd: addr, rs },
                        StackAccess::Load(rd) => MInst::Load {
                            ty: IsaType::Invalid,
                            rd,
                            rs: addr,
                            out: 0,
                        },
                    },
                );
                Ok(insts)
            },
            Err(e) => Err(e),
        },
    }
}

/// A value of the function: the register that holds it and its type.
#[derive(Clone, Copy, PartialEq, Eq, Structural, Debug)]
pub struct ValueData {
    pub reg: Reg,
    pub ty: Type,
}

/// The values of a function.
pub struct DataFlowGraph {
    pub values: Vec<ValueData>,
}

/// The context of lowering: the function's signature, its values, the offsets of
/// its stack slots from the first, and the instructions emitted so far.
pub struct ScryIsleContext {
    pub sig: Signature,
    pub values: DataFlowGraph,
    pub slot_offsets: Vec<u32>,
    pub emitted: Vec<MInst>,
    pub vregs: VRegAllocator,
}

/// The cases of a jump table from the `k`th on: each compares the index with the
/// case's number. Each takes two registers, from `next` on.
pub open spec fn table_tests(idx: Reg, cases: int, k: int, next: int) -> Seq<MInstView>
    decreases cases - k,
{
    if k >= cases {
        Seq::empty()
    } else {
        seq![
            MInstOf::Const { ty: IsaType::Invalid, rd: vreg(next), imm: k as i64 },
            MInstOf::IntCmp { cc: IntCC::Equal, rd: vreg(next + 1), rs1: idx, rs2: vreg(next) },
        ] + table_tests(idx, cases, k + 1, next + 2)
    }
}

/// The conditional issues of the cases: each is taken where its test holds.
pub open spec fn table_issues(link: Reg, targets: Seq<MachLabel>, next: int) -> Seq<MInstView> {
    Seq::new(
        (targets.len() - 1) as nat,
        |k: int|
            MInstOf::JumpIssue {
                link,
                dst: targets[k + 1],
                kind: IssueKind::Branch { dir: false, cond: vreg(next + 2 * k + 1) },
                trig: 0,
            },
    )
}

/// A jump table: the tests, the default's issue, the cases' issues, and the
/// shared trigger.
pub open spec fn br_table(idx: Reg, targets: Seq<MachLabel>, args: Seq<Reg>, next: int) -> Seq<
    MInstView,
> {
    let cases = targets.len() - 1;
    let link = vreg(next + 2 * cases);
    let default_issue: MInstView = MInstOf::JumpIssue {
        link,
        dst: targets[0],
        kind: IssueKind::Jump,
        trig: 0,
    };
    let trigger: MInstView = MInstOf::JumpTrigger { link, args };
    table_tests(idx, cases, 0, next) + seq![default_issue] + table_issues(link, targets, next)
        + seq![trigger]
}

impl ScryIsleContext {
    /// The allocator's invariant, and the signature's areas fit.
    pub open spec fn wf(&self) -> bool {
        self.vregs.wf() && areas_fit(self.sig@)
    }

    /// The frame offset of a location in a stack slot: the slots start at the
    /// locals base.
    pub open spec fn slot_location(&self, ss: int, off: int) -> int {
        spec_stack_locals_base(self.sig@) + self.slot_offsets@[ss] + off
    }

    /// The values of the function.
    pub fn dfg(&self) -> (r: &DataFlowGraph)
        ensures
            *r == self.values,
    {
        &self.values
    }

    /// The frame offset (relative to the frame base) of the given stack slot
    /// location. Negative offsets (possible through an out-of-bounds access
    /// offset) are represented as-is and can only be reached through address
    /// materialization, never through a scaled index.
    pub fn stack_frame_offset(&self, ss: usize, slot_off: i32, off: i32) -> (r: i64)
        requires
            self.wf(),
            ss < self.slot_offsets@.len(),
        ensures
            r == spec_stack_locals_base(self.sig@) + self.slot_offsets@[ss as int] + slot_off
                + off,
    {
        proof {
            areas_fit_parts(self.sig@);
        }
        let base: u32 = stack_locals_base(&self.sig);
        base as i64 + self.slot_offsets[ss] as i64 + slot_off as i64 + off as i64
    }

    /// Appends an instruction.
    pub fn emit(&mut self, inst: MInst)
        requires
            old(self).wf(),
        ensures
            final(self).wf(),
            views(final(self).emitted@) == views(old(self).emitted@).push(inst@),
            final(self).vregs == old(self).vregs,
            final(self).values == old(self).values,
            final(self).slot_offsets == old(self).slot_offsets,
            final(self).sig == old(self).sig,
    {
        self.emitted.push(inst);
    }

    /// Appends an instruction that does nothing.
    pub fn emit_nop_unit(&mut self)
        requires
            old(self).wf(),
        ensures
            final(self).wf(),
            views(final(self).emitted@) == views(old(self).emitted@).push(MInstView::Nop),
            final(self).vregs == old(self).vregs,
            final(self).values == old(self).values,
            final(self).slot_offsets == old(self).slot_offsets,
            final(self).sig == old(self).sig,
    {
        self.emit(MInst::Nop);
    }

    /// Materializes the address of the given frame offset as a register.
    pub fn emit_stack_addr(&mut self, frame_offset: i64) -> (r: Result<Reg, CodegenError>)
        requires
            old(self).wf(),
        ensures
            final(self).wf(),
            final(self).values == old(self).values,
            final(self).slot_offsets == old(self).slot_offsets,
            final(self).sig == old(self).sig,
            ({
                let s = stack_addr(frame_offset as int, old(self).vregs.next as int);
                match r {
                    Ok(addr) => {
                        &&& views(final(self).emitted@) == views(old(self).emitted@) + s.0
                        &&& addr == s.1
                        &&& final(self).vregs.next == s.2
                    },
                    Err(e) => s.2 > VREG_LIMIT && e is CodeTooLarge,
                }
            }),
    {
        match make_stack_addr(frame_offset, &mut self.vregs) {
            Ok((mut insts, addr)) => {
                self.emitted.append(&mut insts);
                Ok(addr)
            },
            Err(e) => Err(e),
        }
    }

    /// The address of a stack slot.
    pub fn lower_stack_addr(&mut self, ss: usize, off: i32) -> (r: Result<Reg, CodegenError>)
        requires
            old(self).wf(),
            ss < old(self).slot_offsets@.len(),
        ensures
            final(self).wf(),
            ({
                let s = stack_addr(
                    old(self).slot_location(ss as int, off as int),
                    old(self).vregs.next as int,
                );
                match r {
                    Ok(addr) => {
                        &&& views(final(self).emitted@) == views(old(self).emitted@) + s.0
                        &&& addr == s.1
                        &&& final(self).vregs.next == s.2
                    },
                    Err(e) => s.2 > VREG_LIMIT && e is CodeTooLarge,
                }
            }),
    {
        let frame_offset: i64 = self.stack_frame_offset(ss, off, 0);
        self.emit_stack_addr(frame_offset)
    }

    /// Emits a stack access.
    fn emit_access(&mut self, frame_offset: i64, ty: Type, access: StackAccess) -> (r: Result<
        (),
        CodegenError,
    >)
        requires
            old(self).wf(),
        ensures
            final(self).wf(),
            final(self).values == old(self).values,
            ({
                let s = stack_access(
                    frame_offset as int,
                    ty.spec_bytes(),
                    access,
                    old(self).vregs.next as int,
                );
                match r {
                    Ok(()) => {
                        &&& views(final(self).emitted@) == views(old(self).emitted@) + s.0
                        &&& final(self).vregs.next == s.1
                    },
                    Err(e) => s.1 > VREG_LIMIT && e is CodeTooLarge,
                }
            }),
    {
        match stack_access_insts(frame_offset, ty.bytes(), access, &mut self.vregs) {
            Ok(mut insts) => {
                self.emitted.append(&mut insts);
                Ok(())
            },
            Err(e) => Err(e),
        }
    }

    /// Loads a value from a stack slot into a fresh register.
    pub fn lower_stack_load(&mut self, ty: Type, ss: usize, slot_off: i32, off: i32) -> (r: Result<
        Reg,
        CodegenError,
    >)
        requires
            old(self).wf(),
            ss < old(self).slot_offsets@.len(),
        ensures
            final(self).wf(),
            ({
                let next = old(self).vregs.next as int;
                let s = stack_access(
                    old(self).slot_location(ss as int, slot_off + off),
                    ty.spec_bytes(),
                    StackAccess::Load(vreg(next)),
                    next + 1,
                );
                match r {
                    Ok(rd) => {
                        &&& rd == vreg(next)
                        &&& views(final(self).emitted@) == views(old(self).emitted@) + s.0
                        &&& final(self).vregs.next == s.1
                    },
                    Err(e) => s.1 > VREG_LIMIT && e is CodeTooLarge,
                }
            }),
    {
        let frame_offset: i64 = self.stack_frame_offset(ss, slot_off, off);
        let rd = match self.vregs.fresh() {
            Ok(r) => r,
            Err(e) => {
                return Err(e);
            },
        };
        match self.emit_access(frame_offset, ty, StackAccess::Load(rd)) {
            Ok(()) => Ok(rd),
            Err(e) => Err(e),
        }
    }

    /// Stores a value into a stack slot.
    pub fn lower_stack_store(&mut self, val: usize, ss: usize, slot_off: i32, off: i32) -> (r: Result<
        (),
        CodegenError,
    >)
        requires
            old(self).wf(),
            ss < old(self).slot_offsets@.len(),
            val < old(self).values.values@.len(),
        ensures
            final(self).wf(),
            ({
                let v = old(self).values.values@[val as int];
                let s = stack_access(
                    old(self).slot_location(ss as int, slot_off + off),
                    v.ty.spec_bytes(),
                    StackAccess::Store(v.reg),
                    old(self).vregs.next as int,
                );
                match r {
                    Ok(()) => {
                        &&& views(final(self).emitted@) == views(old(self).emitted@) + s.0
                        &&& final(self).vregs.next == s.1
                    },
                    Err(e) => s.1 > VREG_LIMIT && e is CodeTooLarge,
                }
            }),
    {
        let frame_offset: i64 = self.stack_frame_offset(ss, slot_off, off);
        let v = self.values.values[val];
        self.emit_access(frame_offset, v.ty, StackAccess::Store(v.reg))
    }

    /// The registers of the values that a block call passes.
    pub fn block_call_regs(&self, args: &Vec<usize>) -> (r: Vec<Reg>)
        requires
            forall|i: int| 0 <= i < args@.len() ==> #[trigger] args@[i] < self.values.values@.len(),
        ensures
            r@ == Seq::new(args@.len(), |i: int| self.values.values@[args@[i] as int].reg),
    {
        let ghost whole = Seq::new(
            args@.len(),
            |i: int| self.values.values@[args@[i] as int].reg,
        );
        let mut r: Vec<Reg> = Vec::new();
        for i in 0..args.len()
            invariant
                forall|i: int|
                    0 <= i < args@.len() ==> #[trigger] args@[i] < self.values.values@.len(),
                whole == Seq::new(
                    args@.len(),
                    |i: int| self.values.values@[args@[i] as int].reg,
                ),
                r@ == whole.take(i as int),
        {
            r.push(self.values.values[args[i]].reg);
            assert(r@ =~= whole.take(i as int + 1));
        }
        assert(r@ =~= whole);
        r
    }

    /// Lowers a jump table into one issue per branch, all linked to a single
    /// trigger.
    ///
    /// The default is issued first as an unconditional jump and each case then
    /// issues a conditional jump guarded by `idx == case_index`. Since all of
    /// them name the same trigger, and the last control flow issued for a trigger
    /// wins, a matching case overrides the default. Sharing the trigger also
    /// keeps the number of executed instructions equal on every path.
    ///
    /// `targets` are the labels of the branches, the default first; `args` are
    /// the values passed to the target.
    pub fn lower_br_table(&mut self, idx: usize, targets: &Vec<MachLabel>, args: &Vec<usize>) -> (r: Result<
        (),
        CodegenError,
    >)
        requires
            old(self).wf(),
            targets@.len() > 0,
            idx < old(self).values.values@.len(),
            forall|i: int|
                0 <= i < args@.len() ==> #[trigger] args@[i] < old(self).values.values@.len(),
        ensures
            final(self).wf(),
            ({
                let next = old(self).vregs.next as int;
                let values = old(self).values.values@;
                let end = next + 2 * (targets@.len() - 1) + 1;
                match r {
                    Ok(()) => {
                        &&& views(final(self).emitted@) == views(old(self).emitted@) + br_table(
                            values[idx as int].reg,
                            targets@,
                            Seq::new(args@.len(), |i: int| values[args@[i] as int].reg),
                            next,
                        )
                        &&& final(self).vregs.next == end
                    },
                    Err(e) => end > VREG_LIMIT && e is CodeTooLarge,
                }
            }),
    {
        let idx_reg = self.values.values[idx].reg;
        let passed = self.block_call_regs(args);
        let ghost next = self.vregs.next as int;
        let cases: usize = targets.len() - 1;
        let ghost start = views(self.emitted@);
        let ghost tests = table_tests(idx_reg, cases as int, 0, next);
        // The conditions come first so that the branch issues stay contiguous.
        let mut conds: Vec<Reg> = Vec::new();
        for k in 0..cases
            invariant
                self.wf(),
                cases == targets@.len() - 1,
                next == old(self).vregs.next,
                self.vregs.next == next + 2 * k,
                conds@.len() == k,
                forall|j: int| 0 <= j < k ==> #[trigger] conds@[j] == vreg(next + 2 * j + 1),
                start + tests == views(self.emitted@) + table_tests(
                    idx_reg,
                    cases as int,
                    k as int,
                    next + 2 * k,
                ),
        {
            broadcast use crate::inst::views_push;

            let ghost before = views(self.emitted@);
            let case_const = match self.vregs.fresh() {
                Ok(r) => r,
                Err(e) => {
                    return Err(e);
                },
            };
            let cond = match self.vregs.fresh() {
                Ok(r) => r,
                Err(e) => {
                    return Err(e);
                },
            };
            self.emitted.push(
                MInst::Const { ty: IsaType::Invalid, rd: case_const, imm: k as i64 },
            );
            self.emitted.push(
                MInst::IntCmp { cc: IntCC::Equal, rd: cond, rs1: idx_reg, rs2: case_const },
            );
            conds.push(cond);
            proof {
                let rest = table_tests(idx_reg, cases as int, k + 1, next + 2 * k + 2);
                let one = seq![
                    MInstView::Const {
                        ty: IsaType::Invalid,
                        rd: vreg(next + 2 * k),
                        imm: k as i64,
                    },
                    MInstView::IntCmp {
                        cc: IntCC::Equal,
                        rd: vreg(next + 2 * k + 1),
                        rs1: idx_reg,
                        rs2: vreg(next + 2 * k),
                    },
                ];
                assert(table_tests(idx_reg, cases as int, k as int, next + 2 * k) == one + rest);
                assert(views(self.emitted@) =~= before + one);
                assert(before + (one + rest) =~= views(self.emitted@) + rest);
            }
        }
        assert(views(self.emitted@) =~= start + tests);
        let link = match self.vregs.fresh() {
            Ok(r) => r,
            Err(e) => {
                return Err(e);
            },
        };
        // The default comes before the conditionals.
        self.emitted.push(
            MInst::JumpIssue { link, dst: targets[0], kind: IssueKind::Jump, trig: 0 },
        );
        let ghost head = views(self.emitted@);
        let ghost issues = table_issues(link, targets@, next);
        for k in 0..cases
            invariant
                cases == targets@.len() - 1,
                conds@.len() == cases,
                forall|j: int| 0 <= j < cases ==> #[trigger] conds@[j] == vreg(next + 2 * j + 1),
                issues == table_issues(link, targets@, next),
                issues.len() == cases,
                views(self.emitted@) == head + issues.take(k as int),
                self.wf(),
                self.vregs.next == next + 2 * cases + 1,
        {
            broadcast use crate::inst::views_push;

            self.emitted.push(
                MInst::JumpIssue {
                    link,
                    dst: targets[k + 1],
                    kind: IssueKind::Branch { dir: false, cond: conds[k] },
                    trig: 0,
                },
            );
            assert(views(self.emitted@) =~= head + issues.take(k as int + 1));
        }
        assert(issues.take(cases as int) =~= issues);
        self.emitted.push(MInst::JumpTrigger { link, args: passed });
        assert(views(self.emitted@) =~= start + br_table(
            idx_reg,
            targets@,
            passed@,
            next,
        ));
        Ok(())
    }
}

/// The label that a branch jumps to: the first of its targets.
pub fn gen_machlabel(labels: &Vec<MachLabel>) -> (r: MachLabel)
    requires
        labels@.len() > 0,
    ensures
        r == labels@[0],
{
    labels[0]
}

/// A constant, if it is not zero.
pub fn nonzero_imm64(imm: i64) -> (r: Option<i64>)
    ensures
        r == (if imm != 0 {
            Some(imm)
        } else {
            None
        }),
{
    if imm != 0 {
        Some(imm)
    } else {
        None
    }
}

} // verus!
