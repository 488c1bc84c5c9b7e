//! Which places of the frame are accessed.
use crate::abi::{spec_arg_area_base, spec_stack_area_size, stack_passed, value_offset};
use crate::bb::{first_from_is_least, op_count, BBView};
use crate::inst::{BinaryAluOp, MInstOf, MInstView, OperandKind, QUEUE_CAPACITY};
use crate::ir::AbiParam;
use crate::isatype::IsaType;
use crate::lower::{
    scale_of_pow2, scaled_index_is_exact, spec_access_index, stack_access, stack_addr,
    StackAccess,
};
use crate::laws::frame::{adjusted, adjusted_add, adjustments_adjust, adjusts};
use crate::laws::reception::{counted_uses, reads_from};
use crate::passes::frame::adjustments;
use crate::passes::stack_args::{
    arg_stores, call_lowered, call_reserved, first_rets, load_shifted, loads_shifted, operand_pairs, ret_loads,
    ret_stores, rets_lowered, rets_received,
};
use crate::reg::{vreg, ArgPair, Reg, VREG_LIMIT};
use crate::rename::renamed_each;
use vstd::arithmetic::power2::pow2;
use vstd::prelude::*;

verus! {

/// An access of memory, at an address counted from the start of the frame.
pub struct Access {
    pub store: bool,
    pub at: int,
    pub reg: Reg,
}

/// The registers after an instruction is executed, as far as addresses are
/// concerned: addresses count from the start of the frame.
pub open spec fn stepped(inst: MInstView, regs: Map<Reg, int>) -> Map<Reg, int> {
    match inst {
        MInstOf::SAddr { rd, scale_pow2, idx } => regs.insert(rd, idx * pow2(scale_pow2 as nat)),
        MInstOf::Const { rd, imm, .. } => regs.insert(rd, imm as int),
        MInstOf::BinaryAlu { op: BinaryAluOp::IntAddWrap, rd, rs1, rs2 } => regs.insert(
            rd,
            regs[rs1] + regs[rs2],
        ),
        _ => regs,
    }
}

/// The accesses of an instruction, at most one. An access of the frame by an index
/// counts in values of the size that the accessed register has.
pub open spec fn access_of(
    inst: MInstView,
    regs: Map<Reg, int>,
    sizes: spec_fn(Reg) -> int,
) -> Seq<Access> {
    match inst {
        MInstOf::Store { rd, rs } => seq![Access { store: true, at: regs[rd], reg: rs }],
        MInstOf::Load { rd, rs, .. } => seq![Access { store: false, at: regs[rs], reg: rd }],
        MInstOf::StoreStack { rs, idx } => seq![
            Access { store: true, at: idx * sizes(rs), reg: rs },
        ],
        MInstOf::LoadStack { rd, idx, .. } => seq![
            Access { store: false, at: idx * sizes(rd), reg: rd },
        ],
        _ => Seq::empty(),
    }
}

/// The registers after the instructions from the `k`th on are executed.
pub open spec fn ran(insts: Seq<MInstView>, k: int, regs: Map<Reg, int>) -> Map<Reg, int>
    decreases insts.len() - k,
{
    if k >= insts.len() {
        regs
    } else {
        ran(insts, k + 1, stepped(insts[k], regs))
    }
}

/// The accesses of the instructions from the `k`th on, in order.
pub open spec fn accesses(
    insts: Seq<MInstView>,
    k: int,
    regs: Map<Reg, int>,
    sizes: spec_fn(Reg) -> int,
) -> Seq<Access>
    decreases insts.len() - k,
{
    if k >= insts.len() {
        Seq::empty()
    } else {
        access_of(insts[k], regs, sizes) + accesses(
            insts,
            k + 1,
            stepped(insts[k], regs),
            sizes,
        )
    }
}

proof fn accesses_behind(
    a: Seq<MInstView>,
    b: Seq<MInstView>,
    k: int,
    regs: Map<Reg, int>,
    sizes: spec_fn(Reg) -> int,
)
    requires
        0 <= k <= b.len(),
    ensures
        accesses(a + b, a.len() + k, regs, sizes) == accesses(b, k, regs, sizes),
    decreases b.len() - k,
{
    if k < b.len() {
        accesses_behind(a, b, k + 1, stepped(b[k], regs), sizes);
    }
}

proof fn accesses_join(
    a: Seq<MInstView>,
    b: Seq<MInstView>,
    k: int,
    regs: Map<Reg, int>,
    sizes: spec_fn(Reg) -> int,
)
    requires
        0 <= k <= a.len(),
    ensures
        accesses(a + b, k, regs, sizes) == accesses(a, k, regs, sizes) + accesses(
            b,
            0,
            ran(a, k, regs),
            sizes,
        ),
    decreases a.len() - k,
{
    if k < a.len() {
        assert((a + b)[k] == a[k]);
        accesses_join(a, b, k + 1, stepped(a[k], regs), sizes);
        assert(accesses(a + b, k, regs, sizes) =~= accesses(a, k, regs, sizes) + accesses(
            b,
            0,
            ran(a, k, regs),
            sizes,
        ));
    } else {
        accesses_behind(a, b, 0, regs, sizes);
        assert(accesses(a + b, k, regs, sizes) =~= accesses(a, k, regs, sizes) + accesses(
            b,
            0,
            ran(a, k, regs),
            sizes,
        ));
    }
}

/// A scale is a power of two.
pub proof fn scale_is_power(p: int)
    requires
        0 <= p,
    ensures
        scale_of_pow2(p) == pow2(p as nat),
        scale_of_pow2(p) > 0,
    decreases p,
{
    vstd::arithmetic::power2::lemma2_to64();
    vstd::arithmetic::power2::lemma_pow2_pos(p as nat);
    if p > 3 {
        vstd::arithmetic::power2::lemma_pow2_unfold(p as nat);
        scale_is_power(p - 1);
    }
}

/// The register in which an address is materialized holds exactly the offset from
/// the start of the frame, and nothing is accessed on the way.
pub proof fn materialized_addresses_are_exact(
    frame_offset: int,
    next: int,
    regs: Map<Reg, int>,
    sizes: spec_fn(Reg) -> int,
)
    requires
        i64::MIN <= frame_offset <= i64::MAX,
        0 <= next,
        next + 3 <= u32::MAX,
    ensures
        ({
            let (insts, addr, n) = stack_addr(frame_offset, next);
            &&& ran(insts, 0, regs)[addr] == frame_offset
            &&& accesses(insts, 0, regs, sizes) == Seq::<Access>::empty()
            &&& next < n <= next + 3
            &&& addr == vreg(n - 1)
        }),
{
    reveal_with_fuel(ran, 4);
    reveal_with_fuel(accesses, 4);
    scaled_index_is_exact(frame_offset);
    vstd::arithmetic::power2::lemma2_to64();
    let (insts, addr, n) = stack_addr(frame_offset, next);
    match crate::lower::spec_scaled_index(frame_offset) {
        Some((s, i)) => {
            scale_is_power(s as int);
            assert(insts.len() == 1);
            assert(ran(insts, 0, regs) == stepped(insts[0], regs));
        },
        None => {
            assert(insts.len() == 3);
            let r1 = stepped(insts[0], regs);
            let r2 = stepped(insts[1], r1);
            let r3 = stepped(insts[2], r2);
            assert(ran(insts, 0, regs) == r3);
            assert(0 * pow2(0nat) == 0) by (nonlinear_arith);
            assert(r2[vreg(next)] == 0);
            assert(r2[vreg(next + 1)] == frame_offset);
        },
    }
    assert(accesses(insts, 0, regs, sizes) =~= Seq::<Access>::empty());
}

/// A stack access accesses its own register at exactly its offset from the start
/// of the frame, once, and nothing else.
pub proof fn stack_accesses_hit_their_offset(
    frame_offset: int,
    size: int,
    access: StackAccess,
    next: int,
    regs: Map<Reg, int>,
    sizes: spec_fn(Reg) -> int,
)
    requires
        i64::MIN <= frame_offset <= i64::MAX,
        0 < size,
        0 <= next,
        next + 3 <= u32::MAX,
        access matches StackAccess::Store(r) ==> sizes(r) == size,
        access matches StackAccess::Load(r) ==> sizes(r) == size,
    ensures
        accesses(stack_access(frame_offset, size, access, next).0, 0, regs, sizes) == seq![
            match access {
                StackAccess::Store(reg) => Access { store: true, at: frame_offset, reg },
                StackAccess::Load(reg) => Access { store: false, at: frame_offset, reg },
            },
        ],
        next <= stack_access(frame_offset, size, access, next).1 <= next + 3,
{
    let (all, n) = stack_access(frame_offset, size, access, next);
    let whole = seq![
        match access {
            StackAccess::Store(reg) => Access { store: true, at: frame_offset, reg },
            StackAccess::Load(reg) => Access { store: false, at: frame_offset, reg },
        },
    ];
    match spec_access_index(frame_offset, size) {
        Some(idx) => {
            reveal_with_fuel(accesses, 2);
            vstd::arithmetic::div_mod::lemma_fundamental_div_mod(frame_offset, size);
            vstd::arithmetic::div_mod::lemma_div_pos_is_pos(frame_offset, size);
            assert(idx * size == frame_offset) by (nonlinear_arith)
                requires
                    idx == frame_offset / size,
                    frame_offset == size * (frame_offset / size) + frame_offset % size,
                    frame_offset % size == 0,
            ;
            assert(all.len() == 1);
            assert(accesses(all, 1, stepped(all[0], regs), sizes) == Seq::<Access>::empty());
            assert(accesses(all, 0, regs, sizes) =~= whole);
        },
        None => {
            let (insts, addr, m) = stack_addr(frame_offset, next);
            materialized_addresses_are_exact(frame_offset, next, regs, sizes);
            let last = crate::lower::addressed_access(access, addr);
            assert(all =~= insts + seq![last]);
            accesses_join(insts, seq![last], 0, regs, sizes);
            let r = ran(insts, 0, regs);
            reveal_with_fuel(accesses, 2);
            assert(seq![last][0] == last);
            assert(accesses(seq![last], 1, stepped(last, r), sizes) == Seq::<Access>::empty());
            assert(accesses(seq![last], 0, r, sizes) =~= whole);
            assert(accesses(all, 0, regs, sizes) =~= whole);
        },
    }
}

/// The stack-passed return values are stored in order, each at its own place of
/// the return area, which starts the frame.
pub proof fn returned_values_are_stored_in_place(
    rets: Seq<ArgPair>,
    values: Seq<AbiParam>,
    k: int,
    next: int,
    regs: Map<Reg, int>,
    sizes: spec_fn(Reg) -> int,
)
    requires
        QUEUE_CAPACITY <= k <= rets.len(),
        rets.len() <= values.len(),
        0 <= next,
        ret_stores(rets, values, k, next).1 <= VREG_LIMIT,
        forall|i: int|
            k <= i < rets.len() ==> {
                &&& sizes((#[trigger] rets[i]).vreg) == values[i].value_type.spec_bytes()
                &&& values[i].value_type.spec_bytes() > 0
                &&& i64::MIN <= value_offset(stack_passed(values), i - QUEUE_CAPACITY) <= i64::MAX
            },
    ensures
        accesses(ret_stores(rets, values, k, next).0, 0, regs, sizes) == Seq::new(
            (rets.len() - k) as nat,
            |i: int|
                Access {
                    store: true,
                    at: value_offset(stack_passed(values), k + i - QUEUE_CAPACITY),
                    reg: rets[k + i].vreg,
                },
        ),
        ret_stores(rets, values, k, next).1 >= next,
    decreases rets.len() - k,
{
    let whole = Seq::new(
        (rets.len() - k) as nat,
        |i: int|
            Access {
                store: true,
                at: value_offset(stack_passed(values), k + i - QUEUE_CAPACITY),
                reg: rets[k + i].vreg,
            },
    );
    if k < rets.len() {
        let at = value_offset(stack_passed(values), k - QUEUE_CAPACITY);
        let (first, n) = stack_access(
            at,
            values[k].value_type.spec_bytes(),
            StackAccess::Store(rets[k].vreg),
            next,
        );
        assert(rets[k].vreg == rets[k].vreg);
        returned_grow(rets, values, k + 1, n);
        access_grows(
            at,
            values[k].value_type.spec_bytes(),
            StackAccess::Store(rets[k].vreg),
            next,
        );
        stack_accesses_hit_their_offset(
            at,
            values[k].value_type.spec_bytes(),
            StackAccess::Store(rets[k].vreg),
            next,
            regs,
            sizes,
        );
        let rest = ret_stores(rets, values, k + 1, n).0;
        returned_values_are_stored_in_place(rets, values, k + 1, n, ran(first, 0, regs), sizes);
        accesses_join(first, rest, 0, regs, sizes);
        assert(accesses(first + rest, 0, regs, sizes) =~= whole);
    } else {
        assert(accesses(ret_stores(rets, values, k, next).0, 0, regs, sizes) =~= whole);
    }
}

proof fn access_grows(frame_offset: int, size: int, access: StackAccess, next: int)
    ensures
        next <= stack_access(frame_offset, size, access, next).1 <= next + 3,
{
}

proof fn returned_grow(rets: Seq<ArgPair>, values: Seq<AbiParam>, k: int, next: int)
    ensures
        ret_stores(rets, values, k, next).1 >= next,
    decreases rets.len() - k,
{
    if k >= QUEUE_CAPACITY && k < rets.len() {
        let n = stack_access(
            value_offset(stack_passed(values), k - QUEUE_CAPACITY),
            values[k].value_type.spec_bytes(),
            StackAccess::Store(rets[k].vreg),
            next,
        ).1;
        returned_grow(rets, values, k + 1, n);
    }
}

proof fn arguments_grow(insts: Seq<MInstView>, i: int, end: int, base: int, next: int)
    ensures
        arg_stores(insts, i, end, base, next) matches Some((_, n)) ==> n >= next,
    decreases end - i,
{
    if i < end {
        if let MInstOf::StoreStackArg { rs, offset, scale_pow2 } = insts[i] {
            let n = stack_access(
                base + offset,
                scale_of_pow2(scale_pow2 as int),
                StackAccess::Store(rs),
                next,
            ).1;
            arguments_grow(insts, i + 1, end, base, n);
        }
    }
}

/// The stack-passed arguments of a call are stored in order, each at its own
/// offset from the base of the callee's argument area.
pub proof fn arguments_are_stored_in_place(
    insts: Seq<MInstView>,
    i: int,
    end: int,
    base: int,
    next: int,
    regs: Map<Reg, int>,
    sizes: spec_fn(Reg) -> int,
)
    requires
        0 <= i <= end <= insts.len(),
        0 <= base,
        0 <= next,
        arg_stores(insts, i, end, base, next) is Some,
        arg_stores(insts, i, end, base, next)->Some_0.1 <= VREG_LIMIT,
        forall|j: int|
            i <= j < end ==> (#[trigger] insts[j] is StoreStackArg ==> sizes(
                insts[j]->StoreStackArg_rs,
            ) == pow2(insts[j]->StoreStackArg_scale_pow2 as nat)),
    ensures
        forall|j: int| i <= j < end ==> #[trigger] insts[j] is StoreStackArg,
        accesses(arg_stores(insts, i, end, base, next)->Some_0.0, 0, regs, sizes) == Seq::new(
            (end - i) as nat,
            |j: int|
                Access {
                    store: true,
                    at: base + insts[i + j]->StoreStackArg_offset,
                    reg: insts[i + j]->StoreStackArg_rs,
                },
        ),
    decreases end - i,
{
    let whole = Seq::new(
        (end - i) as nat,
        |j: int|
            Access {
                store: true,
                at: base + insts[i + j]->StoreStackArg_offset,
                reg: insts[i + j]->StoreStackArg_rs,
            },
    );
    if i < end {
        if let MInstOf::StoreStackArg { rs, offset, scale_pow2 } = insts[i] {
            scale_is_power(scale_pow2 as int);
            let (first, n) = stack_access(
                base + offset,
                scale_of_pow2(scale_pow2 as int),
                StackAccess::Store(rs),
                next,
            );
            arguments_grow(insts, i + 1, end, base, n);
            access_grows(
                base + offset,
                scale_of_pow2(scale_pow2 as int),
                StackAccess::Store(rs),
                next,
            );
            stack_accesses_hit_their_offset(
                base + offset,
                scale_of_pow2(scale_pow2 as int),
                StackAccess::Store(rs),
                next,
                regs,
                sizes,
            );
            let rest = arg_stores(insts, i + 1, end, base, n)->Some_0.0;
            arguments_are_stored_in_place(
                insts,
                i + 1,
                end,
                base,
                n,
                ran(first, 0, regs),
                sizes,
            );
            accesses_join(first, rest, 0, regs, sizes);
            assert(accesses(first + rest, 0, regs, sizes) =~= whole);
        }
    } else {
        assert(accesses(arg_stores(insts, i, end, base, next)->Some_0.0, 0, regs, sizes) =~= whole);
    }
}

/// The loads of the used among the stack-passed return values, in order, each from
/// its own place behind `base`.
pub open spec fn used_loads(
    insts: Seq<MInstView>,
    rets: Seq<ArgPair>,
    values: Seq<AbiParam>,
    base: int,
    k: int,
) -> Seq<Access>
    decreases rets.len() - k,
{
    if k >= rets.len() {
        Seq::empty()
    } else if reads_from(insts, 0, rets[k].vreg) {
        seq![
            Access {
                store: false,
                at: base + value_offset(stack_passed(values), k - QUEUE_CAPACITY),
                reg: rets[k].vreg,
            },
        ] + used_loads(insts, rets, values, base, k + 1)
    } else {
        used_loads(insts, rets, values, base, k + 1)
    }
}

proof fn received_grow(
    insts: Seq<MInstView>,
    rets: Seq<ArgPair>,
    values: Seq<AbiParam>,
    base: int,
    k: int,
    next: int,
)
    ensures
        ret_loads(insts, rets, values, base, k, next) matches Some((_, n)) ==> n >= next,
    decreases rets.len() - k,
{
    if k >= QUEUE_CAPACITY && k < rets.len() {
        if op_count(insts, rets[k].vreg, OperandKind::Use) == 0 {
            received_grow(insts, rets, values, base, k + 1, next);
        } else if k < values.len() {
            let n = stack_access(
                base + value_offset(stack_passed(values), k - QUEUE_CAPACITY),
                values[k].value_type.spec_bytes(),
                StackAccess::Load(rets[k].vreg),
                next,
            ).1;
            received_grow(insts, rets, values, base, k + 1, n);
        }
    }
}

/// The stack-passed return values of a call that something reads are loaded in
/// order, each from its own place of the callee's return area.
pub proof fn received_values_are_loaded_from_their_place(
    insts: Seq<MInstView>,
    rets: Seq<ArgPair>,
    values: Seq<AbiParam>,
    base: int,
    k: int,
    next: int,
    regs: Map<Reg, int>,
    sizes: spec_fn(Reg) -> int,
)
    requires
        QUEUE_CAPACITY <= k,
        0 <= base <= u32::MAX,
        0 <= next,
        ret_loads(insts, rets, values, base, k, next) is Some,
        ret_loads(insts, rets, values, base, k, next)->Some_0.1 <= VREG_LIMIT,
        forall|i: int|
            k <= i < rets.len() && i < values.len() ==> {
                &&& sizes((#[trigger] rets[i]).vreg) == values[i].value_type.spec_bytes()
                &&& 0 <= value_offset(stack_passed(values), i - QUEUE_CAPACITY) <= u32::MAX
            },
    ensures
        accesses(ret_loads(insts, rets, values, base, k, next)->Some_0.0, 0, regs, sizes)
            == used_loads(insts, rets, values, base, k),
    decreases rets.len() - k,
{
    let whole = used_loads(insts, rets, values, base, k);
    if k >= rets.len() {
        assert(accesses(ret_loads(insts, rets, values, base, k, next)->Some_0.0, 0, regs, sizes)
            =~= whole);
    } else {
        counted_uses(insts, rets[k].vreg);
        if op_count(insts, rets[k].vreg, OperandKind::Use) == 0 {
            received_values_are_loaded_from_their_place(
                insts,
                rets,
                values,
                base,
                k + 1,
                next,
                regs,
                sizes,
            );
        } else {
            let at = base + value_offset(stack_passed(values), k - QUEUE_CAPACITY);
            let size = values[k].value_type.spec_bytes();
            let access = StackAccess::Load(rets[k].vreg);
            let (first, n) = stack_access(at, size, access, next);
            assert(sizes(rets[k].vreg) == size);
            received_grow(insts, rets, values, base, k + 1, n);
            access_grows(at, size, access, next);
            stack_accesses_hit_their_offset(at, size, access, next, regs, sizes);
            let rest = ret_loads(insts, rets, values, base, k + 1, n)->Some_0.0;
            received_values_are_loaded_from_their_place(
                insts,
                rets,
                values,
                base,
                k + 1,
                n,
                ran(first, 0, regs),
                sizes,
            );
            accesses_join(first, rest, 0, regs, sizes);
            assert(accesses(first + rest, 0, regs, sizes) =~= whole);
        }
    }
}

/// Whether nothing among the instructions adjusts the stack.
pub open spec fn adjusts_nothing(insts: Seq<MInstView>) -> bool {
    forall|i: int| 0 <= i < insts.len() ==> !(#[trigger] insts[i] is StackAdjust)
}

proof fn nothing_adjusted(insts: Seq<MInstView>, reserve: bool, private: bool)
    requires
        adjusts_nothing(insts),
    ensures
        adjusted(insts, reserve, private) == 0,
    decreases insts.len(),
{
    if insts.len() > 0 {
        assert(insts.last() == insts[insts.len() - 1]);
        nothing_adjusted(insts.drop_last(), reserve, private);
    }
}

proof fn accesses_adjust_nothing(frame_offset: int, size: int, access: StackAccess, next: int)
    ensures
        adjusts_nothing(stack_access(frame_offset, size, access, next).0),
{
}

proof fn stores_adjust_nothing(insts: Seq<MInstView>, i: int, end: int, base: int, next: int)
    ensures
        arg_stores(insts, i, end, base, next) matches Some((stores, _)) ==> adjusts_nothing(stores),
    decreases end - i,
{
    if i < end {
        if let MInstOf::StoreStackArg { rs, offset, scale_pow2 } = insts[i] {
            let scale = scale_of_pow2(scale_pow2 as int);
            accesses_adjust_nothing(base + offset, scale, StackAccess::Store(rs), next);
            let n = stack_access(base + offset, scale, StackAccess::Store(rs), next).1;
            stores_adjust_nothing(insts, i + 1, end, base, n);
        }
    }
}

proof fn loads_adjust_nothing(
    insts: Seq<MInstView>,
    rets: Seq<ArgPair>,
    values: Seq<AbiParam>,
    base: int,
    k: int,
    next: int,
)
    ensures
        ret_loads(insts, rets, values, base, k, next) matches Some((loads, _)) ==> adjusts_nothing(
            loads,
        ),
    decreases rets.len() - k,
{
    if k >= QUEUE_CAPACITY && k < rets.len() {
        if op_count(insts, rets[k].vreg, OperandKind::Use) == 0 {
            loads_adjust_nothing(insts, rets, values, base, k + 1, next);
        } else if k < values.len() {
            let at = base + value_offset(stack_passed(values), k - QUEUE_CAPACITY);
            let size = values[k].value_type.spec_bytes();
            accesses_adjust_nothing(at, size, StackAccess::Load(rets[k].vreg), next);
            let n = stack_access(at, size, StackAccess::Load(rets[k].vreg), next).1;
            loads_adjust_nothing(insts, rets, values, base, k + 1, n);
        }
    }
}

proof fn same_amounts(a: Seq<MInstView>, b: Seq<MInstView>, reserve: bool, private: bool)
    requires
        a.len() == b.len(),
        forall|i: int|
            0 <= i < a.len() ==> (#[trigger] a[i] is StackAdjust || b[i] is StackAdjust ==> a[i]
                == b[i]),
    ensures
        adjusted(a, reserve, private) == adjusted(b, reserve, private),
    decreases a.len(),
{
    if a.len() > 0 {
        assert(a.last() == a[a.len() - 1] && b.last() == b[b.len() - 1]);
        same_amounts(a.drop_last(), b.drop_last(), reserve, private);
    }
}

proof fn renaming_adjusts_nothing(
    bb: BBView,
    regs: Seq<Reg>,
    next: int,
    k: int,
    reserve: bool,
    private: bool,
)
    ensures
        adjusted(renamed_each(bb, regs, next, k).inst, reserve, private) == adjusted(
            bb.inst,
            reserve,
            private,
        ),
    decreases k,
{
    if k > 0 {
        renaming_adjusts_nothing(bb, regs, next, k - 1, reserve, private);
        let prev = renamed_each(bb, regs, next, k - 1);
        let b = renamed_each(bb, regs, next, k);
        same_amounts(prev.inst, b.inst, reserve, private);
    }
}

/// A call reserves its callee's area on the shared frame, and frees as much.
pub proof fn calls_free_what_they_reserve(bb: BBView, t: int, private_size: int, next: int)
    requires
        0 <= t < bb.inst.len(),
        call_lowered(bb, t, private_size, next) is Some,
        bb.inst[t] is CallArgs,
        0 <= spec_stack_area_size(bb.inst[t]->CallArgs_sig) < 65536,
    ensures
        ({
            let after = call_lowered(bb, t, private_size, next)->Some_0.0;
            let area = spec_stack_area_size(bb.inst[t]->CallArgs_sig);
            &&& adjusted(after.inst, true, false) == adjusted(bb.inst, true, false) + area
            &&& adjusted(after.inst, false, false) == adjusted(bb.inst, false, false) + area
            &&& adjusted(after.inst, true, true) == adjusted(bb.inst, true, true)
        }),
{
    call_amounts(bb, t, private_size, next, true, false);
    call_amounts(bb, t, private_size, next, false, false);
    call_amounts(bb, t, private_size, next, true, true);
    let area = spec_stack_area_size(bb.inst[t]->CallArgs_sig);
    adjustments_adjust(area, true, false);
    adjustments_adjust(area, false, false);
    other_amounts(adjustments(area, true, false), true, false, false, false);
    other_amounts(adjustments(area, true, false), true, false, true, true);
    other_amounts(adjustments(area, false, false), false, false, true, false);
    other_amounts(adjustments(area, false, false), false, false, true, true);
}

proof fn other_amounts(insts: Seq<MInstView>, reserve: bool, private: bool, r: bool, p: bool)
    requires
        r != reserve || p != private,
        forall|k: int|
            0 <= k < insts.len() ==> {
                &&& #[trigger] insts[k] is StackAdjust
                &&& insts[k]->StackAdjust_reserve == reserve
                &&& insts[k]->StackAdjust_private == private
            },
    ensures
        adjusted(insts, r, p) == 0,
    decreases insts.len(),
{
    if insts.len() > 0 {
        other_amounts(insts.drop_last(), reserve, private, r, p);
        assert(insts.last() == insts[insts.len() - 1]);
    }
}

proof fn call_amounts(bb: BBView, t: int, private_size: int, next: int, reserve: bool, private: bool)
    requires
        0 <= t < bb.inst.len(),
        call_lowered(bb, t, private_size, next) is Some,
        bb.inst[t] is CallArgs,
    ensures
        ({
            let after = call_lowered(bb, t, private_size, next)->Some_0.0;
            let area = spec_stack_area_size(bb.inst[t]->CallArgs_sig);
            adjusted(after.inst, reserve, private) == adjusted(bb.inst, reserve, private) + adjusted(
                adjustments(area, true, false),
                reserve,
                private,
            ) + adjusted(adjustments(area, false, false), reserve, private)
        }),
{
    let rets = bb.inst[t]->CallArgs_rets;
    let sig = bb.inst[t]->CallArgs_sig;
    let area = spec_stack_area_size(sig);
    let num = stack_passed(sig.params).len();
    let first = t - 1 - num;
    let base = private_size + spec_arg_area_base(sig);
    let (b1, pos1, n1) = call_reserved(bb, t, private_size, next)->Some_0;
    let stores = arg_stores(bb.inst, first, t - 1, base, next)->Some_0.0;
    stores_adjust_nothing(bb.inst, first, t - 1, base, next);
    nothing_adjusted(stores, reserve, private);
    let res = adjustments(area, true, false);
    let trigger: MInstView = MInstOf::CallArgs {
        link: bb.inst[t]->CallArgs_link,
        rets: operand_pairs(rets),
        args: bb.inst[t]->CallArgs_args,
        sig,
    };
    let ends = seq![bb.inst[t - 1], trigger];
    let site = res + stores + ends;
    assert(b1.inst == bb.inst.take(first) + site + bb.inst.skip(t + 1));
    adjusted_add(res, stores, reserve, private);
    adjusted_add(res + stores, ends, reserve, private);
    nothing_adjusted(ends, reserve, private);
    adjusted_add(bb.inst.take(first), site, reserve, private);
    adjusted_add(bb.inst.take(first) + site, bb.inst.skip(t + 1), reserve, private);
    let mid = bb.inst.subrange(first, t + 1);
    arguments_are_stores(bb.inst, first, t - 1, base, next);
    assert(adjusts_nothing(mid)) by {
        assert forall|i: int| 0 <= i < mid.len() implies !(#[trigger] mid[i] is StackAdjust) by {
            assert(mid[i] == bb.inst[first + i]);
        }
    }
    nothing_adjusted(mid, reserve, private);
    adjusted_add(bb.inst.take(first), mid, reserve, private);
    adjusted_add(bb.inst.take(first) + mid, bb.inst.skip(t + 1), reserve, private);
    assert(bb.inst.take(first) + mid + bb.inst.skip(t + 1) =~= bb.inst);
    let regs = crate::reg::vregs_of(operand_pairs(rets));
    let (b2, pos2, n2) = rets_received(b1, pos1, regs, n1);
    assert(pos1 == first + site.len());
    assert(adjusted(b2.inst, reserve, private) == adjusted(b1.inst, reserve, private)) by {
        if regs.len() > 0 {
            let b = renamed_each(b1, regs, n1, regs.len() as int);
            crate::rename::renamed_each_keeps(b1, regs, n1, regs.len() as int);
            renaming_adjusts_nothing(b1, regs, n1, regs.len() as int, reserve, private);
            let echo: MInstView = MInstOf::Echo {
                rds: crate::rename::fresh_regs(n1, regs.len()),
                rss: regs,
            };
            split_one(b.inst, pos1, echo, reserve, private);
        }
    }
    let loads = ret_loads(
        b2.inst,
        rets,
        sig.rets,
        private_size,
        QUEUE_CAPACITY as int,
        n2,
    )->Some_0.0;
    loads_adjust_nothing(b2.inst, rets, sig.rets, private_size, QUEUE_CAPACITY as int, n2);
    nothing_adjusted(loads, reserve, private);
    let free = adjustments(area, false, false);
    adjusted_add(loads, free, reserve, private);
    crate::rename::renamed_each_keeps(b1, regs, n1, regs.len() as int);
    let head = b2.inst.take(pos2);
    let tail = b2.inst.skip(pos2);
    adjusted_add(head, loads + free, reserve, private);
    adjusted_add(head + (loads + free), tail, reserve, private);
    adjusted_add(head, tail, reserve, private);
    assert(head + tail =~= b2.inst);
}

proof fn arguments_are_stores(insts: Seq<MInstView>, i: int, end: int, base: int, next: int)
    requires
        arg_stores(insts, i, end, base, next) is Some,
    ensures
        forall|j: int| i <= j < end ==> #[trigger] insts[j] is StoreStackArg,
    decreases end - i,
{
    if i < end {
        if let MInstOf::StoreStackArg { rs, offset, scale_pow2 } = insts[i] {
            let n = stack_access(
                base + offset,
                scale_of_pow2(scale_pow2 as int),
                StackAccess::Store(rs),
                next,
            ).1;
            arguments_are_stores(insts, i + 1, end, base, n);
        }
    }
}

proof fn split_one(insts: Seq<MInstView>, at: int, new: MInstView, reserve: bool, private: bool)
    requires
        0 <= at <= insts.len(),
        !(new is StackAdjust),
    ensures
        adjusted(insts.insert(at, new), reserve, private) == adjusted(insts, reserve, private),
{
    nothing_adjusted(seq![new], reserve, private);
    adjusted_add(insts.take(at), seq![new], reserve, private);
    adjusted_add(insts.take(at) + seq![new], insts.skip(at), reserve, private);
    adjusted_add(insts.take(at), insts.skip(at), reserve, private);
    assert(insts.take(at) + insts.skip(at) =~= insts);
    assert(insts.take(at) + seq![new] + insts.skip(at) =~= insts.insert(at, new));
}

/// The site of a call: its callee's area is reserved, then its stack-passed
/// arguments are stored, then the call is issued and triggered with its operands;
/// what stood before and behind stays.
pub proof fn calls_store_their_arguments_before_they_are_issued(
    bb: BBView,
    t: int,
    private_size: int,
    next: int,
)
    requires
        0 <= t < bb.inst.len(),
        call_reserved(bb, t, private_size, next) is Some,
        bb.inst[t] is CallArgs,
        0 <= spec_stack_area_size(bb.inst[t]->CallArgs_sig) < 65536,
    ensures
        ({
            let (b, pos, n) = call_reserved(bb, t, private_size, next)->Some_0;
            let sig = bb.inst[t]->CallArgs_sig;
            let first = t - 1 - stack_passed(sig.params).len();
            let stores = arg_stores(
                bb.inst,
                first,
                t - 1,
                private_size + spec_arg_area_base(sig),
                next,
            )->Some_0.0;
            &&& 0 <= first
            &&& bb.inst[t - 1] is Call
            &&& exists|res: Seq<MInstView>, trigger: MInstView|
                {
                    &&& #[trigger] adjusts(res, true, false, spec_stack_area_size(sig))
                    &&& trigger is CallArgs
                    &&& trigger->CallArgs_link == bb.inst[t]->CallArgs_link
                    &&& trigger->CallArgs_args == bb.inst[t]->CallArgs_args
                    &&& trigger->CallArgs_sig == sig
                    &&& trigger->CallArgs_rets.len() <= QUEUE_CAPACITY
                    &&& trigger->CallArgs_rets.is_prefix_of(bb.inst[t]->CallArgs_rets)
                    &&& b.inst == bb.inst.take(first) + res + stores + seq![bb.inst[t - 1]].push(
                        #[trigger] triggers(trigger),
                    ) + bb.inst.skip(t + 1)
                    &&& pos == first + res.len() + stores.len() + 2
                }
        }),
{
    let (b, pos, n) = call_reserved(bb, t, private_size, next)->Some_0;
    let sig = bb.inst[t]->CallArgs_sig;
    let area = spec_stack_area_size(sig);
    let first = t - 1 - stack_passed(sig.params).len();
    let stores = arg_stores(
        bb.inst,
        first,
        t - 1,
        private_size + spec_arg_area_base(sig),
        next,
    )->Some_0.0;
    let res = adjustments(area, true, false);
    adjustments_adjust(area, true, false);
    let trigger: MInstView = MInstOf::CallArgs {
        link: bb.inst[t]->CallArgs_link,
        rets: operand_pairs(bb.inst[t]->CallArgs_rets),
        args: bb.inst[t]->CallArgs_args,
        sig,
    };
    assert(triggers(trigger) == trigger);
    assert(b.inst =~= bb.inst.take(first) + res + stores + seq![bb.inst[t - 1]].push(
        triggers(trigger),
    ) + bb.inst.skip(t + 1));
    assert(adjusts(res, true, false, area));
}

/// The instruction itself.
pub open spec fn triggers(inst: MInstView) -> MInstView {
    inst
}

/// A return of more values than operands stores the others directly before it is
/// issued, and triggers with the operands that are left: the first of its values.
/// Nothing else of the block changes, and a return of fewer values not at all.
pub proof fn returns_store_what_does_not_fit(
    insts: Seq<MInstView>,
    values: Seq<AbiParam>,
    next: int,
    t: int,
)
    requires
        rets_lowered(insts, values, next) is Some,
        0 <= t < insts.len(),
        insts[t] is Rets,
        forall|i: int| 0 <= i < t ==> !(#[trigger] insts[i] is Rets),
    ensures
        ({
            let (after, n) = rets_lowered(insts, values, next)->Some_0;
            let rets = insts[t]->Rets_rets;
            let stores = ret_stores(rets, values, QUEUE_CAPACITY as int, next).0;
            if rets.len() <= 4 {
                after == insts && n == next
            } else {
                &&& t >= 1
                &&& insts[t - 1] is Ret
                &&& rets.len() <= values.len()
                &&& after.len() == insts.len() + stores.len()
                &&& after.take(t - 1) == insts.take(t - 1)
                &&& after.subrange(t - 1, t - 1 + stores.len()) == stores
                &&& after[t - 1 + stores.len()] == insts[t - 1]
                &&& after[t + stores.len()] == (MInstView::Rets { rets: rets.take(4) })
                &&& after.skip(t + 1 + stores.len()) == insts.skip(t + 1)
            }
        }),
{
    let p = |i: int| insts[i] is Rets;
    first_from_is_least(p, 0, insts.len() as int);
    let f = first_rets(insts);
    if f < t {
        assert(p(f));
    } else if f > t {
        assert(!p(t));
    }
    let (after, n) = rets_lowered(insts, values, next)->Some_0;
    let rets = insts[t]->Rets_rets;
    let stores = ret_stores(rets, values, QUEUE_CAPACITY as int, next).0;
    if rets.len() > 4 {
        assert(after.take(t - 1) =~= insts.take(t - 1));
        assert(after.subrange(t - 1, t - 1 + stores.len()) =~= stores);
        assert(after.skip(t + 1 + stores.len()) =~= insts.skip(t + 1));
    }
}

/// An argument load of the entry that is shifted loads from its place behind the
/// base of the argument area, where the base is a multiple of its size. Nothing
/// else of the entry changes.
pub proof fn argument_loads_move_behind_the_return_area(
    insts: Seq<MInstView>,
    base: int,
    i: int,
    j: int,
)
    requires
        0 <= i <= j < insts.len(),
        0 <= base,
        loads_shifted(insts, base, i) is Some,
    ensures
        ({
            let after = loads_shifted(insts, base, i)->Some_0;
            &&& after.len() == insts.len() - i
            &&& match insts[j] {
                MInstOf::LoadStack { ty: IsaType::Integer(s), rd, idx } => {
                    &&& after[j - i] matches MInstOf::LoadStack { ty, rd: r, idx: x } && {
                        &&& ty == IsaType::Integer(s)
                        &&& r == rd
                        &&& x < 32
                        &&& base % (pow2(s as nat) as int) == 0 ==> x * pow2(s as nat) == base + idx
                            * pow2(s as nat)
                    }
                },
                _ => after[j - i] == insts[j],
            }
        }),
    decreases insts.len() - i,
{
    shifted_len(insts, base, i + 1);
    let first = load_shifted(insts[i], base)->Some_0;
    let rest = loads_shifted(insts, base, i + 1)->Some_0;
    if i < j {
        argument_loads_move_behind_the_return_area(insts, base, i + 1, j);
        assert((seq![first] + rest)[j - i] == rest[j - (i + 1)]);
    } else if let MInstOf::LoadStack { ty: IsaType::Integer(s), rd, idx } = insts[i] {
        scale_is_power(s as int);
        let p = pow2(s as nat) as int;
        vstd::arithmetic::div_mod::lemma_fundamental_div_mod(base, p);
        vstd::arithmetic::div_mod::lemma_div_pos_is_pos(base, p);
        assert((base / p + idx) * p == p * (base / p) + idx * p) by (nonlinear_arith);
    }
}

proof fn shifted_len(insts: Seq<MInstView>, base: int, i: int)
    requires
        0 <= i <= insts.len(),
        loads_shifted(insts, base, i) is Some,
    ensures
        loads_shifted(insts, base, i)->Some_0.len() == insts.len() - i,
    decreases insts.len() - i,
{
    if i < insts.len() {
        shifted_len(insts, base, i + 1);
    }
}

} // verus!
