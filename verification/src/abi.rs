//! The calling convention: where arguments and return values are passed, and
//! the layout of the stack areas they are passed in.
use crate::inst::{MInst, MInstView, QUEUE_CAPACITY};
use crate::ir::{AbiParam, ArgumentExtension, Signature, SignatureView, Type};
use crate::isatype::IsaType;
use crate::reg::{ArgPair, Reg};
use vstd::prelude::*;

verus! {

/// The next multiple of `m` from `n` on.
pub open spec fn round_up(n: int, m: int) -> int {
    n + (m - n % m) % m
}

/// The next multiple of a scale from `n` on.
pub fn next_multiple(n: u32, m: u32) -> (r: u32)
    requires
        m > 0,
        round_up(n as int, m as int) <= u32::MAX,
    ensures
        r == round_up(n as int, m as int),
{
    n + (m - n % m) % m
}

/// The values that are passed on the stack: those beyond the first
/// [`QUEUE_CAPACITY`].
pub open spec fn stack_passed(values: Seq<AbiParam>) -> Seq<AbiParam> {
    if values.len() <= QUEUE_CAPACITY {
        seq![]
    } else {
        values.skip(QUEUE_CAPACITY as int)
    }
}

/// The size of the area that holds the first `n` of the values.
pub open spec fn area_end(values: Seq<AbiParam>, n: int) -> int
    decreases n,
{
    if n <= 0 {
        0
    } else {
        let scale = values[n - 1].value_type.spec_bytes();
        round_up(area_end(values, n - 1), scale) + scale
    }
}

/// The offset of a value in its area: directly after the previous one, at the
/// next offset aligned to its scale.
pub open spec fn value_offset(values: Seq<AbiParam>, i: int) -> int {
    round_up(area_end(values, i), values[i].value_type.spec_bytes())
}

/// The size of the area of the stack-passed values among `values`.
pub open spec fn area_size(values: Seq<AbiParam>) -> int {
    area_end(stack_passed(values), stack_passed(values).len() as int)
}

/// Rounding up yields the least multiple.
pub proof fn round_up_is_least_multiple(n: int, m: int)
    requires
        m > 0,
    ensures
        round_up(n, m) % m == 0,
        n <= round_up(n, m) < n + m,
{
    let r = n % m;
    vstd::arithmetic::div_mod::lemma_fundamental_div_mod(n, m);
    vstd::arithmetic::div_mod::lemma_mod_bound(n, m);
    if r == 0 {
        vstd::arithmetic::div_mod::lemma_mod_self_0(m);
    } else {
        vstd::arithmetic::div_mod::lemma_small_mod((m - r) as nat, m as nat);
        assert(m * (n / m) + m == m * (n / m + 1)) by (nonlinear_arith);
        vstd::arithmetic::div_mod::lemma_mod_multiples_basic(n / m + 1, m);
        assert(m * (n / m + 1) == (n / m + 1) * m) by (nonlinear_arith);
    }
}

/// The size of the area grows with the values it holds.
pub proof fn area_end_grows(values: Seq<AbiParam>, i: int, j: int)
    requires
        0 <= i <= j <= values.len(),
    ensures
        area_end(values, i) <= area_end(values, j),
        0 <= area_end(values, i),
    decreases j,
{
    if i < j {
        area_end_grows(values, i, j - 1);
        round_up_is_least_multiple(
            area_end(values, j - 1),
            values[j - 1].value_type.spec_bytes(),
        );
    } else if i > 0 {
        area_end_grows(values, i - 1, i - 1);
        round_up_is_least_multiple(
            area_end(values, i - 1),
            values[i - 1].value_type.spec_bytes(),
        );
    }
}

/// The stack-passed values lie in their area aligned to their scales, in order
/// and without overlap.
pub proof fn stack_values_are_disjoint(values: Seq<AbiParam>, i: int, j: int)
    requires
        0 <= i < j < values.len(),
    ensures
        value_offset(values, i) % values[i].value_type.spec_bytes() == 0,
        0 <= value_offset(values, i),
        value_offset(values, i) + values[i].value_type.spec_bytes() <= value_offset(values, j),
        value_offset(values, j) + values[j].value_type.spec_bytes() <= area_end(
            values,
            values.len() as int,
        ),
{
    round_up_is_least_multiple(area_end(values, i), values[i].value_type.spec_bytes());
    round_up_is_least_multiple(area_end(values, j), values[j].value_type.spec_bytes());
    area_end_grows(values, i, i);
    area_end_grows(values, i + 1, j);
    area_end_grows(values, j + 1, values.len() as int);
}

/// Byte offsets of the stack-passed values (the ones beyond the first
/// [`QUEUE_CAPACITY`]) within their area, plus the area's total size. Each value
/// is placed directly after the previous one, at the next offset aligned to its
/// scale.
pub fn stack_values_layout(values: &Vec<AbiParam>) -> (r: (Vec<u32>, u32))
    requires
        area_size(values@) <= u32::MAX,
    ensures
        r.0@.len() == stack_passed(values@).len(),
        forall|i: int|
            0 <= i < r.0@.len() ==> #[trigger] r.0@[i] == value_offset(stack_passed(values@), i),
        r.1 == area_size(values@),
{
    let mut offsets: Vec<u32> = Vec::new();
    let mut size: u32 = 0;
    let ghost passed = stack_passed(values@);
    let mut i: usize = QUEUE_CAPACITY;
    while i < values.len()
        invariant
            passed == stack_passed(values@),
            area_end(passed, passed.len() as int) <= u32::MAX,
            QUEUE_CAPACITY <= i,
            i <= values@.len() || i == QUEUE_CAPACITY,
            offsets@.len() == i - QUEUE_CAPACITY,
            size == area_end(passed, i - QUEUE_CAPACITY),
            forall|k: int|
                0 <= k < offsets@.len() ==> #[trigger] offsets@[k] == value_offset(passed, k),
        decreases values@.len() - i,
    {
        let scale: u32 = values[i].value_type.bytes();
        let ghost k = i - QUEUE_CAPACITY;
        proof {
            assert(passed[k] == values@[i as int]);
            area_end_grows(passed, k + 1, passed.len() as int);
            area_end_grows(passed, k, k);
            round_up_is_least_multiple(size as int, scale as int);
        }
        size = next_multiple(size, scale);
        offsets.push(size);
        size = size + scale;
        i = i + 1;
    }
    (offsets, size)
}

/// The frame offset of a function's stack-argument area.
pub open spec fn spec_arg_area_base(sig: SignatureView) -> int {
    round_up(area_size(sig.rets), 16)
}

/// The total size of the caller-reserved stack area of a signature.
pub open spec fn spec_stack_area_size(sig: SignatureView) -> int {
    spec_arg_area_base(sig) + area_size(sig.params)
}

/// The frame offset at which a function's own stack slots start.
pub open spec fn spec_stack_locals_base(sig: SignatureView) -> int {
    round_up(spec_stack_area_size(sig), 16)
}

/// The areas of a signature fit into the address space.
pub open spec fn areas_fit(sig: SignatureView) -> bool {
    spec_stack_locals_base(sig) <= u32::MAX
}

/// Where the areas fit, each part of them does.
pub proof fn areas_fit_parts(sig: SignatureView)
    requires
        areas_fit(sig),
    ensures
        0 <= area_size(sig.rets) <= spec_arg_area_base(sig) <= spec_stack_area_size(sig)
            <= spec_stack_locals_base(sig) <= u32::MAX,
        0 <= area_size(sig.params) <= u32::MAX,
        spec_arg_area_base(sig) % 16 == 0,
        spec_stack_locals_base(sig) % 16 == 0,
{
    area_end_grows(stack_passed(sig.rets), 0, stack_passed(sig.rets).len() as int);
    area_end_grows(stack_passed(sig.params), 0, stack_passed(sig.params).len() as int);
    round_up_is_least_multiple(area_size(sig.rets), 16);
    round_up_is_least_multiple(spec_stack_area_size(sig), 16);
}

/// The size of the area of the stack-passed values, if it fits.
fn try_area_size(values: &Vec<AbiParam>) -> (r: Option<u32>)
    ensures
        match r {
            Some(n) => n == area_size(values@),
            None => area_size(values@) > u32::MAX,
        },
{
    let ghost passed = stack_passed(values@);
    let mut size: u64 = 0;
    let mut i: usize = QUEUE_CAPACITY;
    while i < values.len()
        invariant
            passed == stack_passed(values@),
            QUEUE_CAPACITY <= i,
            i <= values@.len() || i == QUEUE_CAPACITY,
            size == area_end(passed, i - QUEUE_CAPACITY),
            size <= u32::MAX,
        decreases values@.len() - i,
    {
        let scale: u64 = values[i].value_type.bytes() as u64;
        let ghost k = i - QUEUE_CAPACITY;
        proof {
            assert(passed[k] == values@[i as int]);
            area_end_grows(passed, k + 1, passed.len() as int);
            round_up_is_least_multiple(size as int, scale as int);
        }
        size = size + (scale - size % scale) % scale + scale;
        if size > 0xffff_ffff {
            return None;
        }
        i = i + 1;
    }
    Some(size as u32)
}

/// Whether the areas of a signature fit into the address space.
pub fn check_areas_fit(sig: &Signature) -> (r: bool)
    ensures
        r == areas_fit(sig@),
{
    let ghost v = sig@;
    proof {
        area_end_grows(stack_passed(v.rets), 0, stack_passed(v.rets).len() as int);
        area_end_grows(stack_passed(v.params), 0, stack_passed(v.params).len() as int);
        round_up_is_least_multiple(area_size(v.rets), 16);
        round_up_is_least_multiple(spec_stack_area_size(v), 16);
    }
    match (try_area_size(&sig.rets), try_area_size(&sig.params)) {
        (Some(rets), Some(params)) => {
            let base: u64 = rets as u64 + (16 - rets as u64 % 16) % 16;
            let end: u64 = base + params as u64;
            let total: u64 = end + (16 - end % 16) % 16;
            total <= 0xffff_ffff
        },
        _ => false,
    }
}

/// The frame offset of a function's stack-argument area: the return area
/// (which sits at offset 0 of the private frame) rounded up to the 16-byte
/// frame alignment, which keeps every argument's natural alignment intact.
pub fn arg_area_base(sig: &Signature) -> (r: u32)
    requires
        areas_fit(sig@),
    ensures
        r == spec_arg_area_base(sig@),
{
    proof {
        areas_fit_parts(sig@);
    }
    let layout = stack_values_layout(&sig.rets);
    next_multiple(layout.1, 16)
}

/// The total size of the caller-reserved stack area for calling a function of
/// the given signature: the return area at offset 0, then the argument area
/// at [`arg_area_base`].
pub fn stack_area_size(sig: &Signature) -> (r: u32)
    requires
        areas_fit(sig@),
    ensures
        r == spec_stack_area_size(sig@),
{
    proof {
        areas_fit_parts(sig@);
    }
    let layout = stack_values_layout(&sig.params);
    arg_area_base(sig) + layout.1
}

/// The frame offset at which a function's own stack slots start: its incoming
/// caller-reserved area (return area + argument area, at offset 0) rounded up
/// to the 16-byte frame alignment, which keeps every slot's natural alignment
/// intact.
pub fn stack_locals_base(sig: &Signature) -> (r: u32)
    requires
        areas_fit(sig@),
    ensures
        r == spec_stack_locals_base(sig@),
{
    next_multiple(stack_area_size(sig), 16)
}

/// Whether a list is one of arguments or of return values.
#[derive(Clone, Copy, PartialEq, Eq, Structural, Debug)]
pub enum ArgsOrRets {
    Args,
    Rets,
}

/// Where one argument or return value is passed.
#[derive(Clone, Copy, PartialEq, Eq, Structural, Debug)]
pub enum ABIArgSlot {
    /// As an operand; the register encodes the position in the list.
    Reg { reg: Reg, ty: Type, extension: ArgumentExtension },
    /// On the stack, at an offset of its area.
    Stack { offset: i64, ty: Type, extension: ArgumentExtension },
}

/// A location relative to the stack.
#[derive(Clone, Copy, PartialEq, Eq, Structural, Debug)]
pub enum StackAMode {
    /// Into the area of incoming arguments of the given size.
    IncomingArg(i64, u32),
    /// Into the stack slots.
    Slot(i64),
    /// Into the area of outgoing arguments.
    OutgoingArg(i64),
}

/// The register type of a value type.
pub open spec fn spec_type_to_isatype(t: Type) -> IsaType {
    IsaType::Integer(t.spec_log2_bytes() as u8)
}

/// Whether the machine has registers for a type.
pub open spec fn is_machine_int(t: Type) -> bool {
    t is I8 || t is I16 || t is I32 || t is I64
}

/// The register type of an integer type of the machine.
pub fn type_to_isatype(t: Type) -> (r: IsaType)
    requires
        is_machine_int(t),
    ensures
        r == spec_type_to_isatype(t),
{
    match t {
        Type::I8 => IsaType::Integer(0),
        Type::I16 => IsaType::Integer(1),
        Type::I32 => IsaType::Integer(2),
        _ => IsaType::Integer(3),
    }
}

/// The register type of a parameter: its annotated extension fixes the
/// signedness.
pub open spec fn spec_abi_param_to_isatype(p: AbiParam) -> IsaType {
    let size = p.value_type.spec_log2_bytes() as u8;
    match p.extension {
        ArgumentExtension::NoExt => IsaType::Integer(size),
        ArgumentExtension::Sext => crate::isatype::known_int(size, true),
        ArgumentExtension::Uext => crate::isatype::known_int(size, false),
    }
}

/// The register type of a parameter.
pub fn abi_param_to_isatype(p: &AbiParam) -> (r: IsaType)
    requires
        is_machine_int(p.value_type),
    ensures
        r == spec_abi_param_to_isatype(*p),
{
    let t = type_to_isatype(p.value_type);
    match p.extension {
        ArgumentExtension::NoExt => t,
        ArgumentExtension::Sext => IsaType::new_known_int(t.size_pow2(), true),
        ArgumentExtension::Uext => IsaType::new_known_int(t.size_pow2(), false),
    }
}

/// The integer register with the given hardware encoding, by
/// `regalloc2::PReg::new`, whose `hw_enc` gives the encoding back for every
/// encoding of at most 6 bits.
#[verifier::external_body]
fn real_int_reg(hw_enc: usize) -> (r: Reg)
    requires
        hw_enc < 64,
    ensures
        r == Reg::Real(hw_enc as u8),
{
    Reg::Real(regalloc2::PReg::new(hw_enc, regalloc2::RegClass::Int).hw_enc() as u8)
}

/// Scry-specific ABI behavior. This struct just serves as an implementation
/// point; it is never actually instantiated.
pub struct ScryMachineDeps;

/// The limit for the size of argument and return-value areas on the stack: for
/// now, 128 MB.
pub const STACK_ARG_RET_SIZE_LIMIT: u32 = 134217728;

/// Where the value at a position of a list is passed.
pub open spec fn arg_slot(
    params: Seq<AbiParam>,
    args_or_rets: ArgsOrRets,
    i: int,
) -> ABIArgSlot {
    let p = params[i];
    if i < QUEUE_CAPACITY || args_or_rets is Rets {
        ABIArgSlot::Reg { reg: Reg::Real(i as u8), ty: p.value_type, extension: p.extension }
    } else {
        ABIArgSlot::Stack {
            offset: value_offset(stack_passed(params), i - QUEUE_CAPACITY) as i64,
            ty: p.value_type,
            extension: p.extension,
        }
    }
}

impl ScryMachineDeps {
    /// The width of a machine word.
    pub fn word_bits() -> (r: u32)
        ensures
            r == 32,
    {
        32
    }

    /// The alignment of the stack in bytes.
    pub fn stack_align() -> (r: u32)
        ensures
            r == 16,
    {
        16
    }

    /// Where the values of a list are passed, and the size of the stack area
    /// that the common machinery has to account for.
    ///
    /// The first [`QUEUE_CAPACITY`] arguments are passed as call operands, any
    /// further arguments on the stack. Return values beyond that are
    /// stack-passed too, but are deliberately given register slots: the area's
    /// location is implied by the frame handoff, so no size is reported.
    pub fn compute_arg_locs(params: &Vec<AbiParam>, args_or_rets: ArgsOrRets) -> (r: (
        Vec<ABIArgSlot>,
        u32,
    ))
        requires
            forall|i: int| 0 <= i < params@.len() ==> #[trigger] params@[i].purpose is Normal,
            area_size(params@) <= u32::MAX,
            args_or_rets is Rets ==> params@.len() <= 64,
        ensures
            r.0@ == Seq::new(params@.len(), |i: int| arg_slot(params@, args_or_rets, i)),
            r.1 == (if args_or_rets is Rets {
                0
            } else {
                area_size(params@)
            }),
    {
        let layout = stack_values_layout(params);
        let is_rets: bool = match args_or_rets {
            ArgsOrRets::Rets => true,
            ArgsOrRets::Args => false,
        };
        let ghost expected = Seq::new(
            params@.len(),
            |i: int| arg_slot(params@, args_or_rets, i),
        );
        let mut slots: Vec<ABIArgSlot> = Vec::new();
        for i in 0..params.len()
            invariant
                is_rets == (args_or_rets is Rets),
                is_rets ==> params@.len() <= 64,
                layout.0@.len() == stack_passed(params@).len(),
                forall|k: int|
                    0 <= k < layout.0@.len() ==> #[trigger] layout.0@[k] == value_offset(
                        stack_passed(params@),
                        k,
                    ),
                expected == Seq::new(params@.len(), |i: int| arg_slot(params@, args_or_rets, i)),
                slots@ == expected.take(i as int),
        {
            let p = params[i];
            let slot = if i < QUEUE_CAPACITY || is_rets {
                ABIArgSlot::Reg {
                    reg: real_int_reg(i),
                    ty: p.value_type,
                    extension: p.extension,
                }
            } else {
                ABIArgSlot::Stack {
                    offset: layout.0[i - QUEUE_CAPACITY] as i64,
                    ty: p.value_type,
                    extension: p.extension,
                }
            };
            slots.push(slot);
            assert(slots@ =~= expected.take(i as int + 1));
        }
        assert(slots@ =~= expected);
        let size: u32 = if is_rets {
            0
        } else {
            layout.1
        };
        (slots, size)
    }

    /// Loads a stack-passed argument on the callee's side: the incoming argument
    /// area sits at the base of the private frame (offset 0).
    pub fn gen_load_stack(mem: StackAMode, into_reg: Reg, ty: Type) -> (r: MInst)
        requires
            is_machine_int(ty),
            mem matches StackAMode::IncomingArg(offset, _) && offset >= 0 && offset as int
                % ty.spec_bytes() == 0 && offset as int / ty.spec_bytes() <= 31,
        ensures
            r@ == (MInstView::LoadStack {
                ty: spec_type_to_isatype(ty),
                rd: into_reg,
                idx: (mem->IncomingArg_0 as int / ty.spec_bytes()) as u16,
            }),
    {
        let offset: i64 = match mem {
            StackAMode::IncomingArg(offset, _) => offset,
            _ => 0,
        };
        let scale: i64 = ty.bytes() as i64;
        let idx: i64 = offset / scale;
        proof {
            vstd::arithmetic::div_mod::lemma_div_pos_is_pos(offset as int, scale as int);
        }
        MInst::LoadStack { ty: type_to_isatype(ty), rd: into_reg, idx: idx as u16 }
    }

    /// Stores a stack-passed argument on the caller's side. The frame offset of
    /// the outgoing argument area is not known yet, so the access is resolved
    /// later.
    pub fn gen_store_stack(mem: StackAMode, from_reg: Reg, ty: Type) -> (r: MInst)
        requires
            mem matches StackAMode::OutgoingArg(offset) && 0 <= offset <= u16::MAX,
        ensures
            r@ == (MInstView::StoreStackArg {
                rs: from_reg,
                offset: mem->OutgoingArg_0 as u16,
                scale_pow2: ty.spec_log2_bytes() as u16,
            }),
    {
        let offset: i64 = match mem {
            StackAMode::OutgoingArg(offset) => offset,
            _ => 0,
        };
        MInst::StoreStackArg { rs: from_reg, offset: offset as u16, scale_pow2: ty.log2_bytes() }
    }

    /// The extension that arguments get: none.
    pub fn get_ext_mode(specified: ArgumentExtension) -> (r: ArgumentExtension)
        ensures
            r is NoExt,
    {
        ArgumentExtension::NoExt
    }

    /// The instruction that defines the arguments.
    pub fn gen_args(args: Vec<ArgPair>) -> (r: MInst)
        ensures
            r@ == (MInstView::Args { args: args@ }),
    {
        MInst::Args { args }
    }

    /// The instructions that set up a frame behind the ones that reserve it: none.
    pub fn gen_prologue_frame_setup() -> (r: Vec<MInst>)
        ensures
            r@.len() == 0,
    {
        Vec::new()
    }

    /// The instructions that restore the caller's frame: none.
    pub fn gen_epilogue_frame_restore() -> (r: Vec<MInst>)
        ensures
            r@.len() == 0,
    {
        Vec::new()
    }

    /// The instructions that return behind the return trigger: none.
    pub fn gen_return() -> (r: Vec<MInst>)
        ensures
            r@.len() == 0,
    {
        Vec::new()
    }

    /// The instructions that save clobbered registers: none.
    pub fn gen_clobber_save() -> (r: Vec<MInst>)
        ensures
            r@.len() == 0,
    {
        Vec::new()
    }

    /// The instructions that restore clobbered registers: none.
    pub fn gen_clobber_restore() -> (r: Vec<MInst>)
        ensures
            r@.len() == 0,
    {
        Vec::new()
    }

    /// The instruction that returns values.
    pub fn gen_rets(rets: Vec<ArgPair>) -> (r: MInst)
        ensures
            r@ == (MInstView::Rets { rets: rets@ }),
    {
        MInst::Rets { rets }
    }
}

} // verus!
