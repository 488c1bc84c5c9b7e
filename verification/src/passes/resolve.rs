//! Resolution of the typed instructions into machine operations.
use crate::abi::{
    abi_param_to_isatype, arg_area_base, areas_fit, areas_fit_parts, is_machine_int,
    spec_abi_param_to_isatype, spec_arg_area_base, stack_passed, stack_values_layout, value_offset,
};
use crate::bb::{BBView, VCodeBB};
use crate::cfg::{rewritten_from, run_pass, BlockPass, VCodeCFG};
use crate::inst::{
    views, BinaryAluOp, DoubleAluOp, MInst, MInstOf, MInstView, ResizeVariant, QUEUE_CAPACITY,
};
use crate::ir::{self, AbiParam, IntCC, Signature, SignatureView};
use crate::isa::{Alu2OutputVariant, Alu2Variant, AluVariant};
use crate::isatype::{known_int, IsaType};
use crate::lower::{scale_for, scale_of_pow2};
use crate::passes::casts::{apply_cast_demands, cast_blocks, cast_blocks_grow};
use crate::passes::infer::{has_registers, Demand, Inference, Known};
use crate::passes::types::{phase, type_analysis_phase};
use crate::reg::{ran_out, CodegenError, Reg, VRegAllocator, VREG_LIMIT};
use crate::typemap::{defaults_wf, TypeMap, TypesView};
use vstd::prelude::*;

verus! {

broadcast use crate::inst::views_push;

/// A register is refined by the type of a value of the signature.
pub open spec fn seeded_one(types: TypesView, r: Reg, p: AbiParam) -> Option<TypesView> {
    if !is_machine_int(p.value_type) {
        None
    } else {
        match types.get(r).spec_refine(spec_abi_param_to_isatype(p)) {
            Some(t) => Some(types.set(r, t)),
            None => None,
        }
    }
}

/// The function's parameters, from the `k`th on, give their types to the entry
/// block's registers.
pub open spec fn seeded_params(
    types: TypesView,
    regs: Seq<Reg>,
    params: Seq<AbiParam>,
    k: int,
) -> Option<TypesView>
    decreases regs.len() - k,
{
    if k >= regs.len() || k >= params.len() {
        Some(types)
    } else {
        match seeded_one(types, regs[k], params[k]) {
            Some(t) => seeded_params(t, regs, params, k + 1),
            None => None,
        }
    }
}

/// The stack-passed parameter at an offset of the argument area, from the `k`th
/// on.
pub open spec fn param_at(params: Seq<AbiParam>, offset: int, k: int) -> int
    decreases stack_passed(params).len() - k,
{
    if k >= stack_passed(params).len() || value_offset(stack_passed(params), k) == offset {
        k
    } else {
        param_at(params, offset, k + 1)
    }
}

/// An argument load of the entry block gives its register the type of the
/// parameter that it loads. Only argument loads have a type of unknown
/// signedness.
pub open spec fn seeded_load(types: TypesView, sig: SignatureView, inst: MInstView) -> Option<
    TypesView,
> {
    match inst {
        MInstOf::LoadStack { ty: IsaType::Integer(s), rd, idx } => if s > 31 {
            None
        } else {
            // Offsets wrap around at 32 bits.
            let place = (idx * scale_of_pow2(s as int)) % 0x1_0000_0000;
            let offset = place - spec_arg_area_base(sig);
            let k = param_at(sig.params, offset, 0);
            if offset < 0 || k >= stack_passed(sig.params).len() {
                None
            } else {
                seeded_one(types, rd, sig.params[QUEUE_CAPACITY + k])
            }
        },
        _ => Some(types),
    }
}

/// The entry block's argument loads, from position `i` on.
pub open spec fn seeded_loads(
    types: TypesView,
    sig: SignatureView,
    insts: Seq<MInstView>,
    i: int,
) -> Option<TypesView>
    decreases insts.len() - i,
{
    if i >= insts.len() {
        Some(types)
    } else {
        match seeded_load(types, sig, insts[i]) {
            Some(t) => seeded_loads(t, sig, insts, i + 1),
            None => None,
        }
    }
}

/// The types that the signature gives.
pub open spec fn seeded(types: TypesView, sig: SignatureView, entry: BBView) -> Option<TypesView> {
    match seeded_params(types, entry.params, sig.params, 0) {
        Some(t) => seeded_loads(t, sig, entry.inst, 0),
        None => None,
    }
}

/// Both phases of the inference.
#[verifier::opaque]
pub open spec fn both_phases(
    types: TypesView,
    bbs: Seq<BBView>,
    succs: Map<usize, Seq<usize>>,
    rets: Seq<AbiParam>,
) -> Option<Known> {
    match phase(Known { types, demands: Seq::empty() }, bbs, succs, rets, false) {
        Some(s) => phase(s, bbs, succs, rets, true),
        None => None,
    }
}

/// The inference with insertion of the demanded casts, in at most `rounds`
/// rounds, until no casts are demanded: the blocks, the types and the index of
/// the next register.
pub open spec fn analyzed(
    bbs: Seq<BBView>,
    succs: Map<usize, Seq<usize>>,
    rets: Seq<AbiParam>,
    types: TypesView,
    next: int,
    rounds: nat,
) -> Option<((Seq<BBView>, TypesView), int)>
    decreases rounds,
{
    match both_phases(types, bbs, succs, rets) {
        None => None,
        Some(s) => if s.demands.len() == 0 {
            Some(((bbs, s.types), next))
        } else if rounds <= 1 {
            None
        } else {
            match cast_blocks(bbs, s.types, s.demands, 0, next) {
                None => None,
                Some(((b, t), n)) => analyzed(b, succs, rets, t, n, (rounds - 1) as nat),
            }
        },
    }
}

proof fn analyzed_grows(
    bbs: Seq<BBView>,
    succs: Map<usize, Seq<usize>>,
    rets: Seq<AbiParam>,
    types: TypesView,
    next: int,
    rounds: nat,
)
    ensures
        analyzed(bbs, succs, rets, types, next, rounds) matches Some((_, n)) ==> n >= next,
    decreases rounds,
{
    if let Some(s) = both_phases(types, bbs, succs, rets) {
        if s.demands.len() > 0 && rounds > 1 {
            cast_blocks_grow(bbs, s.types, s.demands, 0, next);
            if let Some(((b, t), n)) = cast_blocks(bbs, s.types, s.demands, 0, next) {
                analyzed_grows(b, succs, rets, t, n, (rounds - 1) as nat);
            }
        }
    }
}

/// How often the inference may be repeated.
pub const MAX_ROUNDS: usize = 8;

/// How the inference fails. Code is too large only once no register is left: the
/// next index, `left`, is the limit.
pub open spec fn refused_typed<T>(result: Option<(T, int)>, e: CodegenError, left: u32) -> bool {
    match result {
        None => {
            ||| e is TypeConflict
            ||| e is Malformed
            ||| ran_out(e, left)
        },
        Some((_, next)) => next > VREG_LIMIT && ran_out(e, left),
    }
}

fn seed_one(types: &mut TypeMap, r: Reg, p: &AbiParam) -> (ok: bool)
    requires
        old(types).wf(),
    ensures
        final(types).wf(),
        ok ==> seeded_one(old(types)@, r, *p) == Some(final(types)@),
        !ok ==> seeded_one(old(types)@, r, *p) is None,
{
    if !has_registers(p.value_type) {
        return false;
    }
    let t = types.get(r);
    match t.refine(abi_param_to_isatype(p)) {
        Some(x) => {
            types.update(r, x);
            true
        },
        None => false,
    }
}

fn seed_params(types: &mut TypeMap, regs: &Vec<Reg>, params: &Vec<AbiParam>) -> (ok: bool)
    requires
        old(types).wf(),
    ensures
        final(types).wf(),
        ok ==> seeded_params(old(types)@, regs@, params@, 0) == Some(final(types)@),
        !ok ==> seeded_params(old(types)@, regs@, params@, 0) is None,
{
    let ghost whole = seeded_params(types@, regs@, params@, 0);
    let n: usize = if regs.len() <= params.len() {
        regs.len()
    } else {
        params.len()
    };
    for k in 0..n
        invariant
            types.wf(),
            n <= regs@.len(),
            n <= params@.len(),
            whole == seeded_params(old(types)@, regs@, params@, 0),
            whole == seeded_params(types@, regs@, params@, k as int),
    {
        if !seed_one(types, regs[k], &params[k]) {
            return false;
        }
    }
    true
}

fn seed_loads(types: &mut TypeMap, sig: &Signature, insts: &Vec<MInst>) -> (ok: bool)
    requires
        old(types).wf(),
        areas_fit(sig@),
    ensures
        final(types).wf(),
        ok ==> seeded_loads(old(types)@, sig@, views(insts@), 0) == Some(final(types)@),
        !ok ==> seeded_loads(old(types)@, sig@, views(insts@), 0) is None,
{
    let ghost all = views(insts@);
    let ghost whole = seeded_loads(types@, sig@, all, 0);
    proof {
        areas_fit_parts(sig@);
    }
    let layout = stack_values_layout(&sig.params);
    let offsets = layout.0;
    let base: u32 = arg_area_base(sig);
    for i in 0..insts.len()
        invariant
            types.wf(),
            all == views(insts@),
            base == spec_arg_area_base(sig@),
            offsets@.len() == stack_passed(sig.params@).len(),
            forall|k: int|
                0 <= k < offsets@.len() ==> #[trigger] offsets@[k] == value_offset(
                    stack_passed(sig.params@),
                    k,
                ),
            whole == seeded_loads(old(types)@, sig@, all, 0),
            whole == seeded_loads(types@, sig@, all, i as int),
    {
        assert(all[i as int] == insts@[i as int]@);
        match &insts[i] {
            MInst::LoadStack { ty: IsaType::Integer(s), rd, idx } => {
                if *s > 31 {
                    return false;
                }
                let scale: u64 = scale_for(*s as u16) as u64;
                let index: u64 = *idx as u64;
                assert(index * scale <= 0xffff * 0xffff_ffff) by (nonlinear_arith)
                    requires
                        index <= 0xffff,
                        scale <= 0xffff_ffff,
                ;
                let place: u32 = (index * scale % 0x1_0000_0000) as u32;
                if place < base {
                    return false;
                }
                let offset: u32 = place - base;
                let mut k: usize = 0;
                while k < offsets.len() && offsets[k] != offset
                    invariant
                        k <= offsets@.len(),
                        offsets@.len() == stack_passed(sig.params@).len(),
                        forall|k: int|
                            0 <= k < offsets@.len() ==> #[trigger] offsets@[k] == value_offset(
                                stack_passed(sig.params@),
                                k,
                            ),
                        param_at(sig.params@, offset as int, 0) == param_at(
                            sig.params@,
                            offset as int,
                            k as int,
                        ),
                    decreases offsets@.len() - k,
                {
                    k = k + 1;
                }
                if k >= offsets.len() {
                    return false;
                }
                assert(k + QUEUE_CAPACITY < sig.params@.len());
                let n: usize = sig.params.len();
                if !seed_one(types, *rd, &sig.params[QUEUE_CAPACITY + k]) {
                    return false;
                }
            },
            _ => {},
        }
    }
    true
}

/// Both phases of the inference, starting with the given types.
fn analyze_once(cfg: &VCodeCFG, rets: &Vec<AbiParam>, types: TypeMap) -> (r: Option<Inference>)
    requires
        cfg.wf(),
        types.wf(),
    ensures
        match r {
            Some(inf) => inf.wf() && both_phases(types@, cfg.bbs(), cfg.succs(), rets@) == Some(
                inf@,
            ),
            None => both_phases(types@, cfg.bbs(), cfg.succs(), rets@) is None,
        },
{
    proof {
        reveal(both_phases);
    }
    let ghost start = types@;
    let demands: Vec<Demand> = Vec::new();
    let inf = Inference { types, demands, dirty: false, base: Ghost(start) };
    assert(inf@ == Known { types: start, demands: Seq::empty() });
    match type_analysis_phase(cfg, rets, false, inf) {
        Some(hard) => type_analysis_phase(cfg, rets, true, hard),
        None => None,
    }
}

/// Infers the types of all registers, inserting casts where hard requirements on
/// one value contradict each other.
///
/// The fixpoint runs in two phases. The first propagates only hard constraints;
/// the second additionally enables the best-effort unifications, which can then
/// never commit a signedness that a hard constraint would contradict. The
/// analysis is rerun until no casts are demanded.
pub fn type_analysis(
    given: VCodeCFG,
    defaults: Vec<Option<ir::Type>>,
    sig: &Signature,
    vregs: &mut VRegAllocator,
) -> (r: Result<(VCodeCFG, TypeMap), CodegenError>)
    requires
        given.wf(),
        old(vregs).wf(),
        defaults_wf(defaults@),
        areas_fit(sig@),
    ensures
        final(vregs).wf(),
        match r {
            Ok((c, types)) => {
                &&& c.wf()
                &&& c.graph == given.graph
                &&& c.root == given.root
                &&& types.wf()
                &&& typed(
                    given.bbs(),
                    given.succs(),
                    given.root as int,
                    sig@,
                    defaults@,
                    old(vregs).next as int,
                ) == Some(((c.bbs(), types@), final(vregs).next as int))
            },
            Err(e) => refused_typed(
                typed(
                    given.bbs(),
                    given.succs(),
                    given.root as int,
                    sig@,
                    defaults@,
                    old(vregs).next as int,
                ),
                e,
                final(vregs).next,
            ),
        },
{
    let ghost whole = typed(
        given.bbs(),
        given.succs(),
        given.root as int,
        sig@,
        defaults@,
        vregs.next as int,
    );
    let ghost next0 = vregs.next as int;
    let ghost bbs0 = given.bbs();
    let root: usize = given.root;
    let mut types = TypeMap::new(defaults);
    assert(given.bbs()[root as int] == given.blocks@[root as int]@);
    if !seed_params(&mut types, &given.blocks[root].params, &sig.params) {
        return Err(CodegenError::TypeConflict);
    }
    if !seed_loads(&mut types, sig, &given.blocks[root].inst) {
        return Err(CodegenError::TypeConflict);
    }
    let ghost graph = given.graph;
    let ghost succs = given.succs();
    let mut cfg = given;
    let mut rounds: usize = MAX_ROUNDS;
    loop
        invariant
            1 <= rounds,
            cfg.wf(),
            cfg.graph == graph,
            cfg.root == root,
            cfg.succs() == succs,
            vregs.wf(),
            types.wf(),
            next0 == old(vregs).next,
            bbs0 == given.bbs(),
            succs == given.succs(),
            graph == given.graph,
            root == given.root,
            whole == typed(bbs0, succs, root as int, sig@, defaults@, next0),
            whole == analyzed(
                cfg.bbs(),
                succs,
                sig@.rets,
                types@,
                vregs.next as int,
                rounds as nat,
            ),
        decreases rounds,
    {
        let ghost bbs = cfg.bbs();
        let ghost start = types@;
        let inf = match analyze_once(&cfg, &sig.rets, types) {
            Some(inf) => inf,
            None => {
                return Err(CodegenError::TypeConflict);
            },
        };
        types = inf.types;
        let demands = inf.demands;
        if demands.len() == 0 {
            return Ok((cfg, types));
        }
        if rounds <= 1 {
            return Err(CodegenError::Malformed);
        }
        let ghost known = types@;
        proof {
            cast_blocks_grow(bbs, known, demands@, 0, vregs.next as int);
            if let Some(((b, t), n)) = cast_blocks(bbs, known, demands@, 0, vregs.next as int) {
                analyzed_grows(b, succs, sig@.rets, t, n, (rounds - 1) as nat);
            }
        }
        cfg = match apply_cast_demands(cfg, &demands, &mut types, vregs) {
            Ok(c) => c,
            Err(e) => {
                return Err(e);
            },
        };
        rounds = rounds - 1;
    }
}

/// The blocks with casts inserted, and the types of all registers.
pub open spec fn typed(
    bbs: Seq<BBView>,
    succs: Map<usize, Seq<usize>>,
    root: int,
    sig: SignatureView,
    defaults: Seq<Option<ir::Type>>,
    next: int,
) -> Option<((Seq<BBView>, TypesView), int)> {
    match seeded(TypesView { assigned: Map::empty(), defaults }, sig, bbs[root]) {
        Some(types) => analyzed(bbs, succs, sig.rets, types, next, MAX_ROUNDS as nat),
        None => None,
    }
}

/// A type of which only the signedness is open is unsigned.
pub open spec fn default_unsigned(t: IsaType) -> IsaType {
    match t {
        IsaType::Integer(size) => known_int(size, false),
        _ => t,
    }
}

/// A two-output operation that keeps its low output.
pub open spec fn low_output_of(var: Alu2Variant, rd: Reg, rs1: Reg, rs2: Reg) -> MInstView {
    MInstOf::Alu2 {
        var,
        out_var: Alu2OutputVariant::LowOnly,
        rds: seq![rd],
        rss: seq![rs1, rs2],
        outs: seq![0u16],
    }
}

/// A single-output operation.
pub open spec fn single_output_of(var: AluVariant, rd: Reg, rs1: Reg, rs2: Reg) -> MInstView {
    MInstOf::Alu1 { var, rd, rss: seq![rs1, rs2], out: 0 }
}

/// An instruction resolved by the types of its registers; `None` where they do
/// not allow it.
pub open spec fn resolved(inst: MInstView, types: TypesView) -> Option<MInstView> {
    match inst {
        // Wrapping operations are the low output of the two-output operations.
        MInstOf::BinaryAlu { op, rd, rs1, rs2 } => {
            Some(
                match op {
                    BinaryAluOp::IntAddWrap => low_output_of(Alu2Variant::Add, rd, rs1, rs2),
                    BinaryAluOp::IntSubWrap => low_output_of(Alu2Variant::Sub, rd, rs1, rs2),
                    BinaryAluOp::IntMulWrap => low_output_of(Alu2Variant::Multiply, rd, rs1, rs2),
                    BinaryAluOp::BitAnd => single_output_of(AluVariant::BitAnd, rd, rs1, rs2),
                    BinaryAluOp::BitOr => single_output_of(AluVariant::BitOr, rd, rs1, rs2),
                    BinaryAluOp::BitXor => single_output_of(AluVariant::BitXor, rd, rs1, rs2),
                },
            )
        },
        MInstOf::DoubleAlu { op, rdl, rdh, rs1, rs2 } => Some(
            MInstOf::Alu2 {
                var: match op {
                    DoubleAluOp::SaddOverflow | DoubleAluOp::UaddOverflow => Alu2Variant::Add,
                    DoubleAluOp::UsubOverflow | DoubleAluOp::SsubOverflow => Alu2Variant::Sub,
                    DoubleAluOp::UmulHi | DoubleAluOp::SmulHi => Alu2Variant::Multiply,
                    DoubleAluOp::UdivRem | DoubleAluOp::SdivRem => Alu2Variant::Division,
                    DoubleAluOp::Shl | DoubleAluOp::Ushr | DoubleAluOp::Sshr => Alu2Variant::Shift,
                },
                out_var: Alu2OutputVariant::LowFirst,
                rds: seq![rdl, rdh],
                rss: seq![rs1, rs2],
                outs: seq![0u16, 0u16],
            },
        ),
        // The remaining conditions are lowered as the negation of the opposite.
        MInstOf::IntCmp { cc, rd, rs1, rs2 } => match cc {
            IntCC::Equal => Some(
                MInstOf::Alu1 { var: AluVariant::Equal, rd, rss: seq![rs1, rs2], out: 0 },
            ),
            IntCC::SignedLessThan | IntCC::UnsignedLessThan => Some(
                MInstOf::Alu1 { var: AluVariant::LessThan, rd, rss: seq![rs1, rs2], out: 0 },
            ),
            IntCC::SignedGreaterThan | IntCC::UnsignedGreaterThan => Some(
                MInstOf::Alu1 { var: AluVariant::GreaterThan, rd, rss: seq![rs1, rs2], out: 0 },
            ),
            _ => None,
        },
        MInstOf::Resize { var, rd, rs } => {
            let rd_t = types.get(rd);
            let rs_t = types.get(rs);
            if rd_t == rs_t || (var is Reduce && !(rd_t.spec_is_int() && rs_t.spec_is_int())) {
                None
            } else {
                Some(MInstOf::Cast { rd, ty: rd_t, rs, out: 0 })
            }
        },
        MInstOf::Const { rd, imm, .. } => if types.get(rd).spec_is_int() {
            Some(MInstOf::Const { ty: default_unsigned(types.get(rd)), rd, imm })
        } else {
            None
        },
        MInstOf::Load { rd, rs, out, .. } => if types.get(rd).spec_is_int() {
            Some(MInstOf::Load { ty: default_unsigned(types.get(rd)), rd, rs, out })
        } else {
            None
        },
        MInstOf::LoadStack { rd, idx, .. } => if types.get(rd).spec_is_int() {
            Some(MInstOf::LoadStack { ty: default_unsigned(types.get(rd)), rd, idx })
        } else {
            None
        },
        _ => Some(inst),
    }
}

/// The instructions from position `i` on, resolved.
pub open spec fn resolved_from(insts: Seq<MInstView>, types: TypesView, i: int) -> Option<
    Seq<MInstView>,
>
    decreases insts.len() - i,
{
    if i >= insts.len() {
        Some(Seq::empty())
    } else {
        match (resolved(insts[i], types), resolved_from(insts, types, i + 1)) {
            (Some(first), Some(rest)) => Some(seq![first] + rest),
            _ => None,
        }
    }
}

fn fill_type(t: IsaType) -> (r: IsaType)
    ensures
        r == default_unsigned(t),
{
    match t {
        IsaType::Integer(size) => IsaType::new_known_int(size, false),
        t => t,
    }
}

fn two_regs(a: Reg, b: Reg) -> (r: Vec<Reg>)
    ensures
        r@ == seq![a, b],
{
    let r: Vec<Reg> = vec![a, b];
    assert(r@ =~= seq![a, b]);
    r
}

fn low_output(var: Alu2Variant, rd: Reg, rs1: Reg, rs2: Reg) -> (r: MInst)
    ensures
        r@ == low_output_of(var, rd, rs1, rs2),
{
    let rds: Vec<Reg> = vec![rd];
    let outs: Vec<u16> = vec![0];
    assert(rds@ =~= seq![rd]);
    assert(outs@ =~= seq![0u16]);
    MInst::Alu2 {
        var,
        out_var: Alu2OutputVariant::LowOnly,
        rds,
        rss: two_regs(rs1, rs2),
        outs,
    }
}

fn single_output(var: AluVariant, rd: Reg, rs1: Reg, rs2: Reg) -> (r: MInst)
    ensures
        r@ == single_output_of(var, rd, rs1, rs2),
{
    MInst::Alu1 { var, rd, rss: two_regs(rs1, rs2), out: 0 }
}

/// Resolves an instruction by the types of its registers.
fn resolve(inst: &MInst, types: &TypeMap) -> (r: Option<MInst>)
    requires
        types.wf(),
    ensures
        match r {
            Some(done) => resolved(inst@, types@) == Some(done@),
            None => resolved(inst@, types@) is None,
        },
{
    match inst {
        MInst::BinaryAlu { op, rd, rs1, rs2 } => Some(
            match op {
                BinaryAluOp::IntAddWrap => low_output(Alu2Variant::Add, *rd, *rs1, *rs2),
                BinaryAluOp::IntSubWrap => low_output(Alu2Variant::Sub, *rd, *rs1, *rs2),
                BinaryAluOp::IntMulWrap => low_output(Alu2Variant::Multiply, *rd, *rs1, *rs2),
                BinaryAluOp::BitAnd => single_output(AluVariant::BitAnd, *rd, *rs1, *rs2),
                BinaryAluOp::BitOr => single_output(AluVariant::BitOr, *rd, *rs1, *rs2),
                BinaryAluOp::BitXor => single_output(AluVariant::BitXor, *rd, *rs1, *rs2),
            },
        ),
        MInst::DoubleAlu { op, rdl, rdh, rs1, rs2 } => {
            let var = match op {
                DoubleAluOp::SaddOverflow | DoubleAluOp::UaddOverflow => Alu2Variant::Add,
                DoubleAluOp::UsubOverflow | DoubleAluOp::SsubOverflow => Alu2Variant::Sub,
                DoubleAluOp::UmulHi | DoubleAluOp::SmulHi => Alu2Variant::Multiply,
                DoubleAluOp::UdivRem | DoubleAluOp::SdivRem => Alu2Variant::Division,
                DoubleAluOp::Shl | DoubleAluOp::Ushr | DoubleAluOp::Sshr => Alu2Variant::Shift,
            };
            let outs: Vec<u16> = vec![0, 0];
            assert(outs@ =~= seq![0u16, 0u16]);
            Some(
                MInst::Alu2 {
                    var,
                    out_var: Alu2OutputVariant::LowFirst,
                    rds: two_regs(*rdl, *rdh),
                    rss: two_regs(*rs1, *rs2),
                    outs,
                },
            )
        },
        MInst::IntCmp { cc, rd, rs1, rs2 } => match cc {
            IntCC::Equal => Some(single_output(AluVariant::Equal, *rd, *rs1, *rs2)),
            IntCC::SignedLessThan | IntCC::UnsignedLessThan => Some(
                single_output(AluVariant::LessThan, *rd, *rs1, *rs2),
            ),
            IntCC::SignedGreaterThan | IntCC::UnsignedGreaterThan => Some(
                single_output(AluVariant::GreaterThan, *rd, *rs1, *rs2),
            ),
            _ => None,
        },
        MInst::Resize { var, rd, rs } => {
            let rd_t = types.get(*rd);
            let rs_t = types.get(*rs);
            let reduce: bool = match var {
                ResizeVariant::Reduce => true,
                _ => false,
            };
            if rd_t == rs_t || (reduce && !(rd_t.is_int() && rs_t.is_int())) {
                None
            } else {
                Some(MInst::Cast { rd: *rd, ty: rd_t, rs: *rs, out: 0 })
            }
        },
        MInst::Const { rd, imm, .. } => {
            let t = types.get(*rd);
            if t.is_int() {
                Some(MInst::Const { ty: fill_type(t), rd: *rd, imm: *imm })
            } else {
                None
            }
        },
        MInst::Load { rd, rs, out, .. } => {
            let t = types.get(*rd);
            if t.is_int() {
                Some(MInst::Load { ty: fill_type(t), rd: *rd, rs: *rs, out: *out })
            } else {
                None
            }
        },
        MInst::LoadStack { rd, idx, .. } => {
            let t = types.get(*rd);
            if t.is_int() {
                Some(MInst::LoadStack { ty: fill_type(t), rd: *rd, idx: *idx })
            } else {
                None
            }
        },
        other => Some(other.copy()),
    }
}

/// Resolves the instructions of a block by the types of their registers.
pub struct ResolveTypes {
    pub types: TypeMap,
}

impl BlockPass for ResolveTypes {
    open spec fn ready(&self) -> bool {
        self.types.wf()
    }

    open spec fn rewritten(&self, v: int, bb: BBView, next: int) -> Option<(BBView, int)> {
        match resolved_from(bb.inst, self.types@, 0) {
            Some(inst) => Some((BBView { inst, ..bb }, next)),
            None => None,
        }
    }

    proof fn grows(&self, v: int, bb: BBView, next: int) {
    }

    fn run(&self, v: usize, bb: &VCodeBB, vregs: &mut VRegAllocator) -> Result<
        VCodeBB,
        CodegenError,
    > {
        let ghost insts = bb@.inst;
        let ghost types = self.types@;
        let mut r: Vec<MInst> = Vec::new();
        for i in 0..bb.inst.len()
            invariant
                self.types.wf(),
                insts == views(bb.inst@),
                types == self.types@,
                vregs.wf(),
                vregs.next == old(vregs).next,
                resolved_from(insts, types, 0) == (match resolved_from(insts, types, i as int) {
                    Some(rest) => Some(views(r@) + rest),
                    None => None,
                }),
        {
            broadcast use crate::inst::views_push;

            assert(insts[i as int] == bb.inst@[i as int]@);
            let ghost before = views(r@);
            match resolve(&bb.inst[i], &self.types) {
                Some(done) => {
                    r.push(done);
                    proof {
                        if let Some(rest) = resolved_from(insts, types, i as int + 1) {
                            assert(before + (seq![done@] + rest) =~= views(r@) + rest);
                        }
                    }
                },
                None => {
                    return Err(CodegenError::Malformed);
                },
            }
        }
        assert(views(r@) + Seq::<MInstView>::empty() =~= views(r@));
        Ok(bb.with_insts(r))
    }
}

/// Resolves the instructions of all blocks by the types that the registers have
/// been given.
pub open spec fn types_resolved(
    bbs: Seq<BBView>,
    succs: Map<usize, Seq<usize>>,
    root: int,
    sig: SignatureView,
    defaults: Seq<Option<ir::Type>>,
    next: int,
) -> Option<(Seq<BBView>, int)> {
    match typed(bbs, succs, root, sig, defaults, next) {
        Some(((b, types), n)) => match blocks_resolved(b, types, 0) {
            Some(r) => Some((r, n)),
            None => None,
        },
        None => None,
    }
}

/// The blocks from `v` on, resolved.
pub open spec fn blocks_resolved(bbs: Seq<BBView>, types: TypesView, v: int) -> Option<Seq<BBView>>
    decreases bbs.len() - v,
{
    if v >= bbs.len() {
        Some(Seq::empty())
    } else {
        match (resolved_from(bbs[v].inst, types, 0), blocks_resolved(bbs, types, v + 1)) {
            (Some(inst), Some(rest)) => Some(seq![BBView { inst, ..bbs[v] }] + rest),
            _ => None,
        }
    }
}

/// Resolving block by block is resolving all blocks.
proof fn resolve_pass(pass: ResolveTypes, bbs: Seq<BBView>, v: int, next: int)
    ensures
        rewritten_from(pass, bbs, v, next) == (match blocks_resolved(bbs, pass.types@, v) {
            Some(r) => Some((r, next)),
            None => None,
        }),
    decreases bbs.len() - v,
{
    if v < bbs.len() {
        resolve_pass(pass, bbs, v + 1, next);
    }
}

/// Infers the types of all registers and resolves the typed instructions into
/// machine operations.
pub fn resolve_instruction_types(
    cfg: VCodeCFG,
    defaults: Vec<Option<ir::Type>>,
    sig: &Signature,
    vregs: &mut VRegAllocator,
) -> (r: Result<VCodeCFG, CodegenError>)
    requires
        cfg.wf(),
        old(vregs).wf(),
        defaults_wf(defaults@),
        areas_fit(sig@),
    ensures
        final(vregs).wf(),
        match r {
            Ok(c) => {
                &&& c.wf()
                &&& c.graph == cfg.graph
                &&& c.root == cfg.root
                &&& types_resolved(
                    cfg.bbs(),
                    cfg.succs(),
                    cfg.root as int,
                    sig@,
                    defaults@,
                    old(vregs).next as int,
                ) == Some((c.bbs(), final(vregs).next as int))
            },
            Err(e) => refused_typed(
                types_resolved(
                    cfg.bbs(),
                    cfg.succs(),
                    cfg.root as int,
                    sig@,
                    defaults@,
                    old(vregs).next as int,
                ),
                e,
                final(vregs).next,
            ),
        },
{
    let (c, types) = match type_analysis(cfg, defaults, sig, vregs) {
        Ok(found) => found,
        Err(e) => {
            return Err(e);
        },
    };
    let pass = ResolveTypes { types };
    proof {
        resolve_pass(pass, c.bbs(), 0, vregs.next as int);
    }
    run_pass(&pass, c, vregs)
}

/// Resolving types takes registers and hands none back.
pub proof fn types_resolved_grow(
    bbs: Seq<BBView>,
    succs: Map<usize, Seq<usize>>,
    root: int,
    sig: SignatureView,
    defaults: Seq<Option<ir::Type>>,
    next: int,
)
    ensures
        types_resolved(bbs, succs, root, sig, defaults, next) matches Some((_, n)) ==> n >= next,
{
    if let Some(types) = seeded(TypesView { assigned: Map::empty(), defaults }, sig, bbs[root]) {
        analyzed_grows(bbs, succs, sig.rets, types, next, MAX_ROUNDS as nat);
    }
}

/// Whether an instruction still leaves open which machine operation it is.
pub open spec fn unresolved(inst: MInstView) -> bool {
    inst is BinaryAlu || inst is DoubleAlu || inst is IntCmp || inst is Resize
}

proof fn resolved_from_resolves(insts: Seq<MInstView>, types: TypesView, i: int, k: int)
    requires
        0 <= i <= k < insts.len(),
        resolved_from(insts, types, i) is Some,
    ensures
        resolved_from(insts, types, i)->Some_0.len() == insts.len() - i,
        !unresolved(resolved_from(insts, types, i)->Some_0[k - i]),
    decreases k - i,
{
    resolved_from_len(insts, types, i);
    let all = resolved_from(insts, types, i)->Some_0;
    let rest = resolved_from(insts, types, i + 1)->Some_0;
    if i < k {
        resolved_from_resolves(insts, types, i + 1, k);
        assert(all[k - i] == rest[k - (i + 1)]);
    } else {
        assert(all[0] == resolved(insts[i], types)->Some_0);
    }
}

proof fn resolved_from_len(insts: Seq<MInstView>, types: TypesView, i: int)
    requires
        0 <= i <= insts.len(),
    ensures
        resolved_from(insts, types, i) matches Some(r) ==> r.len() == insts.len() - i,
    decreases insts.len() - i,
{
    if i < insts.len() {
        resolved_from_len(insts, types, i + 1);
    }
}

proof fn blocks_resolved_at(bbs: Seq<BBView>, types: TypesView, w: int, v: int)
    requires
        0 <= w <= v < bbs.len(),
        blocks_resolved(bbs, types, w) is Some,
    ensures
        resolved_from(bbs[v].inst, types, 0) == Some(
            blocks_resolved(bbs, types, w)->Some_0[v - w].inst,
        ),
    decreases v - w,
{
    let all = blocks_resolved(bbs, types, w)->Some_0;
    let rest = blocks_resolved(bbs, types, w + 1)->Some_0;
    blocks_resolved_len(bbs, types, w + 1);
    if w < v {
        blocks_resolved_at(bbs, types, w + 1, v);
        assert(all[v - w] == rest[v - (w + 1)]);
    }
}

proof fn blocks_resolved_len(bbs: Seq<BBView>, types: TypesView, v: int)
    requires
        0 <= v <= bbs.len(),
    ensures
        blocks_resolved(bbs, types, v) matches Some(r) ==> r.len() == bbs.len() - v,
    decreases bbs.len() - v,
{
    if v < bbs.len() {
        blocks_resolved_len(bbs, types, v + 1);
    }
}

/// Once the types are resolved, every instruction is a machine operation: no typed
/// operation, comparison or resizing is left.
pub proof fn no_typed_instruction_is_left(
    bbs: Seq<BBView>,
    succs: Map<usize, Seq<usize>>,
    root: int,
    sig: SignatureView,
    defaults: Seq<Option<ir::Type>>,
    next: int,
    v: int,
    k: int,
)
    requires
        types_resolved(bbs, succs, root, sig, defaults, next) is Some,
        ({
            let after = types_resolved(bbs, succs, root, sig, defaults, next)->Some_0.0;
            0 <= v < after.len() && 0 <= k < after[v].inst.len()
        }),
    ensures
        ({
            let after = types_resolved(bbs, succs, root, sig, defaults, next)->Some_0.0;
            !unresolved(after[v].inst[k])
        }),
{
    let ((b, types), n) = typed(bbs, succs, root, sig, defaults, next)->Some_0;
    blocks_resolved_len(b, types, 0);
    blocks_resolved_at(b, types, 0, v);
    resolved_from_len(b[v].inst, types, 0);
    resolved_from_resolves(b[v].inst, types, 0, k);
}

} // verus!
