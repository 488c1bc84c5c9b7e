//! Assembly of the final code: emission of all blocks and resolution of labels.
use crate::bb::BBView;
use crate::emission::{built_from, code_view, corrected_from};
use crate::emit::{code_with, emitted, emitted_has_emitted_length, Code, CodeBuffer, LabelRef, Reloc};
use crate::inst::{views, MInst, MInstView};
use crate::isa::Instruction;
use crate::label::{is_offset_chain, jump_offset_lands_on_target, landing, LabelUse};
use crate::passes::far_jumps::{start_of, MAX_CODE};
use crate::passes::triggers::emitted_span;
use crate::reg::CodegenError;
use vstd::prelude::*;

verus! {

/// The code of a function. Addresses count instructions.
pub struct CompiledCode {
    pub insts: Vec<Instruction>,
    /// The addresses of the blocks' first instructions.
    pub bb_starts: Vec<u32>,
    /// The references to symbols, with the addresses of their first instructions.
    pub relocs: Vec<Reloc>,
}

/// The code with a block's instructions from position `i` on emitted behind it. A
/// return's trigger is replaced by the epilogue, which is empty.
pub open spec fn emitted_from(code: Code, insts: Seq<MInstView>, i: int) -> Option<Code>
    decreases insts.len() - i,
{
    if i >= insts.len() {
        Some(code)
    } else if insts[i] is Rets {
        emitted_from(code, insts, i + 1)
    } else {
        match code_with(code, insts[i]) {
            Some(c) => emitted_from(c, insts, i + 1),
            None => None,
        }
    }
}

/// Whether the code gets too long while a block's instructions from position `i`
/// on are emitted.
pub open spec fn emission_overflows(code: Code, insts: Seq<MInstView>, i: int) -> bool
    decreases insts.len() - i,
{
    if i >= insts.len() {
        false
    } else if insts[i] is Rets {
        emission_overflows(code, insts, i + 1)
    } else {
        match emitted(insts[i]) {
            None => false,
            Some(new) => code.insts.len() + new.len() > MAX_CODE || emission_overflows(
                code_with(code, insts[i])->Some_0,
                insts,
                i + 1,
            ),
        }
    }
}

/// Whether the code gets too long while the blocks from the `b`th on are emitted.
pub open spec fn blocks_overflow(code: Code, blocks: Seq<Seq<MInstView>>, b: int) -> bool
    decreases blocks.len() - b,
{
    if b >= blocks.len() {
        false
    } else {
        match emitted_from(code, blocks[b], 0) {
            Some(c) => blocks_overflow(c, blocks, b + 1),
            None => emission_overflows(code, blocks[b], 0),
        }
    }
}

/// The code with the blocks from the `b`th on emitted behind it, and the
/// addresses of all blocks.
pub open spec fn blocks_emitted(
    code: Code,
    blocks: Seq<Seq<MInstView>>,
    starts: Seq<u32>,
    b: int,
) -> Option<(Code, Seq<u32>)>
    decreases blocks.len() - b,
{
    if b >= blocks.len() {
        Some((code, starts))
    } else if code.insts.len() > MAX_CODE {
        None
    } else {
        match emitted_from(code, blocks[b], 0) {
            Some(c) => blocks_emitted(c, blocks, starts.push(code.insts.len() as u32), b + 1),
            None => None,
        }
    }
}

/// The instructions with a label reference resolved; `None` where the label is
/// not a block's or out of reach.
pub open spec fn label_resolved(insts: Seq<Instruction>, starts: Seq<u32>, l: LabelRef) -> Option<
    Seq<Instruction>,
> {
    let end = l.addr + l.kind.patch_len();
    if l.label.index >= starts.len() || end > insts.len() {
        None
    } else {
        let part = insts.subrange(l.addr as int, end);
        let target = starts[l.label.index as int] as int;
        if l.kind.patchable(part, l.addr as int, target) {
            Some(
                insts.take(l.addr as int) + l.kind.patched(part, l.addr as int, target)
                    + insts.skip(end),
            )
        } else {
            None
        }
    }
}

/// The instructions with the label references from the `k`th on resolved.
pub open spec fn labels_resolved(
    insts: Seq<Instruction>,
    starts: Seq<u32>,
    labels: Seq<LabelRef>,
    k: int,
) -> Option<Seq<Instruction>>
    decreases labels.len() - k,
{
    if k >= labels.len() {
        Some(insts)
    } else {
        match label_resolved(insts, starts, labels[k]) {
            Some(done) => labels_resolved(done, starts, labels, k + 1),
            None => None,
        }
    }
}

/// The code without instructions.
pub open spec fn no_code() -> Code {
    Code { insts: Seq::empty(), labels: Seq::empty(), relocs: Seq::empty() }
}

/// The assembled code of a list of blocks: the instructions, the addresses of the
/// blocks and the references to symbols.
pub open spec fn assembled(blocks: Seq<Seq<MInstView>>) -> Option<
    (Seq<Instruction>, Seq<u32>, Seq<Reloc>),
> {
    match blocks_emitted(no_code(), blocks, Seq::empty(), 0) {
        None => None,
        Some((code, starts)) => match labels_resolved(code.insts, starts, code.labels, 0) {
            Some(insts) => Some((insts, starts, code.relocs)),
            None => None,
        },
    }
}

fn emit_block(sink: &mut CodeBuffer, insts: &Vec<MInst>) -> (r: Result<(), CodegenError>)
    ensures
        match r {
            Ok(()) => emitted_from(old(sink)@, views(insts@), 0) == Some(final(sink)@),
            Err(e) => emitted_from(old(sink)@, views(insts@), 0) is None && e
                == (if emission_overflows(old(sink)@, views(insts@), 0) {
                CodegenError::CodeTooLarge
            } else {
                CodegenError::Malformed
            }),
        },
{
    let ghost all = views(insts@);
    for i in 0..insts.len()
        invariant
            all == views(insts@),
            emission_overflows(old(sink)@, all, 0) == emission_overflows(sink@, all, i as int),
            emitted_from(old(sink)@, all, 0) == emitted_from(sink@, all, i as int),
    {
        assert(all[i as int] == insts@[i as int]@);
        let rets: bool = match &insts[i] {
            MInst::Rets { .. } => true,
            _ => false,
        };
        if !rets {
            match insts[i].emit(sink) {
                Ok(()) => {},
                Err(e) => {
                    return Err(e);
                },
            }
        }
    }
    Ok(())
}

impl LabelUse {
    /// Whether instructions can be patched to refer to a target.
    pub fn can_patch(self, insts: &Vec<Instruction>, use_addr: u32, target: u32) -> (r: bool)
        ensures
            r == self.patchable(insts@, use_addr as int, target as int),
    {
        match self {
            LabelUse::JmpTrig6 => {
                insts.len() == 1 && is_jump(&insts[0]) && use_addr <= target && target - use_addr
                    <= 63
            },
            LabelUse::JmpLoc7 => {
                if insts.len() != 1 {
                    return false;
                }
                match insts[0] {
                    Instruction::Jump(_, trig) => match LabelUse::jump_offset(
                        use_addr as i64,
                        trig as i64,
                        target as i64,
                    ) {
                        Some(offset) => self.can_reach(offset),
                        None => target as i64 == use_addr as i64 + trig as i64 + 1,
                    },
                    _ => false,
                }
            },
            LabelUse::JmpFar { size_pow2, trig, .. } => {
                if size_pow2 > 2 || insts.len() as u64 != (self.patch_size() / 2) as u64 {
                    return false;
                }
                if !check_chain(insts) {
                    return false;
                }
                let jump: i64 = use_addr as i64 + self.lead();
                match LabelUse::jump_offset(jump, trig as i64, target as i64) {
                    Some(offset) => self.can_reach(offset),
                    None => false,
                }
            },
        }
    }
}

fn is_jump(inst: &Instruction) -> (r: bool)
    ensures
        r == (*inst is Jump),
{
    match inst {
        Instruction::Jump(_, _) => true,
        _ => false,
    }
}

fn check_chain(insts: &Vec<Instruction>) -> (r: bool)
    ensures
        r == is_offset_chain(insts@),
{
    if insts.len() == 0 {
        return false;
    }
    match insts[0] {
        Instruction::Constant(_, _) => {},
        _ => {
            return false;
        },
    }
    for i in 1..insts.len()
        invariant
            insts@.len() > 0,
            insts@[0] is Constant,
            forall|j: int| 0 < j < i ==> #[trigger] insts@[j] is Grow,
    {
        match insts[i] {
            Instruction::Grow(_) => {},
            _ => {
                assert(!(insts@[i as int] is Grow));
                return false;
            },
        }
    }
    true
}

/// The instructions from `first` below `end`.
fn part_of(insts: &Vec<Instruction>, first: usize, end: usize) -> (r: Vec<Instruction>)
    requires
        first <= end <= insts@.len(),
    ensures
        r@ == insts@.subrange(first as int, end as int),
{
    let mut r: Vec<Instruction> = Vec::new();
    for i in first..end
        invariant
            first <= end <= insts@.len(),
            r@ == insts@.subrange(first as int, i as int),
    {
        r.push(insts[i]);
        assert(r@ =~= insts@.subrange(first as int, i as int + 1));
    }
    r
}

fn resolve_label(insts: &Vec<Instruction>, starts: &Vec<u32>, l: &LabelRef) -> (r: Option<
    Vec<Instruction>,
>)
    requires
        insts@.len() <= MAX_CODE,
        forall|i: int| 0 <= i < starts@.len() ==> (#[trigger] starts@[i]) <= MAX_CODE,
        l.addr <= MAX_CODE,
        l.kind matches LabelUse::JmpFar { size_pow2, .. } ==> size_pow2 <= 2,
    ensures
        match r {
            Some(done) => label_resolved(insts@, starts@, *l) == Some(done@) && done@.len()
                == insts@.len(),
            None => label_resolved(insts@, starts@, *l) is None,
        },
{
    let len: usize = (l.kind.patch_size() / 2) as usize;
    let addr: usize = l.addr as usize;
    if l.label.index as usize >= starts.len() || addr + len > insts.len() {
        return None;
    }
    let part = part_of(insts, addr, addr + len);
    let target: u32 = starts[l.label.index as usize];
    if !l.kind.can_patch(&part, l.addr, target) {
        return None;
    }
    assert(target <= MAX_CODE);
    let mut patched = l.kind.patch(&part, 2 * l.addr, 2 * target);
    let mut r = part_of(insts, 0, addr);
    let mut tail = part_of(insts, addr + len, insts.len());
    assert(patched@.len() == len);
    r.append(&mut patched);
    r.append(&mut tail);
    assert(r@ =~= label_resolved(insts@, starts@, *l)->Some_0);
    Some(r)
}

/// Whether the label references are in range.
spec fn labels_wf(labels: Seq<LabelRef>) -> bool {
    forall|k: int|
        0 <= k < labels.len() ==> (#[trigger] labels[k]).addr <= MAX_CODE && (
        labels[k].kind matches LabelUse::JmpFar { size_pow2, .. } ==> size_pow2 <= 2)
}

proof fn emitted_labels_wf(code: Code, insts: Seq<MInstView>, i: int)
    requires
        labels_wf(code.labels),
        code.insts.len() <= MAX_CODE,
    ensures
        emitted_from(code, insts, i) matches Some(c) ==> labels_wf(c.labels) && c.insts.len()
            <= MAX_CODE,
    decreases insts.len() - i,
{
    if i < insts.len() {
        if insts[i] is Rets {
            emitted_labels_wf(code, insts, i + 1);
        } else if let Some(c) = code_with(code, insts[i]) {
            assert(labels_wf(c.labels));
            emitted_labels_wf(c, insts, i + 1);
        }
    }
}

/// Emits the blocks in order and resolves all references to their labels. Block
/// `i` carries label `i`.
pub fn assemble(blocks: &Vec<Vec<MInst>>) -> (r: Result<CompiledCode, CodegenError>)
    ensures
        match r {
            Ok(c) => assembled(code_view(blocks@)) == Some((c.insts@, c.bb_starts@, c.relocs@)),
            Err(e) => assembled(code_view(blocks@)) is None && e == (if blocks_overflow(
                no_code(),
                code_view(blocks@),
                0,
            ) {
                CodegenError::CodeTooLarge
            } else {
                CodegenError::Malformed
            }),
        },
{
    let ghost all = code_view(blocks@);
    let mut sink = CodeBuffer { insts: Vec::new(), labels: Vec::new(), relocs: Vec::new() };
    let mut starts: Vec<u32> = Vec::new();
    assert(sink@ =~= no_code());
    assert(starts@ =~= Seq::<u32>::empty());
    for b in 0..blocks.len()
        invariant
            all == code_view(blocks@),
            sink@.insts.len() <= MAX_CODE,
            labels_wf(sink@.labels),
            forall|i: int| 0 <= i < starts@.len() ==> (#[trigger] starts@[i]) <= MAX_CODE,
            blocks_overflow(no_code(), all, 0) == blocks_overflow(sink@, all, b as int),
            blocks_emitted(no_code(), all, Seq::empty(), 0) == blocks_emitted(
                sink@,
                all,
                starts@,
                b as int,
            ),
    {
        assert(all[b as int] == views(blocks@[b as int]@));
        let at: usize = sink.insts.len();
        proof {
            emitted_labels_wf(sink@, all[b as int], 0);
        }
        match emit_block(&mut sink, &blocks[b]) {
            Ok(()) => {},
            Err(e) => {
                return Err(e);
            },
        }
        starts.push(at as u32);
    }
    let CodeBuffer { insts, labels, relocs } = sink;
    let mut insts = insts;
    let ghost start = insts@;
    for k in 0..labels.len()
        invariant
            labels_wf(labels@),
            insts@.len() <= MAX_CODE,
            forall|i: int| 0 <= i < starts@.len() ==> (#[trigger] starts@[i]) <= MAX_CODE,
            blocks_emitted(no_code(), all, Seq::empty(), 0) == Some(
                (Code { insts: start, labels: labels@, relocs: relocs@ }, starts@),
            ),
            all == code_view(blocks@),
            !blocks_overflow(no_code(), all, 0),
            labels_resolved(start, starts@, labels@, 0) == labels_resolved(
                insts@,
                starts@,
                labels@,
                k as int,
            ),
    {
        match resolve_label(&insts, &starts, &labels[k]) {
            Some(done) => {
                insts = done;
            },
            None => {
                return Err(CodegenError::Malformed);
            },
        }
    }
    Ok(CompiledCode { insts, bb_starts: starts, relocs })
}

/// A resolved short jump lands on its label; where the label directly follows the
/// trigger, the jump is a no-op.
pub proof fn short_jumps_land_on_their_labels(
    insts: Seq<Instruction>,
    starts: Seq<u32>,
    l: LabelRef,
)
    requires
        l.kind is JmpLoc7,
        label_resolved(insts, starts, l) is Some,
    ensures
        ({
            let done = label_resolved(insts, starts, l)->Some_0;
            let target = starts[l.label.index as int] as int;
            match done[l.addr as int] {
                Instruction::Jump(offset, trig) => landing(l.addr as int, trig as int, offset as int)
                    == target,
                Instruction::NoOp => target == l.addr + insts[l.addr as int]->Jump_1 + 1,
                _ => false,
            }
        }),
{
    let part = insts.subrange(l.addr as int, l.addr + 1);
    let target = starts[l.label.index as int] as int;
    assert(part[0] == insts[l.addr as int]);
    jump_offset_lands_on_target(l.addr as int, part[0]->Jump_1 as int, target);
}

proof fn emitted_from_length(code: Code, insts: Seq<MInstView>, i: int)
    requires
        0 <= i,
        emitted_from(code, insts, i) is Some,
    ensures
        emitted_from(code, insts, i)->Some_0.insts.len() == code.insts.len() + emitted_span(
            insts,
            i,
            insts.len() as int,
        ),
    decreases insts.len() - i,
{
    if i < insts.len() {
        if insts[i] is Rets {
            emitted_from_length(code, insts, i + 1);
        } else {
            emitted_has_emitted_length(insts[i]);
            emitted_from_length(code_with(code, insts[i])->Some_0, insts, i + 1);
        }
    }
}

proof fn corrected_span(bbs: Seq<BBView>, layout: Seq<usize>, insts: Seq<MInstView>, i: int)
    requires
        0 <= i <= insts.len(),
        corrected_from(bbs, layout, insts, i) is Some,
    ensures
        ({
            let done = corrected_from(bbs, layout, insts, i)->Some_0;
            &&& done.len() == insts.len() - i
            &&& emitted_span(done, 0, done.len() as int) == emitted_span(
                insts,
                i,
                insts.len() as int,
            )
        }),
    decreases insts.len() - i,
{
    if i < insts.len() {
        corrected_span(bbs, layout, insts, i + 1);
        let rest = corrected_from(bbs, layout, insts, i + 1)->Some_0;
        let done = corrected_from(bbs, layout, insts, i)->Some_0;
        shifted_span(done, rest, 0, rest.len() as int);
        assert(emitted_span(done, 0, done.len() as int) == done[0].spec_emitted_length()
            + emitted_span(done, 1, done.len() as int));
    }
}

proof fn shifted_span(a: Seq<MInstView>, rest: Seq<MInstView>, i: int, n: int)
    requires
        0 <= i,
        n <= rest.len(),
        a.len() == rest.len() + 1,
        forall|k: int| 0 <= k < rest.len() ==> a[k + 1] == #[trigger] rest[k],
    ensures
        emitted_span(a, i + 1, n + 1) == emitted_span(rest, i, n),
    decreases n - i,
{
    if i < n {
        assert(a[i + 1] == rest[i]);
        shifted_span(a, rest, i + 1, n);
    }
}

proof fn built_block(bbs: Seq<BBView>, layout: Seq<usize>, k: int, p: int)
    requires
        0 <= k <= p < layout.len(),
        built_from(bbs, layout, k) is Some,
    ensures
        ({
            let blocks = built_from(bbs, layout, k)->Some_0;
            &&& blocks.len() == layout.len() - k
            &&& corrected_from(bbs, layout, bbs[layout[p] as int].inst, 0) == Some(blocks[p - k])
        }),
    decreases layout.len() - k,
{
    if k < p {
        built_block(bbs, layout, k + 1, p);
    } else {
        built_count(bbs, layout, k);
    }
}

proof fn built_count(bbs: Seq<BBView>, layout: Seq<usize>, k: int)
    requires
        0 <= k <= layout.len(),
        built_from(bbs, layout, k) is Some,
    ensures
        built_from(bbs, layout, k)->Some_0.len() == layout.len() - k,
    decreases layout.len() - k,
{
    if k < layout.len() {
        built_count(bbs, layout, k + 1);
    }
}

proof fn emitted_starts(
    bbs: Seq<BBView>,
    layout: Seq<usize>,
    code: Code,
    starts: Seq<u32>,
    b: int,
    p: int,
)
    requires
        built_from(bbs, layout, 0) is Some,
        0 <= b <= layout.len(),
        starts.len() == b,
        code.insts.len() == start_of(bbs, layout, b),
        forall|q: int| 0 <= q < b ==> #[trigger] starts[q] == start_of(bbs, layout, q),
        blocks_emitted(code, built_from(bbs, layout, 0)->Some_0, starts, b) is Some,
        0 <= p < layout.len(),
    ensures
        ({
            let all = blocks_emitted(
                code,
                built_from(bbs, layout, 0)->Some_0,
                starts,
                b,
            )->Some_0.1;
            all.len() == layout.len() && all[p] == start_of(bbs, layout, p)
        }),
    decreases layout.len() - b,
{
    let blocks = built_from(bbs, layout, 0)->Some_0;
    built_count(bbs, layout, 0);
    if b < layout.len() {
        built_block(bbs, layout, 0, b);
        let insts = bbs[layout[b] as int].inst;
        corrected_span(bbs, layout, insts, 0);
        emitted_from_length(code, blocks[b], 0);
        let c = emitted_from(code, blocks[b], 0)->Some_0;
        emitted_starts(bbs, layout, c, starts.push(code.insts.len() as u32), b + 1, p);
    }
}

/// In the assembled code the blocks start exactly where they were measured to
/// start when jumps were widened.
pub proof fn blocks_start_where_measured(bbs: Seq<BBView>, layout: Seq<usize>, p: int)
    requires
        built_from(bbs, layout, 0) is Some,
        assembled(built_from(bbs, layout, 0)->Some_0) is Some,
        0 <= p < layout.len(),
    ensures
        ({
            let starts = assembled(built_from(bbs, layout, 0)->Some_0)->Some_0.1;
            starts.len() == layout.len() && starts[p] == start_of(bbs, layout, p)
        }),
{
    emitted_starts(bbs, layout, no_code(), Seq::empty(), 0, p);
}

} // verus!
