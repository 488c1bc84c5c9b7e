//! What the assembled code holds where.
use crate::assemble::{
    assembled, blocks_emitted, emitted_from, label_resolved, labels_resolved, no_code,
};
use crate::emit::{
    code_with, emitted, emitted_has_emitted_length, label_use, symbol_use, Code, LabelRef, Reloc,
    RelocKind,
};
use crate::inst::MInstView;
use crate::isa::Instruction;
use crate::label::{
    chain_value, jump_offset_lands_on_target, landing, patched_chain_holds_offset,
};
use crate::laws::jumps::{length_between, span_is_length};
use vstd::prelude::*;

verus! {

/// How many machine instructions the blocks before the `p`th emit.
pub open spec fn block_start(blocks: Seq<Seq<MInstView>>, p: int) -> int
    decreases p,
{
    if p <= 0 {
        0
    } else {
        block_start(blocks, p - 1) + length_between(
            blocks[p - 1],
            0,
            blocks[p - 1].len() as int,
        )
    }
}

/// The address of the `j`th instruction of the `p`th block: how many machine
/// instructions are emitted before it.
pub open spec fn address(blocks: Seq<Seq<MInstView>>, p: int, j: int) -> int {
    block_start(blocks, p) + length_between(blocks[p], 0, j)
}

/// The references to labels stand in order and apart from each other.
spec fn ordered(code: Code) -> bool {
    &&& forall|a: int, b: int|
        0 <= a < b < code.labels.len() ==> (#[trigger] code.labels[a]).addr
            + code.labels[a].kind.patch_len() <= (#[trigger] code.labels[b]).addr
    &&& forall|a: int|
        0 <= a < code.labels.len() ==> (#[trigger] code.labels[a]).addr
            + code.labels[a].kind.patch_len() <= code.insts.len()
}

/// Whether `a` starts with `b`.
spec fn starts_with(a: Code, b: Code) -> bool {
    &&& b.insts.len() <= a.insts.len()
    &&& b.labels.len() <= a.labels.len()
    &&& b.relocs.len() <= a.relocs.len()
    &&& forall|i: int| 0 <= i < b.insts.len() ==> #[trigger] a.insts[i] == b.insts[i]
    &&& forall|i: int| 0 <= i < b.labels.len() ==> #[trigger] a.labels[i] == b.labels[i]
    &&& forall|i: int| 0 <= i < b.relocs.len() ==> #[trigger] a.relocs[i] == b.relocs[i]
}

proof fn one_more(code: Code, inst: MInstView)
    requires
        ordered(code),
        code_with(code, inst) is Some,
    ensures
        ordered(code_with(code, inst)->Some_0),
        starts_with(code_with(code, inst)->Some_0, code),
        code_with(code, inst)->Some_0.insts.len() == code.insts.len() + inst.spec_emitted_length(),
        inst.spec_emitted_length() >= 0,
{
    emitted_has_emitted_length(inst);
    let after = code_with(code, inst)->Some_0;
    if let Some((label, kind)) = label_use(inst) {
        assert(kind.patch_len() <= emitted(inst)->Some_0.len());
        let n = code.labels.len() as int;
        assert forall|a: int, b: int| 0 <= a < b < after.labels.len() implies (
        #[trigger] after.labels[a]).addr + after.labels[a].kind.patch_len() <= (
        #[trigger] after.labels[b]).addr by {
            assert(after.labels[a] == code.labels[a]);
            if b < n {
                assert(after.labels[b] == code.labels[b]);
            }
        }
        assert forall|a: int| 0 <= a < after.labels.len() implies (#[trigger] after.labels[a]).addr
            + after.labels[a].kind.patch_len() <= after.insts.len() by {
            if a < n {
                assert(after.labels[a] == code.labels[a]);
            }
        }
    }
}

proof fn lengths_from_front(insts: Seq<MInstView>, i: int, j: int)
    requires
        i < j,
    ensures
        length_between(insts, i, j) == insts[i].spec_emitted_length() + length_between(
            insts,
            i + 1,
            j,
        ),
{
    span_is_length(insts, i, j);
    span_is_length(insts, i + 1, j);
}

proof fn block_run(code: Code, insts: Seq<MInstView>, i: int)
    requires
        0 <= i <= insts.len(),
        ordered(code),
        emitted_from(code, insts, i) is Some,
    ensures
        ({
            let c = emitted_from(code, insts, i)->Some_0;
            &&& ordered(c)
            &&& starts_with(c, code)
            &&& c.insts.len() == code.insts.len() + length_between(insts, i, insts.len() as int)
        }),
    decreases insts.len() - i,
{
    if i < insts.len() {
        lengths_from_front(insts, i, insts.len() as int);
        if insts[i] is Rets {
            block_run(code, insts, i + 1);
        } else {
            one_more(code, insts[i]);
            block_run(code_with(code, insts[i])->Some_0, insts, i + 1);
        }
    }
}

/// What the code holds of an instruction that is emitted at an address.
spec fn holds(c: Code, inst: MInstView, a: int) -> bool {
    let new = emitted(inst)->Some_0;
    &&& emitted(inst) is Some
    &&& 0 <= a
    &&& a + new.len() <= c.insts.len()
    &&& forall|k: int| 0 <= k < new.len() ==> c.insts[a + k] == #[trigger] new[k]
    &&& label_use(inst) matches Some((label, kind)) ==> exists|m: int|
        0 <= m < c.labels.len() && #[trigger] c.labels[m] == (LabelRef {
            addr: a as u32,
            label,
            kind,
        })
    &&& symbol_use(inst) matches Some((name, addend)) ==> exists|m: int|
        0 <= m < c.relocs.len() && #[trigger] c.relocs[m] == (Reloc {
            kind: RelocKind::ScryAbs32,
            addr: a as u32,
            name,
            addend,
        })
}

proof fn holds_on(c: Code, d: Code, inst: MInstView, a: int)
    requires
        holds(c, inst, a),
        starts_with(d, c),
    ensures
        holds(d, inst, a),
{
    let new = emitted(inst)->Some_0;
    assert forall|k: int| 0 <= k < new.len() implies d.insts[a + k] == #[trigger] new[k] by {
        assert(c.insts[a + k] == new[k]);
        assert(d.insts[a + k] == c.insts[a + k]);
    }
    if let Some((label, kind)) = label_use(inst) {
        let m = choose|m: int|
            0 <= m < c.labels.len() && #[trigger] c.labels[m] == (LabelRef {
                addr: a as u32,
                label,
                kind,
            });
        assert(d.labels[m] == c.labels[m]);
    }
    if let Some((name, addend)) = symbol_use(inst) {
        let m = choose|m: int|
            0 <= m < c.relocs.len() && #[trigger] c.relocs[m] == (Reloc {
                kind: RelocKind::ScryAbs32,
                addr: a as u32,
                name,
                addend,
            });
        assert(d.relocs[m] == c.relocs[m]);
    }
}

proof fn block_run_at(code: Code, insts: Seq<MInstView>, i: int, j: int)
    requires
        0 <= i <= j < insts.len(),
        ordered(code),
        emitted_from(code, insts, i) is Some,
        !(insts[j] is Rets),
    ensures
        holds(
            emitted_from(code, insts, i)->Some_0,
            insts[j],
            code.insts.len() + length_between(insts, i, j),
        ),
    decreases insts.len() - i,
{
    if i < j {
        lengths_from_front(insts, i, j);
    }
    if insts[i] is Rets {
        block_run_at(code, insts, i + 1, j);
    } else {
        let c = code_with(code, insts[i])->Some_0;
        one_more(code, insts[i]);
        if i < j {
            block_run_at(c, insts, i + 1, j);
        } else {
            let a = code.insts.len() as int;
            let new = emitted(insts[i])->Some_0;
            assert(holds(c, insts[i], a)) by {
                if let Some((label, kind)) = label_use(insts[i]) {
                    let m = code.labels.len() as int;
                    assert(c.labels[m] == (LabelRef { addr: a as u32, label, kind }));
                }
                if let Some((name, addend)) = symbol_use(insts[i]) {
                    let m = code.relocs.len() as int;
                    assert(c.relocs[m].addr == a as u32);
                }
            }
            block_run(c, insts, i + 1);
            holds_on(c, emitted_from(c, insts, i + 1)->Some_0, insts[i], a);
        }
    }
}

proof fn blocks_run(code: Code, blocks: Seq<Seq<MInstView>>, starts: Seq<u32>, b: int)
    requires
        0 <= b <= blocks.len(),
        ordered(code),
        code.insts.len() == block_start(blocks, b),
        starts.len() == b,
        forall|q: int| 0 <= q < b ==> #[trigger] starts[q] == block_start(blocks, q),
        blocks_emitted(code, blocks, starts, b) is Some,
    ensures
        ({
            let (c, s) = blocks_emitted(code, blocks, starts, b)->Some_0;
            &&& ordered(c)
            &&& starts_with(c, code)
            &&& s.len() == blocks.len()
            &&& forall|q: int| 0 <= q < blocks.len() ==> #[trigger] s[q] == block_start(blocks, q)
        }),
    decreases blocks.len() - b,
{
    if b < blocks.len() {
        block_run(code, blocks[b], 0);
        let c = emitted_from(code, blocks[b], 0)->Some_0;
        blocks_run(c, blocks, starts.push(code.insts.len() as u32), b + 1);
    }
}

proof fn blocks_run_at(
    code: Code,
    blocks: Seq<Seq<MInstView>>,
    starts: Seq<u32>,
    b: int,
    p: int,
    j: int,
)
    requires
        0 <= b <= p < blocks.len(),
        0 <= j < blocks[p].len(),
        !(blocks[p][j] is Rets),
        ordered(code),
        code.insts.len() == block_start(blocks, b),
        starts.len() == b,
        forall|q: int| 0 <= q < b ==> #[trigger] starts[q] == block_start(blocks, q),
        blocks_emitted(code, blocks, starts, b) is Some,
    ensures
        holds(
            blocks_emitted(code, blocks, starts, b)->Some_0.0,
            blocks[p][j],
            address(blocks, p, j),
        ),
    decreases p - b,
{
    block_run(code, blocks[b], 0);
    let c = emitted_from(code, blocks[b], 0)->Some_0;
    let s = starts.push(code.insts.len() as u32);
    if b < p {
        blocks_run_at(c, blocks, s, b + 1, p, j);
    } else {
        block_run_at(code, blocks[b], 0, j);
        blocks_run(c, blocks, s, b + 1);
        holds_on(c, blocks_emitted(c, blocks, s, b + 1)->Some_0.0, blocks[p][j], address(blocks, p, j));
    }
}

spec fn apart(insts: Seq<Instruction>, labels: Seq<LabelRef>) -> bool {
    ordered(Code { insts, labels, relocs: Seq::empty() })
}

proof fn one_resolved(insts: Seq<Instruction>, starts: Seq<u32>, l: LabelRef, x: int)
    requires
        label_resolved(insts, starts, l) is Some,
        0 <= x < insts.len(),
    ensures
        ({
            let done = label_resolved(insts, starts, l)->Some_0;
            let end = l.addr + l.kind.patch_len();
            let part = insts.subrange(l.addr as int, end);
            let target = starts[l.label.index as int] as int;
            &&& done.len() == insts.len()
            &&& x < l.addr || x >= end ==> done[x] == insts[x]
            &&& done.subrange(l.addr as int, end) == l.kind.patched(part, l.addr as int, target)
            &&& l.kind.patchable(part, l.addr as int, target)
            &&& l.label.index < starts.len()
        }),
{
    let done = label_resolved(insts, starts, l)->Some_0;
    let end = l.addr + l.kind.patch_len();
    let part = insts.subrange(l.addr as int, end);
    let target = starts[l.label.index as int] as int;
    let new = l.kind.patched(part, l.addr as int, target);
    assert(new.len() == l.kind.patch_len());
    assert(done.subrange(l.addr as int, end) =~= new);
}

proof fn outside_stays(
    insts: Seq<Instruction>,
    starts: Seq<u32>,
    labels: Seq<LabelRef>,
    k: int,
    x: int,
)
    requires
        0 <= k <= labels.len(),
        apart(insts, labels),
        labels_resolved(insts, starts, labels, k) is Some,
        0 <= x < insts.len(),
        forall|m: int|
            k <= m < labels.len() ==> x < (#[trigger] labels[m]).addr || x >= labels[m].addr
                + labels[m].kind.patch_len(),
    ensures
        labels_resolved(insts, starts, labels, k)->Some_0.len() == insts.len(),
        labels_resolved(insts, starts, labels, k)->Some_0[x] == insts[x],
    decreases labels.len() - k,
{
    if k < labels.len() {
        let done = label_resolved(insts, starts, labels[k])->Some_0;
        one_resolved(insts, starts, labels[k], x);
        outside_stays(done, starts, labels, k + 1, x);
    }
}

proof fn resolved_at(
    insts: Seq<Instruction>,
    starts: Seq<u32>,
    labels: Seq<LabelRef>,
    k: int,
    m: int,
)
    requires
        0 <= k <= m < labels.len(),
        apart(insts, labels),
        labels_resolved(insts, starts, labels, k) is Some,
    ensures
        ({
            let all = labels_resolved(insts, starts, labels, k)->Some_0;
            let l = labels[m];
            let end = l.addr + l.kind.patch_len();
            let part = insts.subrange(l.addr as int, end);
            let target = starts[l.label.index as int] as int;
            &&& all.len() == insts.len()
            &&& all.subrange(l.addr as int, end) == l.kind.patched(part, l.addr as int, target)
            &&& l.kind.patchable(part, l.addr as int, target)
            &&& l.label.index < starts.len()
        }),
    decreases labels.len() - k,
{
    let l = labels[m];
    let end = l.addr + l.kind.patch_len();
    assert(l.kind.patch_len() >= 1);
    let done = label_resolved(insts, starts, labels[k])->Some_0;
    one_resolved(insts, starts, labels[k], 0);
    if k < m {
        resolved_at(done, starts, labels, k + 1, m);
        assert(done.subrange(l.addr as int, end) =~= insts.subrange(l.addr as int, end)) by {
            assert forall|x: int| l.addr <= x < end implies done[x] == insts[x] by {
                one_resolved(insts, starts, labels[k], x);
                assert(labels[k].addr + labels[k].kind.patch_len() <= labels[m].addr);
            }
        }
    } else {
        let all = labels_resolved(done, starts, labels, k + 1)->Some_0;
        assert forall|x: int| l.addr <= x < end implies all[x] == done[x] by {
            assert forall|q: int| k + 1 <= q < labels.len() implies x < (#[trigger] labels[q]).addr
                || x >= labels[q].addr + labels[q].kind.patch_len() by {
                assert(labels[k].addr + labels[k].kind.patch_len() <= labels[q].addr);
            }
            outside_stays(done, starts, labels, k + 1, x);
        }
        if labels.len() > k + 1 {
            resolved_at(done, starts, labels, k + 1, k + 1);
        }
        assert(all.subrange(l.addr as int, end) =~= done.subrange(l.addr as int, end));
    }
}

proof fn start_code()
    ensures
        ordered(no_code()),
{
}

/// The blocks start where the lengths of those before them say.
pub proof fn blocks_start_behind_each_other(blocks: Seq<Seq<MInstView>>, p: int)
    requires
        assembled(blocks) is Some,
    ensures
        assembled(blocks)->Some_0.1.len() == blocks.len(),
        0 <= p < blocks.len() ==> assembled(blocks)->Some_0.1[p] == block_start(blocks, p),
{
    start_code();
    blocks_run(no_code(), blocks, Seq::empty(), 0);
}

proof fn holds_plain(blocks: Seq<Seq<MInstView>>, p: int, j: int) -> (m: int)
    requires
        assembled(blocks) is Some,
        0 <= p < blocks.len(),
        0 <= j < blocks[p].len(),
        !(blocks[p][j] is Rets),
    ensures
        ({
            let (code, starts) = blocks_emitted(no_code(), blocks, Seq::empty(), 0)->Some_0;
            &&& holds(code, blocks[p][j], address(blocks, p, j))
            &&& apart(code.insts, code.labels)
            &&& label_use(blocks[p][j]) matches Some((label, kind)) ==> 0 <= m < code.labels.len()
                && code.labels[m] == (LabelRef {
                addr: address(blocks, p, j) as u32,
                label,
                kind,
            })
            &&& code.insts.len() <= u32::MAX
        }),
{
    start_code();
    blocks_run(no_code(), blocks, Seq::empty(), 0);
    blocks_run_at(no_code(), blocks, Seq::empty(), 0, p, j);
    code_is_small(no_code(), blocks, Seq::empty(), 0);
    let (code, starts) = blocks_emitted(no_code(), blocks, Seq::empty(), 0)->Some_0;
    if let Some((label, kind)) = label_use(blocks[p][j]) {
        choose|m: int|
            0 <= m < code.labels.len() && #[trigger] code.labels[m] == (LabelRef {
                addr: address(blocks, p, j) as u32,
                label,
                kind,
            })
    } else {
        0
    }
}

proof fn code_is_small(code: Code, blocks: Seq<Seq<MInstView>>, starts: Seq<u32>, b: int)
    requires
        code.insts.len() <= u32::MAX,
        blocks_emitted(code, blocks, starts, b) is Some,
    ensures
        blocks_emitted(code, blocks, starts, b)->Some_0.0.insts.len() <= u32::MAX,
    decreases blocks.len() - b,
{
    if b < blocks.len() {
        block_is_small(code, blocks[b], 0);
        code_is_small(
            emitted_from(code, blocks[b], 0)->Some_0,
            blocks,
            starts.push(code.insts.len() as u32),
            b + 1,
        );
    }
}

proof fn block_is_small(code: Code, insts: Seq<MInstView>, i: int)
    requires
        code.insts.len() <= u32::MAX,
        emitted_from(code, insts, i) is Some,
    ensures
        emitted_from(code, insts, i)->Some_0.insts.len() <= u32::MAX,
    decreases insts.len() - i,
{
    if i < insts.len() {
        if insts[i] is Rets {
            block_is_small(code, insts, i + 1);
        } else {
            block_is_small(code_with(code, insts[i])->Some_0, insts, i + 1);
        }
    }
}

/// Whether an instruction depends on a label.
pub open spec fn refers_to_label(inst: MInstView) -> bool {
    inst is JumpOffset || (inst is JumpIssue && !(inst->JumpIssue_kind is Far))
}

/// Every short jump of the code lands on the start of the block that its label
/// names, triggered as its issue says; where that block directly follows the
/// trigger, nothing is jumped over and the jump is a no-op.
pub proof fn jumps_land_on_their_blocks(blocks: Seq<Seq<MInstView>>, p: int, j: int)
    requires
        assembled(blocks) is Some,
        0 <= p < blocks.len(),
        0 <= j < blocks[p].len(),
        blocks[p][j] is JumpIssue,
        !(blocks[p][j]->JumpIssue_kind is Far),
    ensures
        ({
            let (insts, starts, relocs) = assembled(blocks)->Some_0;
            let a = address(blocks, p, j);
            let trig = blocks[p][j]->JumpIssue_trig;
            let dst = blocks[p][j]->JumpIssue_dst.index as int;
            &&& 0 <= a < insts.len()
            &&& dst < blocks.len()
            &&& match insts[a] {
                Instruction::Jump(offset, t) => t == trig && landing(a, trig as int, offset as int)
                    == block_start(blocks, dst),
                Instruction::NoOp => block_start(blocks, dst) == a + trig + 1,
                _ => false,
            }
        }),
{
    let m = holds_plain(blocks, p, j);
    let (code, starts) = blocks_emitted(no_code(), blocks, Seq::empty(), 0)->Some_0;
    let a = address(blocks, p, j);
    let inst = blocks[p][j];
    let l = code.labels[m];
    resolved_at(code.insts, starts, code.labels, 0, m);
    blocks_start_behind_each_other(blocks, l.label.index as int);
    let all = labels_resolved(code.insts, starts, code.labels, 0)->Some_0;
    let part = code.insts.subrange(a, a + 1);
    assert(emitted(inst)->Some_0[0] == Instruction::Jump(0, inst->JumpIssue_trig));
    assert(part[0] == Instruction::Jump(0, inst->JumpIssue_trig));
    assert(all.subrange(a, a + 1)[0] == all[a]);
    jump_offset_lands_on_target(
        a,
        inst->JumpIssue_trig as int,
        starts[l.label.index as int] as int,
    );
}

/// The offset chain of a far jump materializes exactly the offset with which its
/// jump, the instruction behind the chain and the gap, lands on the start of the
/// block that its label names.
pub proof fn far_jumps_land_on_their_blocks(blocks: Seq<Seq<MInstView>>, p: int, j: int)
    requires
        assembled(blocks) is Some,
        0 <= p < blocks.len(),
        0 <= j < blocks[p].len(),
        blocks[p][j] is JumpOffset,
    ensures
        ({
            let (insts, starts, relocs) = assembled(blocks)->Some_0;
            let a = address(blocks, p, j);
            let end = address(blocks, p, j + 1);
            let inst = blocks[p][j];
            let dst = inst->JumpOffset_dst.index as int;
            &&& 0 <= a < end <= insts.len()
            &&& dst < blocks.len()
            &&& landing(
                end + inst->JumpOffset_gap,
                inst->JumpOffset_trig as int,
                chain_value(insts.subrange(a, end)),
            ) == block_start(blocks, dst)
        }),
{
    let m = holds_plain(blocks, p, j);
    let (code, starts) = blocks_emitted(no_code(), blocks, Seq::empty(), 0)->Some_0;
    let a = address(blocks, p, j);
    let inst = blocks[p][j];
    let l = code.labels[m];
    resolved_at(code.insts, starts, code.labels, 0, m);
    blocks_start_behind_each_other(blocks, l.label.index as int);
    emitted_has_emitted_length(inst);
    let end = a + l.kind.patch_len();
    assert(length_between(blocks[p], 0, j + 1) == length_between(blocks[p], 0, j)
        + inst.spec_emitted_length());
    patched_chain_holds_offset(
        l.kind,
        code.insts.subrange(a, end),
        a,
        starts[l.label.index as int] as int,
    );
}

proof fn ranges_apart(
    blocks: Seq<Seq<MInstView>>,
    code: Code,
    starts: Seq<u32>,
    b: int,
    p: int,
    j: int,
    q: int,
)
    requires
        0 <= b <= p < blocks.len(),
        0 <= j < blocks[p].len(),
        !(blocks[p][j] is Rets),
        !refers_to_label(blocks[p][j]),
        ordered(code),
        code.insts.len() == block_start(blocks, b),
        starts.len() == b,
        forall|q: int| 0 <= q < b ==> #[trigger] starts[q] == block_start(blocks, q),
        blocks_emitted(code, blocks, starts, b) is Some,
        0 <= q < blocks_emitted(code, blocks, starts, b)->Some_0.0.labels.len(),
    ensures
        ({
            let l = blocks_emitted(code, blocks, starts, b)->Some_0.0.labels[q];
            let a = address(blocks, p, j);
            l.addr + l.kind.patch_len() <= a || l.addr >= a + blocks[p][j].spec_emitted_length()
        }),
    decreases p - b,
{
    block_run(code, blocks[b], 0);
    let c = emitted_from(code, blocks[b], 0)->Some_0;
    let s = starts.push(code.insts.len() as u32);
    blocks_run(c, blocks, s, b + 1);
    if b < p {
        ranges_apart(blocks, c, s, b + 1, p, j, q);
    } else {
        block_ranges_apart(code, blocks[b], 0, j);
        let all = blocks_emitted(c, blocks, s, b + 1)->Some_0.0;
        if q < c.labels.len() {
            assert(all.labels[q] == c.labels[q]);
        } else {
            new_labels_behind(c, blocks, s, b + 1, q);
            lengths_inside(code, blocks[b], 0, j);
        }
    }
}

proof fn lengths_inside(code: Code, insts: Seq<MInstView>, i: int, j: int)
    requires
        0 <= i <= j < insts.len(),
        ordered(code),
        emitted_from(code, insts, i) is Some,
    ensures
        length_between(insts, i, j) + insts[j].spec_emitted_length() <= length_between(
            insts,
            i,
            insts.len() as int,
        ),
        0 <= length_between(insts, i, j),
        0 <= insts[j].spec_emitted_length(),
    decreases insts.len() - i,
{
    lengths_from_front(insts, i, insts.len() as int);
    if i < j {
        lengths_from_front(insts, i, j);
    }
    if insts[i] is Rets {
        if i < j {
            lengths_inside(code, insts, i + 1, j);
        } else {
            block_run(code, insts, i + 1);
        }
    } else {
        one_more(code, insts[i]);
        let c = code_with(code, insts[i])->Some_0;
        if i < j {
            lengths_inside(c, insts, i + 1, j);
        } else {
            block_run(c, insts, i + 1);
        }
    }
}

proof fn new_labels_behind(
    code: Code,
    blocks: Seq<Seq<MInstView>>,
    starts: Seq<u32>,
    b: int,
    q: int,
)
    requires
        0 <= b <= blocks.len(),
        ordered(code),
        blocks_emitted(code, blocks, starts, b) is Some,
        code.labels.len() <= q < blocks_emitted(code, blocks, starts, b)->Some_0.0.labels.len(),
    ensures
        blocks_emitted(code, blocks, starts, b)->Some_0.0.labels[q].addr >= code.insts.len(),
    decreases blocks.len() - b,
{
    if b < blocks.len() {
        block_run(code, blocks[b], 0);
        let c = emitted_from(code, blocks[b], 0)->Some_0;
        let s = starts.push(code.insts.len() as u32);
        if q < c.labels.len() {
            block_labels_behind(code, blocks[b], 0, q);
            blocks_extend(c, blocks, s, b + 1);
        } else {
            new_labels_behind(c, blocks, s, b + 1, q);
        }
    }
}

proof fn blocks_extend(code: Code, blocks: Seq<Seq<MInstView>>, starts: Seq<u32>, b: int)
    requires
        0 <= b <= blocks.len(),
        ordered(code),
        blocks_emitted(code, blocks, starts, b) is Some,
    ensures
        starts_with(blocks_emitted(code, blocks, starts, b)->Some_0.0, code),
    decreases blocks.len() - b,
{
    if b < blocks.len() {
        block_run(code, blocks[b], 0);
        blocks_extend(
            emitted_from(code, blocks[b], 0)->Some_0,
            blocks,
            starts.push(code.insts.len() as u32),
            b + 1,
        );
    }
}

proof fn block_labels_behind(code: Code, insts: Seq<MInstView>, i: int, q: int)
    requires
        0 <= i <= insts.len(),
        ordered(code),
        emitted_from(code, insts, i) is Some,
        code.labels.len() <= q < emitted_from(code, insts, i)->Some_0.labels.len(),
    ensures
        emitted_from(code, insts, i)->Some_0.labels[q].addr >= code.insts.len(),
    decreases insts.len() - i,
{
    if i < insts.len() {
        if insts[i] is Rets {
            block_labels_behind(code, insts, i + 1, q);
        } else {
            one_more(code, insts[i]);
            let c = code_with(code, insts[i])->Some_0;
            if q < c.labels.len() {
                block_run(c, insts, i + 1);
            } else {
                block_labels_behind(c, insts, i + 1, q);
            }
        }
    }
}

proof fn block_ranges_apart(code: Code, insts: Seq<MInstView>, i: int, j: int)
    requires
        0 <= i <= j < insts.len(),
        ordered(code),
        emitted_from(code, insts, i) is Some,
        !(insts[j] is Rets),
        !refers_to_label(insts[j]),
    ensures
        ({
            let c = emitted_from(code, insts, i)->Some_0;
            let a = code.insts.len() + length_between(insts, i, j);
            forall|q: int|
                0 <= q < c.labels.len() ==> (#[trigger] c.labels[q]).addr
                    + c.labels[q].kind.patch_len() <= a || c.labels[q].addr >= a
                    + insts[j].spec_emitted_length()
        }),
    decreases insts.len() - i,
{
    let done = emitted_from(code, insts, i)->Some_0;
    if i < j {
        lengths_from_front(insts, i, j);
    }
    if insts[i] is Rets {
        block_ranges_apart(code, insts, i + 1, j);
    } else {
        one_more(code, insts[i]);
        let c = code_with(code, insts[i])->Some_0;
        if i < j {
            block_ranges_apart(c, insts, i + 1, j);
        } else {
            assert(c.labels == code.labels);
            block_run(c, insts, i + 1);
            assert forall|q: int| 0 <= q < done.labels.len() implies (#[trigger] done.labels[q]).addr
                + done.labels[q].kind.patch_len() <= code.insts.len() || done.labels[q].addr
                >= code.insts.len() + insts[j].spec_emitted_length() by {
                if q < c.labels.len() {
                    assert(done.labels[q] == code.labels[q]);
                } else {
                    block_labels_behind(c, insts, i + 1, q);
                }
            }
        }
    }
}

/// Every other instruction stands in the code as it was emitted, in its place.
pub proof fn code_holds_every_instruction(blocks: Seq<Seq<MInstView>>, p: int, j: int)
    requires
        assembled(blocks) is Some,
        0 <= p < blocks.len(),
        0 <= j < blocks[p].len(),
        !(blocks[p][j] is Rets),
        !refers_to_label(blocks[p][j]),
    ensures
        ({
            let (insts, starts, relocs) = assembled(blocks)->Some_0;
            let a = address(blocks, p, j);
            let end = address(blocks, p, j + 1);
            &&& 0 <= a <= end <= insts.len()
            &&& Some(insts.subrange(a, end)) == emitted(blocks[p][j])
        }),
{
    let _ = holds_plain(blocks, p, j);
    let (code, starts) = blocks_emitted(no_code(), blocks, Seq::empty(), 0)->Some_0;
    let a = address(blocks, p, j);
    let inst = blocks[p][j];
    emitted_has_emitted_length(inst);
    let new = emitted(inst)->Some_0;
    let end = a + new.len();
    assert(length_between(blocks[p], 0, j + 1) == length_between(blocks[p], 0, j)
        + inst.spec_emitted_length());
    let all = labels_resolved(code.insts, starts, code.labels, 0)->Some_0;
    resolved_len(code.insts, starts, code.labels, 0);
    start_code();
    assert forall|x: int| a <= x < end implies all[x] == new[x - a] by {
        assert forall|q: int| 0 <= q < code.labels.len() implies x < (#[trigger] code.labels[q]).addr
            || x >= code.labels[q].addr + code.labels[q].kind.patch_len() by {
            ranges_apart(blocks, no_code(), Seq::empty(), 0, p, j, q);
        }
        outside_stays(code.insts, starts, code.labels, 0, x);
        assert(code.insts[a + (x - a)] == new[x - a]);
    }
    assert(all.subrange(a, end) =~= new);
}

proof fn resolved_len(insts: Seq<Instruction>, starts: Seq<u32>, labels: Seq<LabelRef>, k: int)
    requires
        labels_resolved(insts, starts, labels, k) is Some,
    ensures
        labels_resolved(insts, starts, labels, k)->Some_0.len() == insts.len(),
    decreases labels.len() - k,
{
    if k < labels.len() {
        let done = label_resolved(insts, starts, labels[k])->Some_0;
        let l = labels[k];
        let end = l.addr + l.kind.patch_len();
        let part = insts.subrange(l.addr as int, end);
        let target = starts[l.label.index as int] as int;
        assert(l.kind.patched(part, l.addr as int, target).len() == l.kind.patch_len());
        assert(done.len() == insts.len());
        resolved_len(done, starts, labels, k + 1);
    }
}

/// Every address of a symbol has a relocation at the start of its chain, with its
/// name and its offset.
pub proof fn symbols_are_relocated(blocks: Seq<Seq<MInstView>>, p: int, j: int)
    requires
        assembled(blocks) is Some,
        0 <= p < blocks.len(),
        0 <= j < blocks[p].len(),
        blocks[p][j] is LoadExtName,
    ensures
        assembled(blocks)->Some_0.2.contains(
            Reloc {
                kind: RelocKind::ScryAbs32,
                addr: address(blocks, p, j) as u32,
                name: blocks[p][j]->LoadExtName_name,
                addend: blocks[p][j]->LoadExtName_offset,
            },
        ),
{
    let _ = holds_plain(blocks, p, j);
}

} // verus!
