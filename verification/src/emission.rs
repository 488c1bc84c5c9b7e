//! The final code: the blocks in the order of their layout.
use crate::bb::BBView;
use crate::cfg::VCodeCFG;
use crate::inst::{views, MInst, MInstOf, MInstView};
use crate::layout::layout_places_every_block;
use crate::reg::{CodegenError, MachLabel};
use crate::table::{insert, lookup, new_table, table_contents, IndexTable};
use vstd::prelude::*;

verus! {

/// The new number of the block that had the given number: its place in the
/// layout, from `k` on.
pub open spec fn new_number(bbs: Seq<BBView>, layout: Seq<usize>, number: u32, k: int) -> int
    decreases layout.len() - k,
{
    if k >= layout.len() || bbs[layout[k] as int].vcode_bb.index == number {
        k
    } else {
        new_number(bbs, layout, number, k + 1)
    }
}

/// The label with the new number; `None` where its block is not laid out.
pub open spec fn relabeled(bbs: Seq<BBView>, layout: Seq<usize>, label: MachLabel) -> Option<
    MachLabel,
> {
    let k = new_number(bbs, layout, label.index, 0);
    if k < layout.len() && k <= u32::MAX {
        Some(MachLabel { index: k as u32 })
    } else {
        None
    }
}

/// The instruction with its label corrected to the new numbers of the blocks.
pub open spec fn corrected(bbs: Seq<BBView>, layout: Seq<usize>, inst: MInstView) -> Option<
    MInstView,
> {
    match inst {
        MInstOf::JumpIssue { link, dst, kind, trig } => match relabeled(bbs, layout, dst) {
            Some(dst) => Some(MInstOf::JumpIssue { link, dst, kind, trig }),
            None => None,
        },
        MInstOf::JumpOffset { rd, dst, size_pow2, gap, trig } => match relabeled(
            bbs,
            layout,
            dst,
        ) {
            Some(dst) => Some(MInstOf::JumpOffset { rd, dst, size_pow2, gap, trig }),
            None => None,
        },
        _ => Some(inst),
    }
}

/// The instructions from position `i` on, corrected.
pub open spec fn corrected_from(
    bbs: Seq<BBView>,
    layout: Seq<usize>,
    insts: Seq<MInstView>,
    i: int,
) -> Option<Seq<MInstView>>
    decreases insts.len() - i,
{
    if i >= insts.len() {
        Some(Seq::empty())
    } else {
        match (corrected(bbs, layout, insts[i]), corrected_from(bbs, layout, insts, i + 1)) {
            (Some(first), Some(rest)) => Some(seq![first] + rest),
            _ => None,
        }
    }
}

/// The blocks from place `k` of the layout on.
pub open spec fn built_from(bbs: Seq<BBView>, layout: Seq<usize>, k: int) -> Option<
    Seq<Seq<MInstView>>,
>
    decreases layout.len() - k,
{
    if k >= layout.len() {
        Some(Seq::empty())
    } else {
        match (
            corrected_from(bbs, layout, bbs[layout[k] as int].inst, 0),
            built_from(bbs, layout, k + 1),
        ) {
            (Some(first), Some(rest)) => Some(seq![first] + rest),
            _ => None,
        }
    }
}

/// Lists of instructions as mathematical values.
pub open spec fn code_view(code: Seq<Vec<MInst>>) -> Seq<Seq<MInstView>> {
    Seq::new(code.len(), |i: int| views(code[i]@))
}

/// Whether a table maps the old numbers of the first `n` laid out blocks to their
/// new ones.
spec fn numbers(table: IndexTable, bbs: Seq<BBView>, layout: Seq<usize>, n: int) -> bool {
    &&& forall|k: int|
        0 <= k < n ==> {
            let old = bbs[(#[trigger] layout[k]) as int].vcode_bb.index as usize;
            table_contents(table).contains_key(old) && table_contents(table)[old] == k
        }
    &&& forall|x: usize|
        #[trigger] table_contents(table).contains_key(x) ==> exists|k: int|
            0 <= k < n && bbs[(#[trigger] layout[k]) as int].vcode_bb.index == x
}

proof fn new_number_found(bbs: Seq<BBView>, layout: Seq<usize>, number: u32, k: int, m: int)
    requires
        0 <= k <= m < layout.len(),
        bbs[layout[m] as int].vcode_bb.index == number,
        forall|i: int|
            0 <= i < layout.len() && i != m ==> bbs[(#[trigger] layout[i]) as int].vcode_bb.index
                != number,
    ensures
        new_number(bbs, layout, number, k) == m,
    decreases layout.len() - k,
{
    if k < m {
        assert(bbs[layout[k] as int].vcode_bb.index != number);
        new_number_found(bbs, layout, number, k + 1, m);
    }
}

proof fn new_number_missing(bbs: Seq<BBView>, layout: Seq<usize>, number: u32, k: int)
    requires
        0 <= k,
        forall|i: int|
            0 <= i < layout.len() ==> bbs[(#[trigger] layout[i]) as int].vcode_bb.index != number,
    ensures
        new_number(bbs, layout, number, k) >= layout.len(),
    decreases layout.len() - k,
{
    if k < layout.len() {
        assert(bbs[layout[k] as int].vcode_bb.index != number);
        new_number_missing(bbs, layout, number, k + 1);
    }
}

/// Whether a list of positions has different blocks.
spec fn layout_distinct(bbs: Seq<BBView>, layout: Seq<usize>) -> bool {
    forall|i: int, j: int|
        0 <= i < layout.len() && 0 <= j < layout.len() && i != j ==> bbs[(
        #[trigger] layout[i]) as int].vcode_bb != bbs[(#[trigger] layout[j]) as int].vcode_bb
}

fn relabel(table: &IndexTable, label: MachLabel, Ghost(bbs): Ghost<Seq<BBView>>, Ghost(layout): Ghost<Seq<usize>>) -> (r: Option<
    MachLabel,
>)
    requires
        numbers(*table, bbs, layout, layout.len() as int),
        layout_distinct(bbs, layout),
    ensures
        r == relabeled(bbs, layout, label),
{
    match lookup(table, label.index as usize) {
        Some(k) => {
            proof {
                let m = choose|m: int|
                    0 <= m < layout.len() && bbs[(#[trigger] layout[m]) as int].vcode_bb.index
                        == label.index as usize;
                assert forall|i: int| 0 <= i < layout.len() && i != m implies bbs[(
                #[trigger] layout[i]) as int].vcode_bb.index != label.index by {
                    assert(bbs[layout[i] as int].vcode_bb != bbs[layout[m] as int].vcode_bb);
                }
                new_number_found(bbs, layout, label.index, 0, m);
                assert(table_contents(*table)[bbs[layout[m] as int].vcode_bb.index as usize] == m);
            }
            if k > 0xffff_ffff {
                None
            } else {
                Some(MachLabel { index: k as u32 })
            }
        },
        None => {
            proof {
                assert forall|i: int| 0 <= i < layout.len() implies bbs[(
                #[trigger] layout[i]) as int].vcode_bb.index != label.index by {}
                new_number_missing(bbs, layout, label.index, 0);
            }
            None
        },
    }
}

fn correct(table: &IndexTable, inst: &MInst, Ghost(bbs): Ghost<Seq<BBView>>, Ghost(layout): Ghost<Seq<usize>>) -> (r: Option<
    MInst,
>)
    requires
        numbers(*table, bbs, layout, layout.len() as int),
        layout_distinct(bbs, layout),
    ensures
        match r {
            Some(done) => corrected(bbs, layout, inst@) == Some(done@),
            None => corrected(bbs, layout, inst@) is None,
        },
{
    match inst {
        MInst::JumpIssue { link, dst, kind, trig } => match relabel(
            table,
            *dst,
            Ghost(bbs),
            Ghost(layout),
        ) {
            Some(dst) => Some(MInst::JumpIssue { link: *link, dst, kind: *kind, trig: *trig }),
            None => None,
        },
        MInst::JumpOffset { rd, dst, size_pow2, gap, trig } => match relabel(
            table,
            *dst,
            Ghost(bbs),
            Ghost(layout),
        ) {
            Some(dst) => Some(
                MInst::JumpOffset { rd: *rd, dst, size_pow2: *size_pow2, gap: *gap, trig: *trig },
            ),
            None => None,
        },
        other => Some(other.copy()),
    }
}

fn correct_block(table: &IndexTable, insts: &Vec<MInst>, Ghost(bbs): Ghost<Seq<BBView>>, Ghost(layout): Ghost<Seq<usize>>) -> (r: Option<
    Vec<MInst>,
>)
    requires
        numbers(*table, bbs, layout, layout.len() as int),
        layout_distinct(bbs, layout),
    ensures
        match r {
            Some(done) => corrected_from(bbs, layout, views(insts@), 0) == Some(views(done@)),
            None => corrected_from(bbs, layout, views(insts@), 0) is None,
        },
{
    let ghost all = views(insts@);
    let mut r: Vec<MInst> = Vec::new();
    for i in 0..insts.len()
        invariant
            numbers(*table, bbs, layout, layout.len() as int),
            layout_distinct(bbs, layout),
            all == views(insts@),
            corrected_from(bbs, layout, all, 0) == (match corrected_from(
                bbs,
                layout,
                all,
                i as int,
            ) {
                Some(rest) => Some(views(r@) + rest),
                None => None,
            }),
    {
        broadcast use crate::inst::views_push;

        assert(all[i as int] == insts@[i as int]@);
        let ghost before = views(r@);
        match correct(table, &insts[i], Ghost(bbs), Ghost(layout)) {
            Some(done) => {
                r.push(done);
                proof {
                    if let Some(rest) = corrected_from(bbs, layout, all, i as int + 1) {
                        assert(before + (seq![done@] + rest) =~= views(r@) + rest);
                    }
                }
            },
            None => {
                return None;
            },
        }
    }
    assert(views(r@) + Seq::<MInstView>::empty() =~= views(r@));
    Some(r)
}

impl VCodeCFG {
    /// The instructions of all blocks in the order of the layout, the entry
    /// first. The labels, which depend on the number and order of the blocks, are
    /// corrected. Branch conditions must already have been fixed to match the
    /// layout.
    pub fn build_vcode(&self) -> (r: Result<Vec<Vec<MInst>>, CodegenError>)
        requires
            self.wf(),
        ensures
            match r {
                Ok(code) => self.shape().layout() is Some && built_from(
                    self.bbs(),
                    self.shape().layout()->Some_0,
                    0,
                ) == Some(code_view(code@)),
                Err(e) => e is Malformed && (self.shape().layout() is None || built_from(
                    self.bbs(),
                    self.shape().layout()->Some_0,
                    0,
                ) is None),
            },
    {
        let ghost bbs = self.bbs();
        let n: usize = self.blocks.len();
        let layout = match self.compute_layout() {
            Ok(layout) => layout,
            Err(e) => {
                return Err(e);
            },
        };
        let ghost l = layout@;
        proof {
            layout_places_every_block(self.shape());
            assert forall|i: int, j: int|
                0 <= i < l.len() && 0 <= j < l.len() && i != j implies bbs[(
            #[trigger] l[i]) as int].vcode_bb != bbs[(#[trigger] l[j]) as int].vcode_bb by {
                let a = l[i] as int;
                let b = l[j] as int;
                assert(a != b);
                if a < b {
                    assert(bbs[a].vcode_bb != bbs[b].vcode_bb);
                } else {
                    assert(bbs[b].vcode_bb != bbs[a].vcode_bb);
                }
            }
            assert(layout_distinct(bbs, l));
        }
        let mut table = new_table();
        for k in 0..layout.len()
            invariant
                l == layout@,
                bbs == self.bbs(),
                layout_distinct(bbs, l),
                forall|i: int| 0 <= i < l.len() ==> #[trigger] l[i] < self.blocks@.len(),
                numbers(table, bbs, l, k as int),
        {
            let v: usize = layout[k];
            assert(bbs[v as int] == self.blocks@[v as int]@);
            let ghost t0 = table_contents(table);
            let old: usize = self.blocks[v].vcode_bb.index as usize;
            insert(&mut table, old, k);
            proof {
                let t1 = table_contents(table);
                assert forall|m: int| 0 <= m < k + 1 implies {
                    let x = bbs[(#[trigger] l[m]) as int].vcode_bb.index as usize;
                    t1.contains_key(x) && t1[x] == m
                } by {
                    if m < k {
                        assert(bbs[l[m] as int].vcode_bb != bbs[l[k as int] as int].vcode_bb);
                    }
                }
                assert forall|x: usize| #[trigger] t1.contains_key(x) implies exists|m: int|
                    0 <= m < k + 1 && bbs[(#[trigger] l[m]) as int].vcode_bb.index == x by {
                    if x == old {
                        assert(bbs[l[k as int] as int].vcode_bb.index == x);
                    } else {
                        assert(t0.contains_key(x));
                        let m = choose|m: int|
                            0 <= m < k && bbs[(#[trigger] l[m]) as int].vcode_bb.index == x;
                        assert(bbs[l[m] as int].vcode_bb.index == x);
                    }
                }
            }
        }
        let mut code: Vec<Vec<MInst>> = Vec::new();
        for k in 0..layout.len()
            invariant
                l == layout@,
                bbs == self.bbs(),
                self.shape().layout() == Some(l),
                layout_distinct(bbs, l),
                forall|i: int| 0 <= i < l.len() ==> #[trigger] l[i] < self.blocks@.len(),
                numbers(table, bbs, l, l.len() as int),
                built_from(bbs, l, 0) == (match built_from(bbs, l, k as int) {
                    Some(rest) => Some(code_view(code@) + rest),
                    None => None,
                }),
        {
            let v: usize = layout[k];
            assert(bbs[v as int] == self.blocks@[v as int]@);
            let ghost before = code_view(code@);
            match correct_block(&table, &self.blocks[v].inst, Ghost(bbs), Ghost(l)) {
                Some(done) => {
                    let ghost dv = views(done@);
                    code.push(done);
                    assert(code_view(code@) =~= before.push(dv));
                    proof {
                        if let Some(rest) = built_from(bbs, l, k as int + 1) {
                            assert(before + (seq![dv] + rest) =~= code_view(code@) + rest);
                        }
                    }
                },
                None => {
                    return Err(CodegenError::Malformed);
                },
            }
        }
        assert(code_view(code@) + Seq::<Seq<MInstView>>::empty() =~= code_view(code@));
        Ok(code)
    }
}

} // verus!
