//! The linear order of the blocks in the binary.
use crate::bb::{first_from, BBView, VCodeBB};
use crate::cfg::{succs_wf, VCodeCFG};
use crate::inst::{views, MInst, MInstOf, MInstView};
use crate::issues::{
    find_jmp_issues, issue_positions, jump_issues, jumps_wf, trigger_positions,
};
use crate::reg::{Block, CodegenError, MachLabel};
use crate::table::{insert, lookup, new_table, table_contents, IndexTable};
use vstd::prelude::*;

verus! {

/// How a block transfers control to a successor, as far as block layout is
/// concerned.
#[derive(Clone, Copy, PartialEq, Eq, Structural, Debug)]
pub enum BlockExit {
    /// The block ends in a conditional branch to the given vcode block; the
    /// block's other successor is its fall-through.
    Branch(Block),
    /// The block ends in an unconditional jump to the given vcode block.
    Jump(Block),
}

/// The block that carries a label.
pub open spec fn block_of(label: MachLabel) -> Block {
    Block { index: label.index }
}

/// The target of an unconditional issue.
pub open spec fn plain_target(inst: MInstView) -> Option<Block> {
    match inst {
        MInstOf::JumpIssue { dst, kind, .. } => if kind.spec_is_conditional() {
            None
        } else {
            Some(block_of(dst))
        },
        _ => None,
    }
}

/// The target of the first unconditional issue among those from the `k`th on.
pub open spec fn first_plain(insts: Seq<MInstView>, issues: Seq<usize>, k: int) -> Option<Block>
    decreases issues.len() - k,
{
    if k >= issues.len() {
        None
    } else {
        match plain_target(insts[issues[k] as int]) {
            Some(b) => Some(b),
            None => first_plain(insts, issues, k + 1),
        }
    }
}

/// How a block with well-formed jumps ends. A block with several issues names
/// every one of its successors, so it has no fall-through; its unconditional
/// issue is a preference.
pub open spec fn exit_of(insts: Seq<MInstView>) -> Option<BlockExit> {
    match jump_issues(insts) {
        None => None,
        Some((issues, _)) => if issues.len() > 1 {
            match first_plain(insts, issues, 0) {
                Some(b) => Some(BlockExit::Jump(b)),
                None => None,
            }
        } else {
            match insts[issues[0] as int] {
                MInstOf::JumpIssue { dst, kind, .. } => if kind.spec_is_conditional() {
                    Some(BlockExit::Branch(block_of(dst)))
                } else {
                    Some(BlockExit::Jump(block_of(dst)))
                },
                _ => None,
            }
        },
    }
}

/// The block-exit query for the layout. Fails where the jumps are not
/// well-formed.
pub fn block_exit(bb: &VCodeBB) -> (r: Result<Option<BlockExit>, CodegenError>)
    ensures
        match r {
            Ok(exit) => jumps_wf(bb@.inst) && exit == exit_of(bb@.inst),
            Err(e) => e is Malformed && !jumps_wf(bb@.inst),
        },
{
    let ghost all = bb@.inst;
    let issues = match find_jmp_issues(&bb.inst) {
        Ok(Some((issues, _))) => issues,
        Ok(None) => {
            return Ok(None);
        },
        Err(e) => {
            return Err(e);
        },
    };
    if issues.len() > 1 {
        for k in 0..issues.len()
            invariant
                all == views(bb.inst@),
                all == bb@.inst,
                jumps_wf(all),
                issues@.len() > 1,
                exists|t: usize| jump_issues(all) == Some((issues@, t)),
                forall|k: int| 0 <= k < issues@.len() ==> #[trigger] issues@[k] < bb.inst@.len(),
                first_plain(all, issues@, 0) == first_plain(all, issues@, k as int),
        {
            let i: usize = issues[k];
            assert(all[i as int] == bb.inst@[i as int]@);
            match &bb.inst[i] {
                MInst::JumpIssue { dst, kind, .. } => {
                    if !kind.is_conditional() {
                        return Ok(Some(BlockExit::Jump(Block { index: dst.index })));
                    }
                },
                _ => {},
            }
        }
        return Ok(None);
    }
    let i: usize = issues[0];
    assert(all[i as int] == bb.inst@[i as int]@);
    match &bb.inst[i] {
        MInst::JumpIssue { dst, kind, .. } => {
            if kind.is_conditional() {
                Ok(Some(BlockExit::Branch(Block { index: dst.index })))
            } else {
                Ok(Some(BlockExit::Jump(Block { index: dst.index })))
            }
        },
        _ => Ok(None),
    }
}

/// The elements other than `x`.
pub open spec fn others(s: Seq<usize>, x: usize) -> Seq<usize>
    decreases s.len(),
{
    if s.len() == 0 {
        Seq::empty()
    } else if s.last() != x {
        others(s.drop_last(), x).push(s.last())
    } else {
        others(s.drop_last(), x)
    }
}

/// The blocks and edges as far as the layout depends on them.
#[verifier::ext_equal]
pub struct Shape {
    pub bbs: Seq<BBView>,
    pub succs: Map<usize, Seq<usize>>,
    pub root: usize,
}

impl Shape {
    /// The successor that a conditional block falls through to: the one that its
    /// branch does not name.
    pub open spec fn fall_through(self, v: int) -> Option<usize> {
        match exit_of(self.bbs[v].inst) {
            Some(BlockExit::Branch(target)) => match VCodeCFG::spec_vertex_of(self.bbs, target) {
                Some(t) => Some(others(self.succs[v as usize], t)[0]),
                None => None,
            },
            _ => None,
        }
    }

    /// Whether a block's jumps are well-formed and a conditional block has a
    /// single other successor.
    pub open spec fn exit_wf(self, v: int) -> bool {
        &&& jumps_wf(self.bbs[v].inst)
        &&& exit_of(self.bbs[v].inst) matches Some(BlockExit::Branch(target)) ==> {
            &&& VCodeCFG::spec_vertex_of(self.bbs, target) is Some
            &&& others(
                self.succs[v as usize],
                VCodeCFG::spec_vertex_of(self.bbs, target)->Some_0,
            ).len() == 1
        }
    }

    /// Whether a block is some conditional block's fall-through.
    pub open spec fn reserved(self, w: int) -> bool {
        exists|v: int| 0 <= v < self.bbs.len() && self.fall_through(v) == Some(w as usize)
    }

    /// Whether the blocks can be laid out at all: no two conditional blocks share
    /// a fall-through, and the entry is none.
    pub open spec fn exits_wf(self) -> bool {
        &&& forall|v: int| 0 <= v < self.bbs.len() ==> #[trigger] self.exit_wf(v)
        &&& forall|v: int, w: int|
            0 <= v < w < self.bbs.len() && (#[trigger] self.fall_through(v)) is Some ==> (
            #[trigger] self.fall_through(w)) != self.fall_through(v)
        &&& !self.reserved(self.root as int)
    }

    /// The smallest block from `w` on that is neither placed nor reserved.
    pub open spec fn smallest_free(self, placed: Seq<usize>, w: int) -> int
        decreases self.bbs.len() - w,
    {
        if w >= self.bbs.len() || (!placed.contains(w as usize) && !self.reserved(w)) {
            w
        } else {
            self.smallest_free(placed, w + 1)
        }
    }

    /// The preferred continuation: an unconditional jump's target, if it is free.
    pub open spec fn preferred(self, placed: Seq<usize>) -> Option<usize> {
        match exit_of(self.bbs[placed.last() as int].inst) {
            Some(BlockExit::Jump(dst)) => match VCodeCFG::spec_vertex_of(self.bbs, dst) {
                Some(w) => if !placed.contains(w) && !self.reserved(w as int) {
                    Some(w)
                } else {
                    None
                },
                None => None,
            },
            _ => None,
        }
    }

    /// The block placed behind those placed so far; `None` where there is none.
    pub open spec fn next_placed(self, placed: Seq<usize>) -> Option<usize> {
        match self.fall_through(placed.last() as int) {
            Some(f) => if placed.contains(f) {
                None
            } else {
                Some(f)
            },
            None => match self.preferred(placed) {
                Some(w) => Some(w),
                None => if self.smallest_free(placed, 0) < self.bbs.len() {
                    Some(self.smallest_free(placed, 0) as usize)
                } else {
                    None
                },
            },
        }
    }

    /// The layout that continues the blocks placed so far.
    pub open spec fn layout_from(self, placed: Seq<usize>) -> Option<Seq<usize>>
        decreases self.bbs.len() - placed.len(),
    {
        if placed.len() >= self.bbs.len() {
            if self.fall_through(placed.last() as int) is Some {
                None
            } else {
                Some(placed)
            }
        } else {
            match self.next_placed(placed) {
                Some(w) => self.layout_from(placed.push(w)),
                None => None,
            }
        }
    }

    /// The layout: a greedy trace from the entry.
    pub open spec fn layout(self) -> Option<Seq<usize>> {
        if self.exits_wf() {
            self.layout_from(seq![self.root])
        } else {
            None
        }
    }

    /// Successors are blocks.
    pub open spec fn wf(self) -> bool {
        &&& succs_wf(self.succs, self.bbs.len())
        &&& self.root < self.bbs.len()
        &&& self.bbs.len() <= usize::MAX
    }
}

/// Each of the other elements is an element.
proof fn others_are_elements(s: Seq<usize>, x: usize, i: int)
    requires
        0 <= i < others(s, x).len(),
    ensures
        s.contains(others(s, x)[i]),
        others(s, x)[i] != x,
    decreases s.len(),
{
    if i < others(s.drop_last(), x).len() {
        others_are_elements(s.drop_last(), x, i);
        let y = others(s, x)[i];
        let j = choose|j: int| 0 <= j < s.drop_last().len() && s.drop_last()[j] == y;
        assert(s[j] == y);
    } else {
        assert(s[s.len() - 1] == others(s, x)[i]);
    }
}

/// A fall-through is a block.
proof fn fall_through_is_block(g: Shape, v: int)
    requires
        g.wf(),
        0 <= v < g.bbs.len(),
        g.exit_wf(v),
        g.fall_through(v) is Some,
    ensures
        g.fall_through(v)->Some_0 < g.bbs.len(),
        g.succs[v as usize].contains(g.fall_through(v)->Some_0),
{
    let target = exit_of(g.bbs[v].inst)->Some_0->Branch_0;
    let t = VCodeCFG::spec_vertex_of(g.bbs, target)->Some_0;
    let s = g.succs[v as usize];
    others_are_elements(s, t, 0);
    let j = choose|j: int| 0 <= j < s.len() && s[j] == others(s, t)[0];
    assert(s.no_duplicates());
    assert(s[j] < g.bbs.len());
}

proof fn vertex_in_range(bbs: Seq<BBView>, b: Block)
    requires
        bbs.len() <= usize::MAX,
    ensures
        VCodeCFG::spec_vertex_of(bbs, b) matches Some(w) ==> w < bbs.len() && bbs[w as int].vcode_bb
            == b,
{
    let p = |i: int| bbs[i].vcode_bb == b;
    crate::bb::first_from_is_least(p, 0, bbs.len() as int);
    assert(first_from(|i: int| bbs[i].vcode_bb == b, 0, bbs.len() as int) == first_from(
        p,
        0,
        bbs.len() as int,
    ));
}

proof fn smallest_free_is_free(g: Shape, placed: Seq<usize>, w: int)
    requires
        0 <= w <= g.bbs.len(),
    ensures
        w <= g.smallest_free(placed, w) <= g.bbs.len(),
        g.smallest_free(placed, w) < g.bbs.len() ==> !placed.contains(
            g.smallest_free(placed, w) as usize,
        ) && !g.reserved(g.smallest_free(placed, w)),
    decreases g.bbs.len() - w,
{
    if w < g.bbs.len() && (placed.contains(w as usize) || g.reserved(w)) {
        smallest_free_is_free(g, placed, w + 1);
    }
}

/// The block placed next is a block that is not placed yet.
proof fn next_is_new(g: Shape, placed: Seq<usize>)
    requires
        g.wf(),
        g.exits_wf(),
        placed.len() > 0,
        placed.last() < g.bbs.len(),
    ensures
        g.next_placed(placed) matches Some(w) ==> w < g.bbs.len() && !placed.contains(w),
{
    let last = placed.last() as int;
    assert(g.exit_wf(last));
    if g.fall_through(last) is Some {
        fall_through_is_block(g, last);
    } else {
        if let Some(BlockExit::Jump(dst)) = exit_of(g.bbs[last].inst) {
            vertex_in_range(g.bbs, dst);
        }
        smallest_free_is_free(g, placed, 0);
    }
}

/// Whether a list of blocks is the beginning of a layout.
pub open spec fn is_trace(g: Shape, l: Seq<usize>) -> bool {
    &&& l.len() > 0
    &&& l[0] == g.root
    &&& l.no_duplicates()
    &&& forall|i: int| 0 <= i < l.len() ==> #[trigger] l[i] < g.bbs.len()
    &&& forall|i: int|
        0 <= i < l.len() - 1 ==> (g.fall_through(#[trigger] l[i] as int) matches Some(f) ==> l[i + 1]
            == f)
}

proof fn layout_is_trace(g: Shape, placed: Seq<usize>)
    requires
        g.wf(),
        g.exits_wf(),
        is_trace(g, placed),
        placed.len() <= g.bbs.len(),
    ensures
        g.layout_from(placed) matches Some(l) ==> is_trace(g, l) && l.len() == g.bbs.len()
            && g.fall_through(l.last() as int) is None,
    decreases g.bbs.len() - placed.len(),
{
    if placed.len() < g.bbs.len() {
        assert(placed.last() == placed[placed.len() - 1]);
        next_is_new(g, placed);
        if let Some(w) = g.next_placed(placed) {
            let p = placed.push(w);
            assert(is_trace(g, p)) by {
                assert forall|i: int| 0 <= i < p.len() - 1 implies (g.fall_through(
                    #[trigger] p[i] as int,
                ) matches Some(f) ==> p[i + 1] == f) by {
                    if i < placed.len() - 1 {
                        assert(p[i] == placed[i]);
                        assert(p[i + 1] == placed[i + 1]);
                    }
                }
            }
            layout_is_trace(g, p);
        }
    }
}

/// A layout starts with the entry and holds every block exactly once. Every
/// conditional block is directly followed by its fall-through.
pub proof fn layout_places_every_block(g: Shape)
    requires
        g.wf(),
        g.layout() is Some,
    ensures
        ({
            let l = g.layout()->Some_0;
            &&& l.len() == g.bbs.len()
            &&& l.no_duplicates()
            &&& forall|i: int| 0 <= i < l.len() ==> #[trigger] l[i] < g.bbs.len()
            &&& l[0] == g.root
            &&& forall|i: int|
                0 <= i < l.len() ==> (g.fall_through(#[trigger] l[i] as int) matches Some(f) ==> i + 1
                    < l.len() && l[i + 1] == f)
        }),
{
    let start = seq![g.root];
    assert(is_trace(g, start));
    layout_is_trace(g, start);
    let l = g.layout()->Some_0;
    assert forall|i: int| 0 <= i < l.len() implies (g.fall_through(#[trigger] l[i] as int) matches Some(
        f,
    ) ==> i + 1 < l.len() && l[i + 1] == f) by {
        if i == l.len() - 1 {
            assert(l.last() == l[i]);
        }
    }
}

impl VCodeCFG {
    /// What the layout depends on.
    pub open spec fn shape(&self) -> Shape {
        Shape { bbs: self.bbs(), succs: self.succs(), root: self.root }
    }

    /// Finds a conditional block's fall-through.
    fn find_fall_through(&self, v: usize) -> (r: Result<Option<usize>, CodegenError>)
        requires
            self.wf(),
            v < self.blocks@.len(),
        ensures
            match r {
                Ok(f) => self.shape().exit_wf(v as int) && f == self.shape().fall_through(v as int),
                Err(e) => e is Malformed && !self.shape().exit_wf(v as int),
            },
    {
        let ghost bbs = self.bbs();
        assert(bbs[v as int] == self.blocks@[v as int]@);
        let target = match block_exit(&self.blocks[v]) {
            Ok(Some(BlockExit::Branch(target))) => target,
            Ok(_) => {
                return Ok(None);
            },
            Err(e) => {
                return Err(e);
            },
        };
        let t: usize = match self.vertex_of_block(target) {
            Some(t) => t,
            None => {
                return Err(CodegenError::Malformed);
            },
        };
        let succs = self.successors(v);
        let mut rest: Vec<usize> = Vec::new();
        for k in 0..succs.len()
            invariant
                rest@ == others(succs@.take(k as int), t),
        {
            assert(succs@.take(k as int + 1).drop_last() =~= succs@.take(k as int));
            if succs[k] != t {
                rest.push(succs[k]);
            }
        }
        assert(succs@.take(succs@.len() as int) =~= succs@);
        if rest.len() != 1 {
            return Err(CodegenError::Malformed);
        }
        Ok(Some(rest[0]))
    }

    /// Finds all fall-throughs, as a table from the conditional blocks and as the
    /// list of the reserved blocks.
    fn find_fall_throughs(&self) -> (r: Result<(IndexTable, Vec<bool>), CodegenError>)
        requires
            self.wf(),
        ensures
            match r {
                Ok((table, reserved)) => {
                    &&& self.shape().exits_wf()
                    &&& reserved@.len() == self.blocks@.len()
                    &&& forall|w: int|
                        0 <= w < reserved@.len() ==> #[trigger] reserved@[w]
                            == self.shape().reserved(w)
                    &&& forall|v: usize|
                        (v as int) < self.blocks@.len() ==> #[trigger] table_contents(
                            table,
                        ).contains_key(v) == (self.shape().fall_through(v as int) is Some)
                    &&& forall|v: usize|
                        (v as int) < self.blocks@.len() && #[trigger] table_contents(
                            table,
                        ).contains_key(v) ==> Some(table_contents(table)[v])
                            == self.shape().fall_through(v as int)
                },
                Err(e) => e is Malformed && !self.shape().exits_wf(),
            },
    {
        let ghost g = self.shape();
        let n: usize = self.blocks.len();
        let mut table = new_table();
        let mut reserved: Vec<bool> = Vec::new();
        for i in 0..n
            invariant
                reserved@.len() == i,
                forall|w: int| 0 <= w < i ==> !(#[trigger] reserved@[w]),
        {
            reserved.push(false);
        }
        for v in 0..n
            invariant
                self.wf(),
                n == self.blocks@.len(),
                g == self.shape(),
                g.bbs.len() == n,
                g.wf(),
                reserved@.len() == n,
                forall|w: int| 0 <= w < v ==> #[trigger] g.exit_wf(w),
                forall|w: int|
                    0 <= w < n ==> #[trigger] reserved@[w] == exists|u: int|
                        0 <= u < v && g.fall_through(u) == Some(w as usize),
                forall|u: int, w: int|
                    0 <= u < w < v && (#[trigger] g.fall_through(u)) is Some ==> (
                    #[trigger] g.fall_through(w)) != g.fall_through(u),
                forall|u: usize|
                    #[trigger] table_contents(table).contains_key(u) == (u < v && g.fall_through(
                        u as int,
                    ) is Some),
                forall|u: usize|
                    #[trigger] table_contents(table).contains_key(u) ==> Some(
                        table_contents(table)[u],
                    ) == g.fall_through(u as int),
        {
            match self.find_fall_through(v) {
                Err(e) => {
                    assert(!g.exits_wf());
                    return Err(e);
                },
                Ok(None) => {
                    assert forall|w: int| 0 <= w < n implies #[trigger] reserved@[w] == exists|u: int|
                        0 <= u < v + 1 && g.fall_through(u) == Some(w as usize) by {
                        if exists|u: int| 0 <= u < v + 1 && g.fall_through(u) == Some(w as usize) {
                            let u = choose|u: int|
                                0 <= u < v + 1 && g.fall_through(u) == Some(w as usize);
                            assert(u < v);
                        }
                    }
                },
                Ok(Some(f)) => {
                    proof {
                        fall_through_is_block(g, v as int);
                    }
                    if reserved[f] {
                        proof {
                            let u = choose|u: int| 0 <= u < v && g.fall_through(u) == Some(f);
                            assert(g.fall_through(u) is Some);
                            assert(g.fall_through(v as int) == g.fall_through(u));
                            assert(!g.exits_wf());
                        }
                        return Err(CodegenError::Malformed);
                    }
                    let ghost before = reserved@;
                    reserved.set(f, true);
                    insert(&mut table, v, f);
                    assert forall|w: int| 0 <= w < n implies #[trigger] reserved@[w] == exists|u: int|
                        0 <= u < v + 1 && g.fall_through(u) == Some(w as usize) by {
                        if w == f {
                            assert(g.fall_through(v as int) == Some(w as usize));
                        } else {
                            assert(reserved@[w] == before[w]);
                            if exists|u: int|
                                0 <= u < v + 1 && g.fall_through(u) == Some(w as usize) {
                                let u = choose|u: int|
                                    0 <= u < v + 1 && g.fall_through(u) == Some(w as usize);
                                assert(u < v);
                            }
                        }
                    }
                    assert forall|u: int, w: int|
                        0 <= u < w < v + 1 && (#[trigger] g.fall_through(u)) is Some implies (
                    #[trigger] g.fall_through(w)) != g.fall_through(u) by {
                        if w == v && g.fall_through(u) == Some(f) {
                            assert(before[f as int]);
                        }
                    }
                },
            }
        }
        proof {
            assert forall|w: int| 0 <= w < n implies #[trigger] reserved@[w] == g.reserved(w) by {}
        }
        if reserved[self.root] {
            assert(!g.exits_wf());
            return Err(CodegenError::Malformed);
        }
        Ok((table, reserved))
    }

    /// Computes the final linear order of the blocks in the binary. The entry
    /// block is always first. Every conditional block is directly followed by its
    /// fall-through successor.
    ///
    /// The layout is built as a greedy trace from the entry block. A block
    /// reserved as some conditional's fall-through is never placed by any other
    /// means. Otherwise the target of an unconditional jump is preferred, so that
    /// it becomes a fall-through; failing that, the smallest block that is free is
    /// taken.
    pub fn compute_layout(&self) -> (r: Result<Vec<usize>, CodegenError>)
        requires
            self.wf(),
        ensures
            match r {
                Ok(layout) => self.shape().layout() == Some(layout@),
                Err(e) => e is Malformed && self.shape().layout() is None,
            },
    {
        let ghost g = self.shape();
        let n: usize = self.blocks.len();
        let (table, reserved) = match self.find_fall_throughs() {
            Ok(found) => found,
            Err(e) => {
                return Err(e);
            },
        };
        let root: usize = self.root;
        let mut layout: Vec<usize> = Vec::new();
        layout.push(root);
        assert(layout@ =~= seq![root]);
        let mut placed: Vec<bool> = Vec::new();
        for i in 0..n
            invariant
                placed@.len() == i,
                forall|w: int| 0 <= w < i ==> #[trigger] placed@[w] == (w == root),
        {
            placed.push(i == root);
        }
        assert forall|w: int| 0 <= w < n implies #[trigger] placed@[w] == layout@.contains(
            w as usize,
        ) by {
            if w == root {
                assert(layout@[0] == root);
            }
        }
        while layout.len() < n
            invariant
                self.wf(),
                g == self.shape(),
                g.wf(),
                g.exits_wf(),
                n == self.blocks@.len(),
                n == g.bbs.len(),
                reserved@.len() == n,
                placed@.len() == n,
                1 <= layout@.len() <= n,
                layout@.last() < n,
                forall|w: int| 0 <= w < n ==> #[trigger] reserved@[w] == g.reserved(w),
                forall|w: int| 0 <= w < n ==> #[trigger] placed@[w] == layout@.contains(w as usize),
                forall|v: usize|
                    (v as int) < n ==> #[trigger] table_contents(table).contains_key(v) == (
                    g.fall_through(v as int) is Some),
                forall|v: usize|
                    (v as int) < n && #[trigger] table_contents(table).contains_key(v) ==> Some(
                        table_contents(table)[v],
                    ) == g.fall_through(v as int),
                g.layout() == g.layout_from(layout@),
            decreases n - layout@.len(),
        {
            let last: usize = layout[layout.len() - 1];
            assert(last == layout@.last());
            assert(g.exit_wf(last as int));
            let ghost before = layout@;
            proof {
                next_is_new(g, before);
            }
            let next: usize = match lookup(&table, last) {
                Some(f) => {
                    proof {
                        fall_through_is_block(g, last as int);
                    }
                    // Hard constraint: the fall-through successor comes next.
                    if placed[f] {
                        return Err(CodegenError::Malformed);
                    }
                    f
                },
                None => {
                    // Soft preference: continue with an unconditional jump's target.
                    match self.find_preferred(last, &placed, &reserved, Ghost(layout@)) {
                        Some(w) => w,
                        None => {
                            let mut w: usize = 0;
                            while w < n && (placed[w] || reserved[w])
                                invariant
                                    w <= n,
                                    n == g.bbs.len(),
                                    reserved@.len() == n,
                                    placed@.len() == n,
                                    forall|w: int|
                                        0 <= w < n ==> #[trigger] reserved@[w] == g.reserved(w),
                                    forall|w: int|
                                        0 <= w < n ==> #[trigger] placed@[w] == before.contains(
                                            w as usize,
                                        ),
                                    g.smallest_free(before, 0) == g.smallest_free(
                                        before,
                                        w as int,
                                    ),
                                decreases n - w,
                            {
                                w = w + 1;
                            }
                            if w >= n {
                                return Err(CodegenError::Malformed);
                            }
                            w
                        },
                    }
                },
            };
            assert(g.next_placed(before) == Some(next));
            layout.push(next);
            let ghost old_placed = placed@;
            placed.set(next, true);
            assert forall|w: int| 0 <= w < n implies #[trigger] placed@[w] == layout@.contains(
                w as usize,
            ) by {
                assert(layout@ == before.push(next));
                if w == next {
                    assert(layout@[layout@.len() - 1] == next);
                } else {
                    assert(placed@[w] == old_placed[w]);
                    if before.contains(w as usize) {
                        let j = choose|j: int| 0 <= j < before.len() && before[j] == w as usize;
                        assert(layout@[j] == w as usize);
                    }
                    if layout@.contains(w as usize) {
                        let j = choose|j: int| 0 <= j < layout@.len() && layout@[j] == w as usize;
                        assert(before[j] == w as usize);
                    }
                }
            }
        }
        let last: usize = layout[layout.len() - 1];
        match lookup(&table, last) {
            Some(_) => Err(CodegenError::Malformed),
            None => Ok(layout),
        }
    }

    /// The target of an unconditional jump at the end of a block, if it is free.
    fn find_preferred(
        &self,
        last: usize,
        placed: &Vec<bool>,
        reserved: &Vec<bool>,
        Ghost(layout): Ghost<Seq<usize>>,
    ) -> (r: Option<usize>)
        requires
            self.wf(),
            last < self.blocks@.len(),
            layout.len() > 0,
            layout.last() == last,
            self.shape().exit_wf(last as int),
            placed@.len() == self.blocks@.len(),
            reserved@.len() == self.blocks@.len(),
            forall|w: int|
                0 <= w < placed@.len() ==> #[trigger] placed@[w] == layout.contains(w as usize),
            forall|w: int|
                0 <= w < reserved@.len() ==> #[trigger] reserved@[w] == self.shape().reserved(w),
        ensures
            r == self.shape().preferred(layout),
    {
        let ghost bbs = self.bbs();
        let n: usize = self.blocks.len();
        assert(bbs[last as int] == self.blocks@[last as int]@);
        match block_exit(&self.blocks[last]) {
            Ok(Some(BlockExit::Jump(dst))) => {
                proof {
                    vertex_in_range(bbs, dst);
                }
                match self.vertex_of_block(dst) {
                    Some(w) => {
                        if placed[w] || reserved[w] {
                            None
                        } else {
                            Some(w)
                        }
                    },
                    None => None,
                }
            },
            _ => None,
        }
    }
}

/// The position that an instruction has after one is inserted at `p`.
pub open spec fn shifted(p: int, i: usize) -> usize {
    if i < p {
        i
    } else {
        (i + 1) as usize
    }
}

proof fn positions_below(insts: Seq<MInstView>)
    requires
        insts.len() <= usize::MAX,
    ensures
        forall|k: int|
            0 <= k < issue_positions(insts).len() ==> (#[trigger] issue_positions(insts)[k])
                < insts.len(),
        forall|k: int|
            0 <= k < trigger_positions(insts).len() ==> (#[trigger] trigger_positions(insts)[k])
                < insts.len(),
    decreases insts.len(),
{
    if insts.len() > 0 {
        let init = insts.drop_last();
        positions_below(init);
        assert forall|k: int| 0 <= k < issue_positions(insts).len() implies (
        #[trigger] issue_positions(insts)[k]) < insts.len() by {
            if k < issue_positions(init).len() {
                assert(issue_positions(insts)[k] == issue_positions(init)[k]);
            }
        }
        assert forall|k: int| 0 <= k < trigger_positions(insts).len() implies (
        #[trigger] trigger_positions(insts)[k]) < insts.len() by {
            if k < trigger_positions(init).len() {
                assert(trigger_positions(insts)[k] == trigger_positions(init)[k]);
            }
        }
    }
}

proof fn inserted_positions(insts: Seq<MInstView>, p: int, x: MInstView)
    requires
        0 <= p <= insts.len() < usize::MAX,
        !x.is_issue(),
        !x.is_trigger(),
    ensures
        issue_positions(insts.insert(p, x)) == issue_positions(insts).map_values(
            |i: usize| shifted(p, i),
        ),
        trigger_positions(insts.insert(p, x)) == trigger_positions(insts).map_values(
            |i: usize| shifted(p, i),
        ),
    decreases insts.len(),
{
    let after = insts.insert(p, x);
    let issues = issue_positions(insts);
    let triggers = trigger_positions(insts);
    if p == insts.len() {
        assert(after.drop_last() =~= insts);
        positions_below(insts);
        assert(issue_positions(after) =~= issues.map_values(|i: usize| shifted(p, i)));
        assert(trigger_positions(after) =~= triggers.map_values(|i: usize| shifted(p, i)));
    } else {
        let init = insts.drop_last();
        assert(after.drop_last() =~= init.insert(p, x));
        inserted_positions(init, p, x);
        assert(after.last() == insts.last());
        assert(issue_positions(after) =~= issues.map_values(|i: usize| shifted(p, i)));
        assert(trigger_positions(after) =~= triggers.map_values(|i: usize| shifted(p, i)));
    }
}

/// Whether two lists of instructions jump alike: their jumps are well-formed
/// together, and they end alike.
pub open spec fn same_exit(a: Seq<MInstView>, b: Seq<MInstView>) -> bool {
    &&& jumps_wf(a) == jumps_wf(b)
    &&& jumps_wf(a) ==> exit_of(a) == exit_of(b)
}

proof fn first_plain_same(
    a: Seq<MInstView>,
    ia: Seq<usize>,
    b: Seq<MInstView>,
    ib: Seq<usize>,
    k: int,
)
    requires
        0 <= k,
        ia.len() == ib.len(),
        forall|j: int|
            0 <= j < ia.len() ==> plain_target(a[(#[trigger] ia[j]) as int]) == plain_target(
                b[ib[j] as int],
            ),
    ensures
        first_plain(a, ia, k) == first_plain(b, ib, k),
    decreases ia.len() - k,
{
    if k < ia.len() {
        assert(plain_target(a[ia[k] as int]) == plain_target(b[ib[k] as int]));
        first_plain_same(a, ia, b, ib, k + 1);
    }
}

/// Inserting an instruction that neither issues nor triggers a jump changes
/// nothing about how the block ends.
pub proof fn insertion_keeps_exit(insts: Seq<MInstView>, p: int, x: MInstView)
    requires
        0 <= p <= insts.len() < usize::MAX,
        !x.is_issue(),
        !x.is_trigger(),
    ensures
        same_exit(insts, insts.insert(p, x)),
{
    let after = insts.insert(p, x);
    inserted_positions(insts, p, x);
    positions_below(insts);
    let issues = issue_positions(insts);
    let triggers = trigger_positions(insts);
    let issues2 = issue_positions(after);
    let triggers2 = trigger_positions(after);
    assert forall|k: int| 0 <= k < issues.len() implies after[(issues2[k]) as int] == insts[(
    #[trigger] issues[k]) as int] by {
        assert(issues2[k] == shifted(p, issues[k]));
    }
    if triggers.len() > 0 {
        assert(triggers2[0] == shifted(p, triggers[0]));
        assert(after[triggers2[0] as int] == insts[triggers[0] as int]);
        if forall|k: int| 0 <= k < issues.len() ==> #[trigger] issues[k] <= triggers[0] {
            assert forall|k: int| 0 <= k < issues2.len() implies #[trigger] issues2[k]
                <= triggers2[0] by {
                assert(issues2[k] == shifted(p, issues[k]));
                assert(issues[k] <= triggers[0]);
            }
        } else {
            let k = choose|k: int| 0 <= k < issues.len() && !(#[trigger] issues[k] <= triggers[0]);
            assert(issues2[k] == shifted(p, issues[k]));
            assert(!(issues2[k] <= triggers2[0]));
        }
    }
    first_plain_same(insts, issues, after, issues2, 0);
}

proof fn updated_positions(insts: Seq<MInstView>, i: int, y: MInstView)
    requires
        0 <= i < insts.len(),
        y.is_issue() == insts[i].is_issue(),
        y.is_trigger() == insts[i].is_trigger(),
    ensures
        issue_positions(insts.update(i, y)) == issue_positions(insts),
        trigger_positions(insts.update(i, y)) == trigger_positions(insts),
    decreases insts.len(),
{
    let after = insts.update(i, y);
    if i < insts.len() - 1 {
        assert(after.drop_last() =~= insts.drop_last().update(i, y));
        updated_positions(insts.drop_last(), i, y);
    } else {
        assert(after.drop_last() =~= insts.drop_last());
    }
}

/// Replacing an issue by one with the same target that is conditional alike
/// changes nothing about how the block ends.
pub proof fn issue_update_keeps_exit(insts: Seq<MInstView>, i: int, y: MInstView)
    requires
        0 <= i < insts.len(),
        insts.len() <= usize::MAX,
        insts[i] is JumpIssue,
        y is JumpIssue,
        y->JumpIssue_dst == insts[i]->JumpIssue_dst,
        y->JumpIssue_kind.spec_is_conditional()
            == insts[i]->JumpIssue_kind.spec_is_conditional(),
    ensures
        same_exit(insts, insts.update(i, y)),
{
    let after = insts.update(i, y);
    updated_positions(insts, i, y);
    let issues = issue_positions(insts);
    assert forall|j: int| 0 <= j < issues.len() implies plain_target(
        insts[(#[trigger] issues[j]) as int],
    ) == plain_target(after[issues[j] as int]) by {
        if issues[j] != i {
            positions_below(insts);
            assert(after[issues[j] as int] == insts[issues[j] as int]);
        }
    }
    positions_below(insts);
    first_plain_same(insts, issues, after, issues, 0);
}

/// Replacing an instruction that has no part in a jump by another such changes
/// nothing about how the block ends.
pub proof fn plain_update_keeps_exit(insts: Seq<MInstView>, i: int, y: MInstView)
    requires
        0 <= i < insts.len(),
        insts.len() <= usize::MAX,
        !insts[i].is_issue() && !insts[i].is_trigger(),
        !y.is_issue() && !y.is_trigger(),
    ensures
        same_exit(insts, insts.update(i, y)),
{
    let after = insts.update(i, y);
    updated_positions(insts, i, y);
    positions_hold(insts);
    let issues = issue_positions(insts);
    assert forall|j: int| 0 <= j < issues.len() implies plain_target(
        insts[(#[trigger] issues[j]) as int],
    ) == plain_target(after[issues[j] as int]) by {
        positions_below(insts);
    }
    positions_below(insts);
    first_plain_same(insts, issues, after, issues, 0);
}

proof fn positions_hold(insts: Seq<MInstView>)
    requires
        insts.len() <= usize::MAX,
    ensures
        forall|k: int|
            0 <= k < issue_positions(insts).len() ==> insts[(
            #[trigger] issue_positions(insts)[k]) as int].is_issue(),
        forall|k: int|
            0 <= k < trigger_positions(insts).len() ==> insts[(
            #[trigger] trigger_positions(insts)[k]) as int].is_trigger(),
    decreases insts.len(),
{
    if insts.len() > 0 {
        let init = insts.drop_last();
        positions_hold(init);
        positions_below(init);
        assert forall|k: int| 0 <= k < issue_positions(insts).len() implies insts[(
        #[trigger] issue_positions(insts)[k]) as int].is_issue() by {
            if k < issue_positions(init).len() {
                assert(issue_positions(insts)[k] == issue_positions(init)[k]);
            }
        }
        assert forall|k: int| 0 <= k < trigger_positions(insts).len() implies insts[(
        #[trigger] trigger_positions(insts)[k]) as int].is_trigger() by {
            if k < trigger_positions(init).len() {
                assert(trigger_positions(insts)[k] == trigger_positions(init)[k]);
            }
        }
    }
}

/// Ending alike is transitive.
pub proof fn same_exit_trans(a: Seq<MInstView>, b: Seq<MInstView>, c: Seq<MInstView>)
    requires
        same_exit(a, b),
        same_exit(b, c),
    ensures
        same_exit(a, c),
{
}

/// Whether two shapes differ in their instructions alone, and their blocks end
/// alike.
pub open spec fn same_exits(g: Shape, h: Shape) -> bool {
    &&& g.succs == h.succs
    &&& g.root == h.root
    &&& g.bbs.len() == h.bbs.len()
    &&& forall|v: int|
        0 <= v < g.bbs.len() ==> {
            &&& (#[trigger] g.bbs[v]).vcode_bb == h.bbs[v].vcode_bb
            &&& same_exit(g.bbs[v].inst, h.bbs[v].inst)
        }
}

proof fn vertex_same(a: Seq<BBView>, b: Seq<BBView>, block: Block)
    requires
        a.len() == b.len(),
        forall|v: int| 0 <= v < a.len() ==> (#[trigger] a[v]).vcode_bb == b[v].vcode_bb,
    ensures
        VCodeCFG::spec_vertex_of(a, block) == VCodeCFG::spec_vertex_of(b, block),
{
    let p = |i: int| a[i].vcode_bb == block;
    let q = |i: int| b[i].vcode_bb == block;
    let n = a.len() as int;
    first_same(p, q, 0, n);
    assert(first_from(|i: int| a[i].vcode_bb == block, 0, n) == first_from(p, 0, n));
    assert(first_from(|i: int| b[i].vcode_bb == block, 0, n) == first_from(q, 0, n));
}

proof fn first_same(p: spec_fn(int) -> bool, q: spec_fn(int) -> bool, i: int, n: int)
    requires
        0 <= i,
        forall|j: int| 0 <= j < n ==> #[trigger] p(j) == q(j),
    ensures
        first_from(p, i, n) == first_from(q, i, n),
    decreases n - i,
{
    if i < n {
        assert(p(i) == q(i));
        first_same(p, q, i + 1, n);
    }
}

proof fn exits_same(g: Shape, h: Shape, v: int)
    requires
        same_exits(g, h),
        0 <= v < g.bbs.len(),
    ensures
        g.exit_wf(v) == h.exit_wf(v),
        g.exit_wf(v) ==> g.fall_through(v) == h.fall_through(v),
        g.exit_wf(v) ==> exit_of(g.bbs[v].inst) == exit_of(h.bbs[v].inst),
{
    assert(same_exit(g.bbs[v].inst, h.bbs[v].inst));
    if jumps_wf(g.bbs[v].inst) {
        if let Some(BlockExit::Branch(target)) = exit_of(g.bbs[v].inst) {
            vertex_same(g.bbs, h.bbs, target);
        }
    }
}

proof fn reserved_same(g: Shape, h: Shape, w: int)
    requires
        same_exits(g, h),
        forall|v: int| 0 <= v < g.bbs.len() ==> #[trigger] g.exit_wf(v),
    ensures
        g.reserved(w) == h.reserved(w),
{
    if g.reserved(w) {
        let v = choose|v: int| 0 <= v < g.bbs.len() && g.fall_through(v) == Some(w as usize);
        assert(g.exit_wf(v));
        exits_same(g, h, v);
        assert(h.fall_through(v) == Some(w as usize));
    }
    if h.reserved(w) {
        let v = choose|v: int| 0 <= v < h.bbs.len() && h.fall_through(v) == Some(w as usize);
        assert(g.exit_wf(v));
        exits_same(g, h, v);
        assert(g.fall_through(v) == Some(w as usize));
    }
}

proof fn free_same(g: Shape, h: Shape, placed: Seq<usize>, w: int)
    requires
        same_exits(g, h),
        forall|v: int| 0 <= v < g.bbs.len() ==> #[trigger] g.exit_wf(v),
    ensures
        g.smallest_free(placed, w) == h.smallest_free(placed, w),
    decreases g.bbs.len() - w,
{
    if w < g.bbs.len() {
        reserved_same(g, h, w);
        free_same(g, h, placed, w + 1);
    }
}

proof fn layout_from_same(g: Shape, h: Shape, placed: Seq<usize>)
    requires
        same_exits(g, h),
        g.wf(),
        g.exits_wf(),
        is_trace(g, placed),
        placed.len() <= g.bbs.len(),
    ensures
        g.layout_from(placed) == h.layout_from(placed),
    decreases g.bbs.len() - placed.len(),
{
    let last = placed.last() as int;
    assert(placed.last() == placed[placed.len() - 1]);
    assert(g.exit_wf(last));
    exits_same(g, h, last);
    if placed.len() < g.bbs.len() {
        free_same(g, h, placed, 0);
        if let Some(BlockExit::Jump(dst)) = exit_of(g.bbs[last].inst) {
            vertex_same(g.bbs, h.bbs, dst);
            if let Some(w) = VCodeCFG::spec_vertex_of(g.bbs, dst) {
                reserved_same(g, h, w as int);
            }
        }
        assert(g.next_placed(placed) == h.next_placed(placed));
        next_is_new(g, placed);
        if let Some(w) = g.next_placed(placed) {
            let p = placed.push(w);
            assert(is_trace(g, p)) by {
                assert forall|i: int| 0 <= i < p.len() - 1 implies (g.fall_through(
                    #[trigger] p[i] as int,
                ) matches Some(f) ==> p[i + 1] == f) by {
                    if i < placed.len() - 1 {
                        assert(p[i] == placed[i]);
                        assert(p[i + 1] == placed[i + 1]);
                    }
                }
            }
            layout_from_same(g, h, p);
        }
    }
}

proof fn exits_wf_same(g: Shape, h: Shape)
    requires
        same_exits(g, h),
        g.exits_wf(),
    ensures
        h.exits_wf(),
{
    assert forall|v: int| 0 <= v < h.bbs.len() implies #[trigger] h.exit_wf(v) by {
        assert(g.exit_wf(v));
        exits_same(g, h, v);
    }
    assert forall|v: int, w: int|
        0 <= v < w < h.bbs.len() && (#[trigger] h.fall_through(v)) is Some implies (
    #[trigger] h.fall_through(w)) != h.fall_through(v) by {
        assert(g.exit_wf(v) && g.exit_wf(w));
        exits_same(g, h, v);
        exits_same(g, h, w);
        assert(g.fall_through(v) is Some);
        assert(g.fall_through(w) != g.fall_through(v));
    }
    reserved_same(g, h, g.root as int);
}

/// The layout depends on the blocks' names, edges and exits alone: rewriting that
/// keeps how the blocks end keeps the layout.
pub proof fn layout_depends_on_exits_alone(g: Shape, h: Shape)
    requires
        g.wf(),
        same_exits(g, h),
    ensures
        g.layout() == h.layout(),
{
    assert(same_exits(h, g)) by {
        assert forall|v: int| 0 <= v < h.bbs.len() implies {
            &&& (#[trigger] h.bbs[v]).vcode_bb == g.bbs[v].vcode_bb
            &&& same_exit(h.bbs[v].inst, g.bbs[v].inst)
        } by {
            assert(g.bbs[v].vcode_bb == h.bbs[v].vcode_bb);
        }
    }
    if g.exits_wf() {
        exits_wf_same(g, h);
        let start = seq![g.root];
        assert(is_trace(g, start));
        layout_from_same(g, h, start);
    } else if h.exits_wf() {
        exits_wf_same(h, g);
    }
}

} // verus!
