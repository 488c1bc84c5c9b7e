//! Patches to the instructions of a block.
use crate::inst::{views, MInst, MInstView};
use vstd::prelude::*;

verus! {

/// A change at an instruction.
pub enum Patch {
    /// The instruction is replaced.
    Replace(MInst),
    /// An instruction comes before it.
    Before(MInst),
    /// An instruction comes after it.
    After(MInst),
    /// The instruction is deleted.
    Delete,
}

impl Patch {
    /// The instruction that the patch brings.
    pub open spec fn inst(self) -> Option<MInstView> {
        match self {
            Patch::Replace(m) => Some(m@),
            Patch::Before(m) => Some(m@),
            Patch::After(m) => Some(m@),
            Patch::Delete => None,
        }
    }

    /// Whether the patch deletes the instruction.
    pub fn is_delete(&self) -> (r: bool)
        ensures
            r == (self is Delete),
    {
        match self {
            Patch::Delete => true,
            _ => false,
        }
    }

    /// Whether the patch replaces the instruction.
    pub fn is_replace(&self) -> (r: bool)
        ensures
            r == (self is Replace),
    {
        match self {
            Patch::Replace(_) => true,
            _ => false,
        }
    }

    /// Whether the patch brings an instruction before.
    pub fn is_before(&self) -> (r: bool)
        ensures
            r == (self is Before),
    {
        match self {
            Patch::Before(_) => true,
            _ => false,
        }
    }

    /// Whether the patch brings an instruction after.
    pub fn is_after(&self) -> (r: bool)
        ensures
            r == (self is After),
    {
        match self {
            Patch::After(_) => true,
            _ => false,
        }
    }

    /// The instruction that the patch brings.
    pub fn extract(&self) -> (r: &MInst)
        requires
            !(self is Delete),
        ensures
            Some(r@) == self.inst(),
    {
        match self {
            Patch::Replace(m) => m,
            Patch::Before(m) => m,
            Patch::After(m) => m,
            Patch::Delete => vstd::pervasive::unreached(),
        }
    }

    /// The instruction that the patch brings, to be changed.
    pub fn extract_mut(&mut self) -> (r: &mut MInst)
        requires
            !(*old(self) is Delete),
        ensures
            Some((*r)@) == old(self).inst(),
            final(self).inst() == Some((*final(r))@),
            *old(self) is Replace ==> *final(self) is Replace,
            *old(self) is Before ==> *final(self) is Before,
            *old(self) is After ==> *final(self) is After,
    {
        match self {
            Patch::Replace(m) => m,
            Patch::Before(m) => m,
            Patch::After(m) => m,
            Patch::Delete => vstd::pervasive::unreached(),
        }
    }
}

/// Patches are consistent where they replace or delete each instruction at most
/// once.
pub open spec fn patches_wf(patches: Seq<Vec<Patch>>) -> bool {
    forall|i: int| 0 <= i < patches.len() ==> exclusive_count((#[trigger] patches[i])@) <= 1
}

/// How many of the patches replace or delete.
pub open spec fn exclusive_count(ps: Seq<Patch>) -> nat
    decreases ps.len(),
{
    if ps.len() == 0 {
        0
    } else {
        exclusive_count(ps.drop_last()) + (if ps.last() is Delete || ps.last() is Replace {
            1nat
        } else {
            0nat
        })
    }
}

/// Whether the patches of each instruction replace or delete it at most once.
pub fn verify_patches(patches: &Vec<Vec<Patch>>) -> (r: bool)
    ensures
        r == patches_wf(patches@),
{
    for i in 0..patches.len()
        invariant
            forall|j: int| 0 <= j < i ==> exclusive_count((#[trigger] patches@[j])@) <= 1,
    {
        let ps = &patches[i];
        let mut count: usize = 0;
        for k in 0..ps.len()
            invariant
                count == exclusive_count(ps@.take(k as int)),
                count <= k,
        {
            assert(ps@.take(k as int + 1).drop_last() =~= ps@.take(k as int));
            if ps[k].is_delete() || ps[k].is_replace() {
                count = count + 1;
            }
        }
        assert(ps@.take(ps@.len() as int) =~= ps@);
        if count > 1 {
            assert(exclusive_count(patches@[i as int]@) > 1);
            return false;
        }
    }
    true
}

/// An instruction of patched code: the instruction, the position of the
/// instruction that it comes from, and the number of the patch that brings it.
pub type ItemView = (MInstView, usize, Option<usize>);

/// The instructions that patches from the `k`th on bring before, `n` having come
/// already.
pub open spec fn befores(ps: Seq<Patch>, i: usize, k: int, n: nat) -> Seq<ItemView>
    decreases ps.len() - k,
{
    if k >= ps.len() {
        Seq::empty()
    } else {
        match ps[k] {
            Patch::Before(m) => seq![(m@, i, Some(n as usize))] + befores(ps, i, k + 1, n + 1),
            _ => befores(ps, i, k + 1, n),
        }
    }
}

/// The instructions that patches from the `k`th on bring after, `n` having come
/// already.
pub open spec fn afters(ps: Seq<Patch>, i: usize, k: int, n: nat) -> Seq<ItemView>
    decreases ps.len() - k,
{
    if k >= ps.len() {
        Seq::empty()
    } else {
        match ps[k] {
            Patch::After(m) => seq![(m@, i, Some(n as usize))] + afters(ps, i, k + 1, n + 1),
            _ => afters(ps, i, k + 1, n),
        }
    }
}

/// The first replacement among the patches from the `k`th on.
pub open spec fn first_replace(ps: Seq<Patch>, k: int) -> int
    decreases ps.len() - k,
{
    if k >= ps.len() || ps[k] is Replace {
        k
    } else {
        first_replace(ps, k + 1)
    }
}

/// Whether a patch from the `k`th on deletes.
pub open spec fn any_delete(ps: Seq<Patch>, k: int) -> bool
    decreases ps.len() - k,
{
    k < ps.len() && (ps[k] is Delete || any_delete(ps, k + 1))
}

/// What stands in the place of an instruction: its replacement, nothing where it
/// is deleted, or itself.
pub open spec fn in_place(inst: MInstView, ps: Seq<Patch>, i: usize) -> Seq<ItemView> {
    let r = first_replace(ps, 0);
    if r < ps.len() {
        seq![(ps[r]->Replace_0@, i, Some(r as usize))]
    } else if any_delete(ps, 0) {
        Seq::empty()
    } else {
        seq![(inst, i, None)]
    }
}

/// The patches of an instruction.
pub open spec fn patches_of(patches: Seq<Vec<Patch>>, i: int) -> Seq<Patch> {
    if i < patches.len() {
        patches[i]@
    } else {
        Seq::empty()
    }
}

/// The patched code from position `i` below `end`.
pub open spec fn patched_from(
    insts: Seq<MInstView>,
    patches: Seq<Vec<Patch>>,
    i: int,
    end: int,
) -> Seq<ItemView>
    decreases end - i,
{
    if i >= end {
        Seq::empty()
    } else {
        let ps = patches_of(patches, i);
        befores(ps, i as usize, 0, 0) + in_place(insts[i], ps, i as usize) + afters(
            ps,
            i as usize,
            0,
            0,
        ) + patched_from(insts, patches, i + 1, end)
    }
}

/// An instruction of patched code.
pub struct Item {
    pub inst: MInst,
    pub origin: usize,
    pub patch: Option<usize>,
}

/// Items as mathematical values.
pub open spec fn item_views(items: Seq<Item>) -> Seq<ItemView> {
    Seq::new(items.len(), |i: int| (items[i].inst@, items[i].origin, items[i].patch))
}

broadcast proof fn item_views_push(s: Seq<Item>, x: Item)
    ensures
        #[trigger] item_views(s.push(x)) == item_views(s).push((x.inst@, x.origin, x.patch)),
{
    assert(item_views(s.push(x)) =~= item_views(s).push((x.inst@, x.origin, x.patch)));
}

/// Walks the instructions of a block with patches applied.
pub struct PatchIterator {
    pub items: Vec<Item>,
    pub next: usize,
}

fn push_befores(items: &mut Vec<Item>, ps: &Vec<Patch>, i: usize)
    ensures
        item_views(final(items)@) == item_views(old(items)@) + befores(ps@, i, 0, 0),
{
    let ghost start = item_views(items@);
    let mut n: usize = 0;
    for k in 0..ps.len()
        invariant
            n <= k,
            start == item_views(old(items)@),
            start + befores(ps@, i, 0, 0) == item_views(items@) + befores(
                ps@,
                i,
                k as int,
                n as nat,
            ),
    {
        broadcast use item_views_push;

        match &ps[k] {
            Patch::Before(m) => {
                let ghost before = item_views(items@);
                items.push(Item { inst: m.copy(), origin: i, patch: Some(n) });
                let ghost rest = befores(ps@, i, k as int + 1, (n + 1) as nat);
                assert(before + (seq![(m@, i, Some(n))] + rest) =~= item_views(items@) + rest);
                n = n + 1;
            },
            _ => {},
        }
    }
    assert(item_views(items@) + Seq::<ItemView>::empty() =~= item_views(items@));
}

fn push_afters(items: &mut Vec<Item>, ps: &Vec<Patch>, i: usize)
    ensures
        item_views(final(items)@) == item_views(old(items)@) + afters(ps@, i, 0, 0),
{
    let ghost start = item_views(items@);
    let mut n: usize = 0;
    for k in 0..ps.len()
        invariant
            n <= k,
            start == item_views(old(items)@),
            start + afters(ps@, i, 0, 0) == item_views(items@) + afters(
                ps@,
                i,
                k as int,
                n as nat,
            ),
    {
        broadcast use item_views_push;

        match &ps[k] {
            Patch::After(m) => {
                let ghost before = item_views(items@);
                items.push(Item { inst: m.copy(), origin: i, patch: Some(n) });
                let ghost rest = afters(ps@, i, k as int + 1, (n + 1) as nat);
                assert(before + (seq![(m@, i, Some(n))] + rest) =~= item_views(items@) + rest);
                n = n + 1;
            },
            _ => {},
        }
    }
    assert(item_views(items@) + Seq::<ItemView>::empty() =~= item_views(items@));
}

fn push_in_place(items: &mut Vec<Item>, inst: &MInst, ps: &Vec<Patch>, i: usize)
    ensures
        item_views(final(items)@) == item_views(old(items)@) + in_place(inst@, ps@, i),
{
    broadcast use item_views_push;

    let ghost start = item_views(items@);
    let mut r: usize = 0;
    while r < ps.len() && !ps[r].is_replace()
        invariant
            r <= ps@.len(),
            first_replace(ps@, 0) == first_replace(ps@, r as int),
        decreases ps@.len() - r,
    {
        r = r + 1;
    }
    if r < ps.len() {
        items.push(Item { inst: ps[r].extract().copy(), origin: i, patch: Some(r) });
        assert(item_views(items@) =~= start + in_place(inst@, ps@, i));
        return;
    }
    let mut d: usize = 0;
    while d < ps.len() && !ps[d].is_delete()
        invariant
            d <= ps@.len(),
            any_delete(ps@, 0) == any_delete(ps@, d as int),
        decreases ps@.len() - d,
    {
        d = d + 1;
    }
    if d >= ps.len() {
        items.push(Item { inst: inst.copy(), origin: i, patch: None });
    }
    assert(item_views(items@) =~= start + in_place(inst@, ps@, i));
}

impl PatchIterator {
    /// The instructions still to come.
    pub open spec fn remaining(&self) -> Seq<ItemView> {
        item_views(self.items@).skip(self.next as int)
    }

    /// The position is one of the walk.
    pub open spec fn wf(&self) -> bool {
        self.next <= self.items@.len()
    }

    /// Starts to walk the instructions of the block that holds those from `first`
    /// below `end`. `patches` lists the patches of each instruction.
    pub fn new(insts: &Vec<MInst>, patches: &Vec<Vec<Patch>>, first: usize, end: usize) -> (r: PatchIterator)
        requires
            patches_wf(patches@),
            first <= end <= insts@.len(),
        ensures
            r.wf(),
            r.remaining() == patched_from(views(insts@), patches@, first as int, end as int),
    {
        let ghost all = views(insts@);
        let none: Vec<Patch> = Vec::new();
        let mut items: Vec<Item> = Vec::new();
        for i in first..end
            invariant
                first <= end <= insts@.len(),
                all == views(insts@),
                none@.len() == 0,
                patched_from(all, patches@, first as int, end as int) == item_views(items@)
                    + patched_from(all, patches@, i as int, end as int),
        {
            assert(all[i as int] == insts@[i as int]@);
            let ghost before = item_views(items@);
            let ps: &Vec<Patch> = if i < patches.len() {
                &patches[i]
            } else {
                &none
            };
            assert(ps@ =~= patches_of(patches@, i as int));
            push_befores(&mut items, ps, i);
            push_in_place(&mut items, &insts[i], ps, i);
            push_afters(&mut items, ps, i);
            proof {
                let rest = patched_from(all, patches@, i as int + 1, end as int);
                let a = befores(ps@, i, 0, 0);
                let b = in_place(all[i as int], ps@, i);
                let c = afters(ps@, i, 0, 0);
                assert(before + (a + b + c + rest) =~= item_views(items@) + rest);
            }
        }
        let r = PatchIterator { items, next: 0 };
        assert(r.remaining() =~= item_views(r.items@));
        assert(item_views(r.items@) + Seq::<ItemView>::empty() =~= item_views(r.items@));
        r
    }

    /// The next instruction of the patched code.
    pub fn next(&mut self) -> (r: Option<Item>)
        requires
            old(self).wf(),
        ensures
            final(self).wf(),
            match r {
                Some(item) => {
                    &&& old(self).remaining().len() > 0
                    &&& (item.inst@, item.origin, item.patch) == old(self).remaining()[0]
                    &&& final(self).remaining() == old(self).remaining().skip(1)
                },
                None => old(self).remaining().len() == 0 && final(self).remaining() == old(
                    self,
                ).remaining(),
            },
    {
        if self.next >= self.items.len() {
            return None;
        }
        let ghost before = self.remaining();
        let at: usize = self.next;
        let item = Item {
            inst: self.items[at].inst.copy(),
            origin: self.items[at].origin,
            patch: self.items[at].patch,
        };
        self.next = at + 1;
        assert(self.remaining() =~= before.skip(1));
        Some(item)
    }
}

} // verus!
