//! Patched code.
use scry_backend::inst::MInst;
use scry_backend::patches::{verify_patches, Patch, PatchIterator};
use scry_backend::reg::Reg;

fn ret(trig: u16) -> MInst {
    MInst::Ret { trig }
}

fn walk(patches: Vec<Vec<Patch>>) -> Vec<(String, usize, Option<usize>)> {
    let insts = vec![ret(0), ret(1), ret(2)];
    let mut it = PatchIterator::new(&insts, &patches, 0, 3);
    let mut out = vec![];
    while let Some(item) = it.next() {
        out.push((item.inst.print_with_state(), item.origin, item.patch));
    }
    out
}

fn item(trig: u16, origin: usize, patch: Option<usize>) -> (String, usize, Option<usize>) {
    (ret(trig).print_with_state(), origin, patch)
}

#[test]
fn unpatched_code_is_itself() {
    assert_eq!(walk(vec![]), vec![item(0, 0, None), item(1, 1, None), item(2, 2, None)]);
}

#[test]
fn patches_surround_replace_and_delete() {
    let patches = vec![
        vec![Patch::After(ret(10)), Patch::Before(ret(11)), Patch::Before(ret(12))],
        vec![Patch::Delete, Patch::After(ret(13))],
        vec![Patch::Before(ret(14)), Patch::Replace(ret(15))],
    ];
    assert!(verify_patches(&patches));
    assert_eq!(
        walk(patches),
        vec![
            item(11, 0, Some(0)),
            item(12, 0, Some(1)),
            item(0, 0, None),
            item(10, 0, Some(0)),
            item(13, 1, Some(0)),
            item(14, 2, Some(0)),
            item(15, 2, Some(1)),
        ]
    );
}

#[test]
fn an_instruction_is_replaced_or_deleted_at_most_once() {
    assert!(!verify_patches(&vec![vec![Patch::Delete, Patch::Replace(ret(0))]]));
    assert!(!verify_patches(&vec![vec![], vec![Patch::Delete, Patch::Delete]]));
    assert!(verify_patches(&vec![vec![Patch::Delete], vec![Patch::Delete]]));
}

#[test]
fn patches_tell_what_they_are() {
    let mut p = Patch::Before(ret(4));
    assert!(p.is_before() && !p.is_after() && !p.is_replace() && !p.is_delete());
    assert_eq!(p.extract().print_with_state(), "Ret(trig: 4, )");
    *p.extract_mut() = MInst::Discard { rss: vec![Reg::Virtual(1)] };
    assert_eq!(p.extract().print_with_state(), "Discard(rss:, v(1), )");
    assert!(p.is_before());
    assert!(Patch::Delete.is_delete());
    assert!(Patch::After(ret(0)).is_after());
    assert!(Patch::Replace(ret(0)).is_replace());
}
