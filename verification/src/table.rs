//! A map between indices, held by `hashbrown`'s hash map.
use vstd::prelude::*;

verus! {

/// A map from indices to indices over `hashbrown::HashMap`.
#[verifier::external_body]
pub struct IndexTable {
    map: hashbrown::HashMap<usize, usize>,
}

/// What a table maps each of its keys to.
pub uninterp spec fn table_contents(t: IndexTable) -> Map<usize, usize>;

/// The contents of an empty table.
pub open spec fn no_entries() -> Map<usize, usize> {
    Map::empty()
}

/// `HashMap::new` gives an empty map.
#[verifier::external_body]
pub(crate) fn new_table() -> (r: IndexTable)
    ensures
        table_contents(r) == no_entries(),
{
    IndexTable { map: hashbrown::HashMap::new() }
}

/// `HashMap::insert` maps the key to the value, in place of any value that it
/// had, which is handed back.
#[verifier::external_body]
pub(crate) fn insert(t: &mut IndexTable, key: usize, value: usize) -> (r: Option<usize>)
    ensures
        table_contents(*final(t)) == table_contents(*old(t)).insert(key, value),
        r == (if table_contents(*old(t)).contains_key(key) {
            Some(table_contents(*old(t))[key])
        } else {
            None
        }),
{
    t.map.insert(key, value)
}

/// `HashMap::get` finds the value of a key.
#[verifier::external_body]
pub(crate) fn lookup(t: &IndexTable, key: usize) -> (r: Option<usize>)
    ensures
        r == (if table_contents(*t).contains_key(key) {
            Some(table_contents(*t)[key])
        } else {
            None
        }),
{
    t.map.get(&key).copied()
}

} // verus!
