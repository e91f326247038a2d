//! Document ids kept in `rustc_hash`'s `FxHashSet` and `FxHashMap`: the inverted lists
//! are grouped in sets before they are flattened, and the search finds a document's
//! entry through a map.

use rustc_hash::{FxBuildHasher, FxHashMap, FxHashSet};
use vstd::prelude::*;

verus! {

/// `rustc_hash::FxBuildHasher`, the (unseeded, deterministic) hasher builder of `FxHashSet`.
#[verifier::external_type_specification]
#[verifier::external_body]
pub struct ExFxBuildHasher(FxBuildHasher);

/// `HashSet::insert` on an `FxHashSet<u32>`. Claims that afterwards the set is the set
/// before with `doc` added (true of `HashSet` for `u32` keys and any hasher builder
/// whose hashers are deterministic, as `FxBuildHasher`'s are).
#[verifier::external_body]
pub fn doc_set_insert(set: &mut FxHashSet<u32>, doc: u32)
    ensures
        final(set)@ == old(set)@.insert(doc),
{
    set.insert(doc);
}

/// The elements of an `FxHashSet<u32>` in the order `HashSet::iter` yields them.
/// Claims that each element of the set comes out exactly once; the order, which
/// follows the hash table's layout, is left unsaid.
#[verifier::external_body]
pub fn doc_set_elements(set: &FxHashSet<u32>) -> (docs: Vec<u32>)
    ensures
        docs@.no_duplicates(),
        docs@.to_set() == set@,
{
    set.iter().copied().collect()
}

/// `HashMap::get` on an `FxHashMap<u32, usize>`, the value copied out. Claims that the
/// result is the value stored under `doc`, if any.
#[verifier::external_body]
pub fn position_get(map: &FxHashMap<u32, usize>, doc: u32) -> (pos: Option<usize>)
    ensures
        map@.contains_key(doc) ==> pos == Some(map@[doc]),
        !map@.contains_key(doc) ==> pos == None::<usize>,
{
    map.get(&doc).copied()
}

/// `HashMap::insert` on an `FxHashMap<u32, usize>`. Claims that afterwards `doc` maps
/// to `pos` and every other key to what it mapped to before.
#[verifier::external_body]
pub fn position_insert(map: &mut FxHashMap<u32, usize>, doc: u32, pos: usize)
    ensures
        final(map)@ == old(map)@.insert(doc, pos),
{
    map.insert(doc, pos);
}

} // verus!
