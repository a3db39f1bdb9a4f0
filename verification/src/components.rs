//! Component kinds: how a registered kind is found among the kinds of a schema.

use vstd::prelude::*;
use std::any::TypeId;

verus! {

/// `std::any::TypeId`, the identity of a Rust type, under which a component
/// is registered. Declared as an opaque value: nothing is claimed of what is
/// inside one.
#[verifier::external_type_specification]
#[verifier::external_body]
pub struct ExTypeId(TypeId);

/// Compares two type identifiers with `TypeId`'s own `==` (`PartialEq::eq`).
///
/// Not proved: the contract takes the answer to be equality of the two
/// identifiers as values, which is what the `Eq` implementation of `TypeId`
/// stands for.
#[verifier::external_body]
pub(crate) fn same_kind(a: &TypeId, b: &TypeId) -> (same: bool)
    ensures
        same == (*a == *b),
{
    a == b
}

/// The position of `kind` among `kinds`, if it is there.
pub fn find_component(kinds: &Vec<TypeId>, kind: &TypeId) -> (found: Option<usize>)
    ensures
        match found {
            Some(i) => i < kinds.len() && kinds[i as int] == *kind && forall|j: int|
                0 <= j < i ==> kinds[j] != *kind,
            None => !kinds@.contains(*kind),
        },
{
    let mut i: usize = 0;
    while i < kinds.len()
        invariant
            i <= kinds.len(),
            forall|j: int| 0 <= j < i ==> kinds[j] != *kind,
        decreases kinds.len() - i,
    {
        if same_kind(&kinds[i], kind) {
            return Some(i);
        }
        i += 1;
    }
    None
}

/// In a sequence without repetition an element sits at one index only.
pub proof fn lemma_index_of_unique(kinds: Seq<TypeId>, i: int)
    requires
        kinds.no_duplicates(),
        0 <= i < kinds.len(),
    ensures
        kinds.contains(kinds[i]),
        kinds.index_of(kinds[i]) == i,
{
    let j = kinds.index_of(kinds[i]);
    assert(0 <= j < kinds.len() && kinds[j] == kinds[i]);
}

} // verus!
