//! What is asked of item ids.
use vstd::prelude::*;
use vstd::std_specs::hash::obeys_key_model;

verus! {

/// Ids of this type can be told apart and copied: equal ids hash alike and are the same
/// id, and a clone is the id itself.
pub open spec fn identifies<Id: Clone>() -> bool {
    &&& obeys_key_model::<Id>()
    &&& forall|a: Id, b: Id| #[trigger] call_ensures(Id::clone, (&a,), b) ==> a == b
}

} // verus!
