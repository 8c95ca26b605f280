use crate::ty::DefId;
use vstd::prelude::*;

verus! {

/// Information that type operations need from the rest of the system.
pub trait TyQueries {
    /// Whether the definition `name` is a value type.
    fn is_value_type(&self, name: DefId) -> bool;
}

} // verus!
