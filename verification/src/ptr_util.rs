//! Cheap duplication of node handles.
//!
//! Handles are plain identities into the graph, so duplicating one is the
//! analogue of cloning a shared pointer: the copy refers to the same node.

use vstd::prelude::*;

use crate::observable::ObservablePtr;
use crate::observer::DerivationPtr;

verus! {

/// Uniform handle duplication, for taking handles into a compute scope.
pub trait PtrUtil {
    /// A copy referring to the same node.
    fn ptr_clone(&self) -> (r: Self) where Self: Sized
        ensures
            r == *self,
    ;
}

impl PtrUtil for ObservablePtr {
    fn ptr_clone(&self) -> (r: Self)
        ensures
            r == *self,
    {
        ObservablePtr { id: self.id }
    }
}

impl PtrUtil for DerivationPtr {
    fn ptr_clone(&self) -> (r: Self)
        ensures
            r == *self,
    {
        DerivationPtr { id: self.id }
    }
}

} // verus!
