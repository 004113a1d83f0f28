//! Handles that several owners hold.

use std::sync::Arc;

use vstd::prelude::*;

verus! {

/// Another handle to the same value. Calls `Arc::clone`, and claims of it what its documentation
/// says: the new handle points to what the given one points to.
#[verifier::external_body]
pub(crate) fn share<A>(handle: &Arc<A>) -> (copy: Arc<A>)
    ensures
        copy == *handle,
{
    Arc::clone(handle)
}

} // verus!
