//! Handles that several owners share.

use std::sync::Arc;
use vstd::prelude::*;

verus! {

/// Another handle on what `handle` points to (`Arc::clone`).
#[verifier::external_body]
pub(crate) fn share<T>(handle: &Arc<T>) -> (res: Arc<T>)
    ensures
        res == *handle,
{
    Arc::clone(handle)
}

} // verus!
