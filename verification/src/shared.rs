//! Shared ownership of immutable values.

use std::sync::Arc;
use vstd::prelude::*;

verus! {

/// Another handle to the value behind `value`.
///
/// Trusted: `Arc::clone` returns a second pointer to the same allocation, so both handles
/// hold the same value.
#[verifier::external_body]
pub(crate) fn share<T>(value: &Arc<T>) -> (result: Arc<T>)
    ensures
        result == *value,
{
    Arc::clone(value)
}

} // verus!
