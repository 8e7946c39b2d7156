//! The capability-gated operation guard.
//!
//! The backend's capability flags may depend on its storage medium and can
//! differ between calls, so callers query the flags fresh on every gated
//! call and pass the answer here, rather than caching a flag in adapter
//! state.

use vstd::prelude::*;

verus! {

use crate::error::StorageError;

/// Gate for delete operations: passes only when the backend reports that it
/// supports deletes.
pub fn require_deletes(supported: bool) -> (r: Result<(), StorageError>)
    ensures
        supported ==> r is Ok,
        !supported ==> (r matches Err(e) && e is Unsupported),
{
    if supported {
        Ok(())
    } else {
        Err(StorageError::Unsupported("the store does not support deletion".to_owned()))
    }
}

/// Gate for size queries: passes only when the backend can report an
/// object's byte length directly.
pub fn require_sizes(supported: bool) -> (r: Result<(), StorageError>)
    ensures
        supported ==> r is Ok,
        !supported ==> (r matches Err(e) && e is Unsupported),
{
    if supported {
        Ok(())
    } else {
        Err(StorageError::Unsupported("the store does not support size queries".to_owned()))
    }
}

/// Gate for partial writes: fails whatever the backend reports. The flag
/// describes the backend's theoretical support, but the adapter never
/// implements the encoding needed to use it safely, so it must refuse
/// either way. This asymmetry is deliberate; do not turn it into a success.
pub fn refuse_partial_writes(supported: bool) -> (r: Result<(), StorageError>)
    ensures
        r matches Err(e) && e is Unsupported,
{
    if supported {
        Err(StorageError::Unsupported("the store does not support partial writes".to_owned()))
    } else {
        Err(StorageError::Unsupported("the store does not support partial writes".to_owned()))
    }
}

} // verus!
