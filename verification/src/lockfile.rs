//! The advisory single-writer lock.
//!
//! A marker file at the store root signals a live writer. The verified layer
//! decides over the marker's presence; the unverified shell creates and
//! removes the real file (atomically, with create-new semantics) in step.

use vstd::prelude::*;

use crate::errors::StoreError;

verus! {

/// The advisory marker on one store root: whether the marker file is
/// present. The unverified shell keeps the real file in step with this.
pub struct LockMarker {
    pub present: bool,
}

impl LockMarker {
    /// A root with no marker on it.
    pub fn new() -> (r: Self)
        ensures
            !r.present,
    {
        LockMarker { present: false }
    }
}

/// Holding this value is holding the advisory single-writer lock on one
/// store root. It is surrendered only through `release`, which clears the
/// marker.
pub struct LockFile {
    _priv: (),
}

impl LockFile {
    /// Takes the advisory lock: the marker is created only if absent. An
    /// existing marker is a fail-fast already-locked condition, never
    /// retried here.
    pub fn try_create(marker: &mut LockMarker) -> (r: Result<LockFile, StoreError>)
        ensures
            old(marker).present ==> r == Err::<LockFile, StoreError>(StoreError::AlreadyLocked)
                && final(marker).present,
            !old(marker).present ==> r is Ok && final(marker).present,
    {
        if marker.present {
            Err(StoreError::AlreadyLocked)
        } else {
            marker.present = true;
            Ok(LockFile { _priv: () })
        }
    }

    /// Releases the lock: afterwards the marker is gone, whatever held it.
    pub fn release(self, marker: &mut LockMarker)
        ensures
            !final(marker).present,
    {
        marker.present = false;
    }
}

} // verus!
