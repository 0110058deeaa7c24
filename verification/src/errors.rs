//! The failures the store distinguishes.

use vstd::prelude::*;

verus! {

/// A failure of the storage or tailing layer.
///
/// IO failures live with the unverified shell that touches the filesystem;
/// these are the conditions the verified logic itself detects.
#[derive(Clone, Copy, Debug, PartialEq, Eq, Structural)]
pub enum StoreError {
    /// A writer already holds the advisory lock on this root.
    AlreadyLocked,
    /// A segment file name whose stem is not a decimal timestamp.
    InvalidSegmentName,
    /// A removal notification: dropping tracked state is not supported.
    RemovalUnsupported,
}

} // verus!
