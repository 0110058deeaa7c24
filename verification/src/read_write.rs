//! Capability markers: a store handle is read-only or append-only, decided at
//! construction and never changed. A write operation is statically
//! unreachable through a read handle.

use vstd::prelude::*;

verus! {

/// Marker for read-only capability.
pub struct Read;

/// Marker for append-only capability.
pub struct Write;

/// The capability markers a handle can carry.
pub trait ReaderWriter {

}

impl ReaderWriter for Read {

}

impl ReaderWriter for Write {

}

} // verus!
