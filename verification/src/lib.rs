//! A device-session facade for the Miio smart-home device family.
//!
//! The heavy lifting (device discovery, the wire protocol, per-model method
//! tables) lives in an external device-control library reached through an
//! embedded interpreter; this crate owns the local logic around it: the
//! `Device` session entity, assembly of a session from what the external
//! library reports, the pass-through of method invocations, and a lossless
//! JSON persistence format for a session.

use vstd::prelude::*;

pub mod codec;
pub mod device;
pub mod json;

verus! {

/// The error kinds this layer can surface.  External-library failures are
/// carried as opaque message strings; no finer subclassification is made.
#[derive(Debug)]
pub enum DeviceError {
    /// The interpreter bridge could not resolve or call the external module.
    Bridge(String),
    /// Device instantiation failed (unreachable host, bad credential,
    /// unknown device type - all indistinguishable at this layer).
    Creation(String),
    /// A method invocation failed.
    Invocation(String),
    /// Persisted state was malformed.
    Parse(String),
    /// A filesystem operation failed.
    Io(String),
}

} // verus!
