//! Logging seam of the library.
//!
//! The library itself performs no I/O: these functions accept a message
//! and do nothing. A host application that wants diagnostics routes its
//! own console logging around the library; the core stays pure.

use vstd::prelude::*;

verus! {

/// Accepts an informational message and does nothing.
pub fn log_info(_message: &str) {
}

/// Accepts an error message and does nothing.
pub fn log_error(_message: &str) {
}

} // verus!
