//! A C-runtime compatibility shim for a hosted, sandboxed execution
//! environment that offers no system allocator, no dynamic loader and no
//! process-level standard output.
//!
//! A third-party numerical library compiled against a POSIX-like interface is
//! linked against this shim instead of a real C library.  The shim provides:
//!
//! * a header-prefixed allocator (`heap`): every block carries a metadata
//!   record immediately before the address handed to the caller, so that
//!   growth and release can reconstruct the exact block descriptor;
//! * a printf-style formatter (`format`) driven by an explicit, ordered list
//!   of tagged argument values in place of a C variadic cursor;
//! * a monotonic clock adapter (`clock`) with a fixed 1/1 unit-conversion
//!   descriptor;
//! * fail-fast stubs (`stubs`) for capabilities the host cannot provide
//!   (dynamic loading, locale-aware case conversion);
//! * a percent-decoder for URL query strings (`url`).

use vstd::prelude::*;

pub mod clock;
pub mod format;
pub mod heap;
pub mod stubs;
pub mod url;

verus! {

/// The failure taxonomy of the shim.  Resource exhaustion (the underlying
/// memory source cannot satisfy an allocation request) is recoverable by the
/// caller; an unsupported capability is a fatal-by-design signal that a code
/// path assumed absent at build time was reached.  The two are distinct so a
/// caller can tell which failure occurred.
#[derive(Clone, Copy, Debug, PartialEq, Eq, Structural)]
pub enum ShimError {
    /// The underlying memory source cannot satisfy the request.
    OutOfMemory,
    /// The capability does not exist in the hosted environment.
    UnsupportedCapability,
}

} // verus!
