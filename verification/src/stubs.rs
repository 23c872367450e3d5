//! Unsupported-capability stubs.
//!
//! The hosted environment cannot load foreign code at run time and carries no
//! locale machinery.  These entry points exist only to satisfy link-time
//! symbol resolution; if one of them is ever reached, it fails loudly with
//! [`ShimError::UnsupportedCapability`] rather than misbehaving silently.
//! The signal is distinct from the allocator's resource-exhaustion error, so
//! a caller can assert on which failure kind occurred.

use vstd::prelude::*;

use crate::ShimError;

verus! {

/// Dynamic-loading `dlopen` replacement: the host has no dynamic loader, so
/// every call signals the unsupported capability.
pub fn dlopen(_path: &[u8], _mode: i32) -> (r: Result<usize, ShimError>)
    ensures
        r == Err::<usize, ShimError>(ShimError::UnsupportedCapability),
{
    Err(ShimError::UnsupportedCapability)
}

/// Dynamic-loading `dlclose` replacement: always signals the unsupported
/// capability; there is no handle it could ever close.
pub fn dlclose(_handle: usize) -> (r: Result<i32, ShimError>)
    ensures
        r == Err::<i32, ShimError>(ShimError::UnsupportedCapability),
{
    Err(ShimError::UnsupportedCapability)
}

/// Dynamic-loading `dlerror` replacement: there is never a loader error
/// message to report, only the unsupported-capability signal.
pub fn dlerror() -> (r: Result<String, ShimError>)
    ensures
        r == Err::<String, ShimError>(ShimError::UnsupportedCapability),
{
    Err(ShimError::UnsupportedCapability)
}

/// Dynamic-loading `dlsym` replacement: no symbol can ever be resolved.
pub fn dlsym(_handle: usize, _symbol: &[u8]) -> (r: Result<usize, ShimError>)
    ensures
        r == Err::<usize, ShimError>(ShimError::UnsupportedCapability),
{
    Err(ShimError::UnsupportedCapability)
}

/// Locale-aware lowercase conversion: the expected call sites are dead code
/// for the feature set actually exercised, so the stub fails loudly.
pub fn __tolower(_c: i32) -> (r: Result<i32, ShimError>)
    ensures
        r == Err::<i32, ShimError>(ShimError::UnsupportedCapability),
{
    Err(ShimError::UnsupportedCapability)
}

/// Locale-aware uppercase conversion: same fail-fast policy as `__tolower`.
pub fn __toupper(_c: i32) -> (r: Result<i32, ShimError>)
    ensures
        r == Err::<i32, ShimError>(ShimError::UnsupportedCapability),
{
    Err(ShimError::UnsupportedCapability)
}

} // verus!
