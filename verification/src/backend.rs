//! Compute backends for matrix operations.
use vstd::prelude::*;

verus! {

/// CPU backend using ndarray (default).
pub struct CpuBackend;

impl CpuBackend {
    /// Creates the CPU backend.
    pub fn new() -> (r: Self)
        ensures
            r == CpuBackend,
    {
        CpuBackend
    }

    /// The backend's name for diagnostics.
    pub fn name(&self) -> (r: &'static str)
        ensures
            r@ == "cpu"@,
    {
        "cpu"
    }
}

impl Default for CpuBackend {
    fn default() -> (r: Self)
        ensures
            r == CpuBackend,
    {
        CpuBackend
    }
}

} // verus!
