//! Device preference for neural inference.

use vstd::prelude::*;

verus! {

/// Host preference for accelerator selection.
#[derive(Debug, Clone, Copy, PartialEq, Eq, Structural)]
pub enum DeviceRequest {
    /// Prefer Metal, then CUDA, then CPU.
    Auto,
    /// Apple Metal (requires `metal` feature).
    Metal,
    /// NVIDIA CUDA (requires `cuda` feature).
    Cuda,
    /// Host CPU (f32).
    Cpu,
}

impl Default for DeviceRequest {
    fn default() -> (r: Self)
        ensures
            r == DeviceRequest::Auto,
    {
        DeviceRequest::Auto
    }
}

} // verus!
