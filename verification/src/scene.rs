//! The back ends a scene can be rendered on.

use vstd::prelude::*;

verus! {

/// Where a scene is rendered.
#[derive(Clone, Copy, Debug, PartialEq, Eq, Structural)]
pub enum BackendEnum {
    CpuSingleCore,
    CpuMultiCore,
    Cuda,
}

} // verus!
