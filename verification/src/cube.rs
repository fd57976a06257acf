//! The faces of an axis-aligned cube.

use vstd::prelude::*;

verus! {

/// A face of a cube, named by the side it looks to.
#[derive(Clone, Copy, Debug, PartialEq, Eq, Hash, Structural)]
pub enum CubeFace {
    LEFT,
    RIGHT,
    FRONT,
    BACK,
    UP,
    DOWN,
}

} // verus!
