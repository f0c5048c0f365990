//! Handles by which a host names the bodies it simulates.

use vstd::prelude::*;

verus! {

/// The handle of a body. A registry hands out each identifier once; the
/// tree carries it in its entries and reports collisions by it.
#[derive(Debug, Clone, Copy, PartialEq, Eq, Hash, PartialOrd, Structural)]
pub struct Entity {
    pub id: usize,
}

} // verus!
