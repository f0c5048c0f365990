//! Plain value types shared by the rest of the crate.

pub mod hybrid_vec;
pub mod stack_vec;
pub mod vec2;

pub use hybrid_vec::HybridVec;
pub use stack_vec::StackVec;
pub use vec2::Vec2;
