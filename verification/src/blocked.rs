//! Blocks: the pieces that a slice is cut into for the scatter shuffle.
//!
//! A block is a range of positions of the slice, with a count of the
//! positions at its front that have been dealt with. The elements stay in the
//! slice: a block only says where they are.

pub mod block;
pub mod blocks;
pub mod slicing;
