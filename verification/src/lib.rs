//! In-place uniform random permutation of slices.
//!
//! The core is a scatter shuffle: the input is split into a power-of-two
//! number of blocks, a rough shuffle routes elements to random blocks using
//! only a few random bits per element, the few elements left over are shuffled
//! and handed out among the blocks, and every block is then shuffled on its
//! own. Small inputs are handled by Fisher-Yates.
//!
//! Every function states what it does to the slice it is given; all shuffles
//! are proved to keep the multiset of elements.

pub mod blocked;
pub mod fisher_yates;
pub mod merge_shuffle;
pub mod prefetch;
pub mod prelude;
pub mod profiler;
pub mod random_bits;
pub mod rng;
pub mod rough_shuffle;
pub mod scatter_shuffle;
pub mod slices;
pub mod uniform_index;
