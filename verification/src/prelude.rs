//! The items that most users need.

pub use crate::fisher_yates::fisher_yates;
pub use crate::merge_shuffle::par_merge_shuffle;
pub use crate::merge_shuffle::seq_merge_shuffle;
pub use crate::rough_shuffle::{IsPowerOfTwo, NumberOfBuckets};
pub use crate::scatter_shuffle::parallel::par_scatter_shuffle;
pub use crate::scatter_shuffle::sequential::seq_scatter_shuffle;
pub use crate::scatter_shuffle::{Configuration, ParConfiguration, SeqConfiguration};
