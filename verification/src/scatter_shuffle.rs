//! The scatter shuffle: rough shuffle, then the stashes, then every block on
//! its own.

use crate::fisher_yates::{fisher_yates, is_fisher_yates};
use crate::profiler::{NoProfiler, Profiler};
use crate::scatter_shuffle::sequential::{is_adaptive, is_seq_adaptive, SeqScatterShuffleImpl};
use crate::slices::permutes;
use rand::Rng;
use vstd::prelude::*;

pub mod parallel;
pub mod sequential;

verus! {

/// What the scatter shuffle on one thread leaves to its user: the shuffle
/// for inputs that are too short to be cut into blocks, and the length up to
/// which an input counts as such.
pub trait SeqConfiguration: Clone {
    /// The length up to which an input is left to the base case.
    spec fn base_case_size(&self) -> usize;

    /// Whether the base case is Fisher-Yates.
    spec fn base_case_is_fisher_yates(&self) -> bool;

    /// Rearranges `data` into a uniformly random order.
    fn seq_base_case_shuffle<R: Rng, T>(&self, rng: &mut R, data: &mut [T])
        ensures
            permutes(old(data)@, final(data)@),
            self.base_case_is_fisher_yates() ==> is_fisher_yates(old(data)@, final(data)@),
    ;

    /// The length up to which an input is left to the base case.
    fn seq_base_case_size(&self) -> (size: usize)
        ensures
            size == self.base_case_size(),
    ;

    /// Whether the blocks are left as they are after the rough shuffle and the
    /// stashes, which is of use only in tests and measurements of these steps.
    fn seq_disable_recursion(&self) -> bool {
        false
    }
}

/// What the scatter shuffle on several threads leaves to its user, beside
/// what the scatter shuffle on one thread does.
pub trait ParConfiguration: Send + Sync + SeqConfiguration {
    /// The length up to which an input is left to the base case.
    spec fn par_case_size(&self) -> usize;

    /// Whether the base case is the scatter shuffle on one thread that
    /// chooses the number of its blocks by the length of the input, on up to
    /// [`NUM_BUCKETS`] blocks, with the base case of its own that this
    /// configuration gives.
    spec fn par_base_case_is_sequential(&self) -> bool;

    /// Rearranges `data` into a uniformly random order.
    fn par_base_case_shuffle<R: Rng, T>(&self, rng: &mut R, data: &mut [T])
        ensures
            permutes(old(data)@, final(data)@),
            self.par_base_case_is_sequential() ==> is_adaptive(
                old(data)@,
                final(data)@,
                NUM_BUCKETS as int,
                self.base_case_size() as int,
                self.base_case_is_fisher_yates(),
            ) && is_seq_adaptive(
                old(data)@,
                final(data)@,
                NUM_BUCKETS as int,
                self.base_case_size() as int,
                self.base_case_is_fisher_yates(),
            ),
    ;

    /// The length up to which an input is left to the base case.
    fn par_base_case_size(&self) -> (size: usize)
        ensures
            size == self.par_case_size(),
    ;

    /// The number of parts in which the rough shuffle of an input of `n`
    /// elements is made.
    fn par_number_of_subproblems(&self, n: usize) -> usize;

    /// Whether the blocks are left as they are after the rough shuffle and the
    /// stashes, which is of use only in tests and measurements of these steps.
    fn par_disable_recursion(&self) -> bool {
        false
    }

    /// What is told when a step of a shuffle starts.
    type Profiler: Profiler;

    /// The profiler that is told when a step of a shuffle starts.
    fn get_profiler(&self) -> &Self::Profiler;
}

/// The number of blocks of the scatter shuffle on one thread.
pub const NUM_BUCKETS: usize = 128;

/// The sizes that steer the scatter shuffle, with Fisher-Yates as the base
/// case on one thread and the scatter shuffle on one thread, on
/// [`NUM_BUCKETS`] blocks, as the base case on several.
#[derive(Clone, Copy, Debug)]
pub struct Configuration {
    /// The length up to which an input is left to Fisher-Yates. It must not
    /// be zero.
    pub seq_base_case_size: usize,
    /// The length up to which an input is left to one thread.
    pub par_base_case_size: usize,
    /// The largest number of parts in which a rough shuffle is made. The
    /// rough shuffle of an input is made in one part for every
    /// `par_base_case_size` elements, and in one at least.
    pub max_number_of_subproblems: usize,
    /// Whether the blocks are left as they are after the rough shuffle and
    /// the stashes.
    pub disable_recursion: bool,
}

impl Configuration {
    /// The number of parts in which the rough shuffle of an input of `n`
    /// elements is made: one for every `par_base_case_size` elements, but one
    /// at least and `max_number_of_subproblems` at most.
    pub open spec fn number_of_subproblems(&self, n: usize) -> int {
        let parts = if self.par_base_case_size == 0 {
            n as int
        } else {
            n as int / self.par_base_case_size as int
        };
        if parts < 1 || self.max_number_of_subproblems < 1 {
            1
        } else if parts > self.max_number_of_subproblems {
            self.max_number_of_subproblems as int
        } else {
            parts
        }
    }

    /// The sizes for the scatter shuffle on one thread: Fisher-Yates up to
    /// `2^18` elements.
    pub fn sequential() -> (config: Self)
        ensures
            config.seq_base_case_size == 0x4_0000,
            config.par_base_case_size == 0x10_0000,
            config.max_number_of_subproblems == 2040,
            !config.disable_recursion,
    {
        Configuration {
            seq_base_case_size: 0x4_0000,
            par_base_case_size: 0x10_0000,
            max_number_of_subproblems: 2040,
            disable_recursion: false,
        }
    }

    /// The sizes for the scatter shuffle on several threads: one thread up to
    /// `2^20` elements, where Fisher-Yates takes up to `2^16`, and at most
    /// 2040 parts of a rough shuffle.
    pub fn parallel() -> (config: Self)
        ensures
            config.seq_base_case_size == 0x1_0000,
            config.par_base_case_size == 0x10_0000,
            config.max_number_of_subproblems == 2040,
            !config.disable_recursion,
    {
        Configuration {
            seq_base_case_size: 0x1_0000,
            par_base_case_size: 0x10_0000,
            max_number_of_subproblems: 2040,
            disable_recursion: false,
        }
    }
}

impl Default for Configuration {
    fn default() -> (config: Self)
        ensures
            config.seq_base_case_size == 0x4_0000,
            config.par_base_case_size == 0x10_0000,
            config.max_number_of_subproblems == 2040,
            !config.disable_recursion,
    {
        Configuration::sequential()
    }
}

impl SeqConfiguration for Configuration {
    open spec fn base_case_size(&self) -> usize {
        self.seq_base_case_size
    }

    open spec fn base_case_is_fisher_yates(&self) -> bool {
        true
    }

    fn seq_base_case_shuffle<R: Rng, T>(&self, rng: &mut R, data: &mut [T])
        ensures
            is_fisher_yates(old(data)@, final(data)@),
    {
        fisher_yates(rng, data)
    }

    fn seq_base_case_size(&self) -> usize {
        self.seq_base_case_size
    }

    fn seq_disable_recursion(&self) -> (disabled: bool)
        ensures
            disabled == self.disable_recursion,
    {
        self.disable_recursion
    }
}

impl ParConfiguration for Configuration {
    open spec fn par_case_size(&self) -> usize {
        self.par_base_case_size
    }

    open spec fn par_base_case_is_sequential(&self) -> bool {
        self.seq_base_case_size > 0
    }

    fn par_base_case_shuffle<R: Rng, T>(&self, rng: &mut R, data: &mut [T])
        ensures
            self.seq_base_case_size == 0 ==> is_fisher_yates(old(data)@, final(data)@),
    {
        if self.seq_base_case_size == 0 {
            fisher_yates(rng, data);
        } else {
            let algo = SeqScatterShuffleImpl::<R, T, Configuration, NUM_BUCKETS>::new(*self);
            algo.shuffle_adaptive(rng, data);
        }
    }

    fn par_base_case_size(&self) -> (size: usize) {
        self.par_base_case_size
    }

    fn par_number_of_subproblems(&self, n: usize) -> (number: usize)
        ensures
            number == self.number_of_subproblems(n),
    {
        let parts = if self.par_base_case_size == 0 {
            n
        } else {
            n / self.par_base_case_size
        };
        if parts < 1 || self.max_number_of_subproblems < 1 {
            1
        } else if parts > self.max_number_of_subproblems {
            self.max_number_of_subproblems
        } else {
            parts
        }
    }

    fn par_disable_recursion(&self) -> (disabled: bool)
        ensures
            disabled == self.disable_recursion,
    {
        self.disable_recursion
    }

    type Profiler = NoProfiler;

    fn get_profiler(&self) -> &Self::Profiler {
        &NoProfiler()
    }
}

} // verus!
