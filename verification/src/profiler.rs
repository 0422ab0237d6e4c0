//! Hooks for measuring how long the steps of a shuffle take.

use vstd::prelude::*;

verus! {

/// Something that is told when a step of the work starts.
pub trait Profiler {
    /// What stands for a step that is being measured.
    type Frame: ProfilerFrame;

    /// Starts measuring the step `region`.
    fn start(&self, region: &'static str) -> Self::Frame;
}

/// A step that is being measured.
pub trait ProfilerFrame {
    /// Ends the part of the step that is being measured and starts the part
    /// `name`.
    fn new_region(&mut self, name: &'static str);
}

/// The profiler that measures nothing.
#[derive(Default)]
pub struct NoProfiler();

/// A step of which nothing is measured.
pub struct NoProfileFrame {}

impl ProfilerFrame for NoProfileFrame {
    fn new_region(&mut self, _name: &'static str) {
    }
}

impl Profiler for NoProfiler {
    type Frame = NoProfileFrame;

    fn start(&self, _region: &'static str) -> Self::Frame {
        NoProfileFrame {  }
    }
}

} // verus!
