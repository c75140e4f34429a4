//! Lamport timestamps for causality tracking.
//!
//! Each replica keeps one monotone counter. Local operations tick it and use
//! the new value as a timestamp; merging takes the maximum of the local value
//! and the largest remote timestamp observed.

use vstd::prelude::*;

verus! {

/// A Lamport clock: a monotone `u64` counter starting at 0.
#[derive(Debug, Clone, Copy, PartialEq, Eq)]
pub struct LamportClock {
    value: u64,
}

impl LamportClock {
    /// The current counter, for use in contracts.
    pub closed spec fn spec_value(&self) -> u64 {
        self.value
    }

    /// Create a new Lamport clock starting at 0.
    pub fn new() -> (c: Self)
        ensures
            c.spec_value() == 0,
    {
        Self { value: 0 }
    }

    /// Get the current clock value.
    pub fn value(&self) -> (v: u64)
        ensures
            v == self.spec_value(),
    {
        self.value
    }

    /// Increment the clock and return the new value (for local operations).
    pub fn tick(&mut self) -> (v: u64)
        requires
            old(self).spec_value() < u64::MAX,
        ensures
            final(self).spec_value() == old(self).spec_value() + 1,
            v == final(self).spec_value(),
    {
        self.value = self.value + 1;
        self.value
    }

    /// Update the clock from a remote timestamp (for merge operations):
    /// the value becomes the maximum of the two.
    pub fn update(&mut self, remote: u64)
        ensures
            final(self).spec_value() == if remote > old(self).spec_value() {
                remote
            } else {
                old(self).spec_value()
            },
    {
        if remote > self.value {
            self.value = remote;
        }
    }
}

impl Default for LamportClock {
    /// A fresh clock, equal to `LamportClock::new()`.
    fn default() -> (c: Self)
        ensures
            c.spec_value() == 0,
    {
        Self::new()
    }
}

} // verus!
