//! The interface of a single trial, and its always-failing variant.

use vstd::prelude::*;

verus! {

/// One trial of a candidate pair. Implementations must be shareable across
/// worker threads; an ordinary failure (a refused or broken request) is an
/// answer of `false`, never a panic. The search takes a trial as a closure, so
/// a strategy `s` is handed to it as `|user, pass| s.attempt(user, pass)`.
pub trait LoginStrategy: Sync {
    /// Tries the pair; `true` when it is accepted.
    fn attempt(&self, user: &str, pass: &str) -> bool;
}

/// A strategy under which every trial fails.
pub struct DummyStrategy;

impl DummyStrategy {
    /// Creates the always-failing strategy.
    pub fn new() -> (r: Self) {
        DummyStrategy
    }
}

impl LoginStrategy for DummyStrategy {
    fn attempt(&self, _user: &str, _pass: &str) -> (r: bool)
        ensures
            !r,
    {
        false
    }
}

} // verus!
