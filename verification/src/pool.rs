use vstd::prelude::*;

verus! {

/// A piece of work that a pool of workers can be handed.
pub trait Runnable {
    /// Does the work.
    fn run(&self);
}

} // verus!
