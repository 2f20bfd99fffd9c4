//! Executors: a graph executor runs a node once all the inputs it depends
//! on are ready.
use vstd::prelude::*;

verus! {

/// A runnable node of an executor, run with a context.
pub trait Runnble {
    type Context;

    fn run(&mut self, context: Self::Context);
}

/// A copy-on-write graph of runnable nodes.
pub struct G;

} // verus!
