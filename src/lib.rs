use vstd::prelude::*;

pub mod analysis;
pub mod builder;
pub mod cell;
pub mod context;
pub mod executor;
pub mod laws;
pub mod par;
pub mod sequential;
pub mod task;
pub mod timeline;

use crate::builder::InterlockBuilder;
use crate::par::Par;
use crate::sequential::Sequential;

verus! {

/// A single indivisible unit of work that needs a shared reference to `T` to run.
pub trait Executable<T> {
    fn run(&mut self, data: &T);
}

impl<T, E: Executable<T> + ?Sized> Executable<T> for Box<E> {
    fn run(&mut self, data: &T) {
        (**self).run(data)
    }
}

/// An empty builder of a task graph.
pub fn builder<Q>() -> (r: InterlockBuilder<Q>)
    ensures
        r.spec_len() == 0,
        r.wf(),
{
    InterlockBuilder::new()
}

/// Runs `first`, then `second`.
pub fn seq<Q1, Q2>(first: Q1, second: Q2) -> (r: Sequential<Q1, Q2>)
    ensures
        r.head() == first,
        r.tail() == second,
{
    Sequential::new(first, second)
}

/// Runs `first` and `second`, possibly at the same time.
pub fn par<Q1, Q2>(first: Q1, second: Q2) -> (r: Par<Q1, Q2>)
    ensures
        r.head() == first,
        r.tail() == second,
{
    Par::new(first, second)
}

} // verus!
