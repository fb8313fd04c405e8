use vstd::prelude::*;
use crate::Executable;

verus! {

/// Two tasks that may run at the same time: neither may rely on running on
/// the caller's thread.
pub struct Par<Q1, Q2> {
    head: Q1,
    tail: Q2,
}

/// Relies on rayon::join: it runs both closures, possibly in parallel, and
/// returns once both have returned.
#[verifier::external_body]
fn join_run<T: Sync, Q1: Executable<T> + Send, Q2: Executable<T> + Send>(
    head: &mut Q1,
    tail: &mut Q2,
    data: &T,
) {
    rayon::join(|| head.run(data), || tail.run(data));
}

impl<Q1, Q2> Par<Q1, Q2> {
    pub closed spec fn head(&self) -> Q1 {
        self.head
    }

    pub closed spec fn tail(&self) -> Q2 {
        self.tail
    }

    pub fn new(head: Q1, tail: Q2) -> (r: Self)
        ensures
            r.head() == head,
            r.tail() == tail,
    {
        Par { head, tail }
    }
}

impl<T: Sync, Q1: Executable<T> + Send, Q2: Executable<T> + Send> Executable<T> for Par<Q1, Q2> {
    fn run(&mut self, data: &T) {
        join_run(&mut self.head, &mut self.tail, data);
    }
}

} // verus!
