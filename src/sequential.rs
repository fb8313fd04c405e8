use vstd::prelude::*;
use crate::Executable;

verus! {

/// Two tasks run one after the other, on the caller's thread.
pub struct Sequential<Q1, Q2> {
    head: Q1,
    tail: Q2,
}

impl<Q1, Q2> Sequential<Q1, Q2> {
    pub closed spec fn head(&self) -> Q1 {
        self.head
    }

    pub closed spec fn tail(&self) -> Q2 {
        self.tail
    }

    pub fn new(head: Q1, tail: Q2) -> (r: Self)
        ensures
            r.head() == head,
            r.tail() == tail,
    {
        Sequential { head, tail }
    }
}

impl<T, Q1: Executable<T>, Q2: Executable<T>> Executable<T> for Sequential<Q1, Q2> {
    fn run(&mut self, data: &T) {
        self.head.run(data);
        self.tail.run(data);
    }
}

} // verus!
