use vstd::prelude::*;
use std::sync::mpsc::{Receiver, Sender};
use std::time::Instant;
use crate::analysis::{TimelineAnalyzer, TimelineEvent};
use crate::Executable;

verus! {

#[verifier::external_type_specification]
#[verifier::external_body]
#[verifier::reject_recursive_types(T)]
pub struct ExSender<T>(Sender<T>);

#[verifier::external_type_specification]
#[verifier::external_body]
#[verifier::reject_recursive_types(T)]
pub struct ExReceiver<T>(Receiver<T>);

#[verifier::external_type_specification]
#[verifier::external_body]
pub struct ExInstant(Instant);

/// Relies on std::sync::mpsc::channel: a sender and the receiver of what it sends.
#[verifier::external_body]
fn open_channel<N>() -> (r: (Sender<TimelineEvent<N>>, Receiver<TimelineEvent<N>>)) {
    std::sync::mpsc::channel()
}

/// Relies on Sender::clone: another sender into the same channel.
#[verifier::external_body]
fn another_sender<N>(s: &Sender<TimelineEvent<N>>) -> (r: Sender<TimelineEvent<N>>) {
    s.clone()
}

/// Relies on Sender::send: the event is queued unless the receiver is gone,
/// in which case it is dropped.
#[verifier::external_body]
fn send_event<N>(s: &Sender<TimelineEvent<N>>, e: TimelineEvent<N>) {
    let _ = s.send(e);
}

/// Relies on Receiver::try_recv: the next queued event, if one is queued.
#[verifier::external_body]
fn next_event<N>(r: &Receiver<TimelineEvent<N>>) -> (e: Option<TimelineEvent<N>>) {
    r.try_recv().ok()
}

/// Relies on Receiver::try_iter: the events queued now, in the order sent.
#[verifier::external_body]
fn queued_events<N>(r: &Receiver<TimelineEvent<N>>) -> (e: Vec<TimelineEvent<N>>) {
    r.try_iter().collect()
}

/// Relies on Instant::now: the current time of a monotonic clock.
#[verifier::external_body]
fn clock_now() -> (r: Instant) {
    Instant::now()
}

/// Relies on Instant::elapsed: the nanoseconds since `origin`, as far as a
/// `u64` holds them.
#[verifier::external_body]
fn nanos_since(origin: &Instant) -> (r: u64) {
    origin.elapsed().as_nanos() as u64
}

/// Collects the start and end events of wrapped tasks.
#[verifier::reject_recursive_types(N)]
pub struct TimelineReader<N> {
    origin: Instant,
    sender: Sender<TimelineEvent<N>>,
    receiver: Receiver<TimelineEvent<N>>,
}

/// A task that reports when it starts and ends.
#[verifier::reject_recursive_types(N)]
pub struct WrappedTask<N, F> {
    origin: Instant,
    sender: Sender<TimelineEvent<N>>,
    name: N,
    func: F,
}

/// The events a reader collected, in the order they were sent.
#[verifier::reject_recursive_types(N)]
pub struct TimelineIterator<N> {
    receiver: Receiver<TimelineEvent<N>>,
}

impl<N: Clone> TimelineReader<N> {
    pub fn new() -> Self {
        let (sender, receiver) = open_channel();
        TimelineReader { origin: clock_now(), sender, receiver }
    }

    /// Wraps `func` so that each run of it is recorded under `name`.
    pub fn wrap<F>(&self, name: N, func: F) -> (r: WrappedTask<N, F>)
        ensures
            r.spec_name() == name,
            r.spec_func() == func,
    {
        WrappedTask { origin: self.origin, sender: another_sender(&self.sender), name, func }
    }

    /// The events recorded so far.
    pub fn collect(self) -> TimelineIterator<N> {
        TimelineIterator { receiver: self.receiver }
    }
}

impl<N: Clone + PartialEq> TimelineReader<N> {
    /// The recorded intervals; nothing when the events do not pair up.
    pub fn analyze(self) -> (r: Option<TimelineAnalyzer<N>>)
        ensures
            r.is_some() ==> r.unwrap().wf(),
    {
        let all = queued_events(&self.receiver);
        TimelineAnalyzer::from_events(all)
    }
}

impl<N, F> WrappedTask<N, F> {
    pub closed spec fn spec_name(&self) -> N {
        self.name
    }

    pub closed spec fn spec_func(&self) -> F {
        self.func
    }
}

impl<T, N: Clone, F: Executable<T>> Executable<T> for WrappedTask<N, F> {
    fn run(&mut self, data: &T) {
        send_event(&self.sender, TimelineEvent::Start(self.name.clone(), nanos_since(&self.origin)));
        self.func.run(data);
        send_event(&self.sender, TimelineEvent::End(self.name.clone(), nanos_since(&self.origin)));
    }
}

impl<N> TimelineIterator<N> {
    /// The next recorded event, if any is left.
    pub fn next(&mut self) -> Option<TimelineEvent<N>> {
        next_event(&self.receiver)
    }
}

} // verus!
