//! Completion decisions of the aggregator that collects worker results.
use vstd::prelude::*;

verus! {

/// What the aggregator observed while waiting for results.
#[derive(Debug, Clone, Copy, PartialEq, Eq, Structural)]
pub enum Event {
    /// A worker delivered the result of one read.
    Delivered,
    /// A worker reached the end of the input and stopped.
    WorkerDone,
    /// No result came within the idle timeout.
    Idle,
}

/// What the aggregator does next.
#[derive(Debug, Clone, Copy, PartialEq, Eq, Structural)]
pub enum Action {
    /// Record the delivered result, if any, and keep waiting.
    Continue,
    /// Stop collecting and join the workers.
    Stop,
}

/// Completion state of one run: how many workers there are, how many have
/// reported the end of their input, and how many results arrived.
#[derive(Debug, Clone, Copy, PartialEq, Eq, Structural)]
pub struct Collector {
    pub workers: u64,
    pub done: u64,
    pub received: u64,
}

impl Collector {
    pub open spec fn wf(&self) -> bool {
        self.done <= self.workers
    }

    pub fn new(workers: u64) -> (r: Self)
        ensures
            r.wf(),
            r.workers == workers,
            r.done == 0,
            r.received == 0,
    {
        Collector { workers, done: 0, received: 0 }
    }

    /// Every worker has reported the end of its input.
    pub open spec fn all_done(&self) -> bool {
        self.done == self.workers
    }

    /// Decides on one event. The run ends once every worker has reported the
    /// end of its input; the idle timeout ends it too, as a safety net, even
    /// if a slow worker is still running.
    pub fn on_event(&mut self, ev: Event) -> (r: Action)
        requires
            old(self).wf(),
            !old(self).all_done(),
            ev == Event::Delivered ==> old(self).received < u64::MAX,
        ensures
            final(self).wf(),
            final(self).workers == old(self).workers,
            ev == Event::Delivered ==> final(self).received == old(self).received + 1
                && final(self).done == old(self).done && r == Action::Continue,
            ev == Event::WorkerDone ==> final(self).done == old(self).done + 1
                && final(self).received == old(self).received && (r == Action::Stop
                <==> final(self).all_done()),
            ev == Event::Idle ==> *final(self) == *old(self) && r == Action::Stop,
    {
        match ev {
            Event::Delivered => {
                self.received = self.received + 1;
                Action::Continue
            },
            Event::WorkerDone => {
                self.done = self.done + 1;
                if self.done == self.workers {
                    Action::Stop
                } else {
                    Action::Continue
                }
            },
            Event::Idle => Action::Stop,
        }
    }
}

} // verus!
