//! The worker loop, as a state machine: every background worker runs one
//! cycle immediately on start, then alternates "wait for the timer or for
//! cancellation" with "run one cycle".  Cancellation is cooperative: it is
//! observed between cycles, an in-flight cycle finishes, and no further
//! cycle ever starts.

use vstd::prelude::*;

verus! {

/// What a waiting worker observed.
pub enum WorkerEvent {
    /// The sleep until the next tick elapsed.
    TimerElapsed,
    /// Shutdown was requested.
    CancelRequested,
}

/// What the worker does next.
pub enum WorkerStep {
    /// Run one full unit of work, then wait again.
    RunCycle,
    /// Return from the loop; the worker is finished.
    Exit,
}

/// The loop's decision: cancellation wins and is permanent; a timer tick
/// runs a cycle only while not cancelled.
pub open spec fn next_step(cancelled: bool, ev: WorkerEvent) -> (bool, WorkerStep) {
    if cancelled || ev is CancelRequested {
        (true, WorkerStep::Exit)
    } else {
        (false, WorkerStep::RunCycle)
    }
}

/// One worker's loop state.
pub struct WorkerLoop {
    pub cancelled: bool,
}

impl WorkerLoop {
    /// Entering the loop: the first cycle runs immediately, before any
    /// timer tick, so the cache is warm as soon as possible.
    pub fn start() -> (r: (WorkerLoop, WorkerStep))
        ensures
            !r.0.cancelled,
            r.1 is RunCycle,
    {
        (WorkerLoop { cancelled: false }, WorkerStep::RunCycle)
    }

    /// Reacts to what the wait observed.
    pub fn on_event(&mut self, ev: WorkerEvent) -> (s: WorkerStep)
        ensures
            (final(self).cancelled, s) == next_step(old(self).cancelled, ev),
    {
        if self.cancelled {
            WorkerStep::Exit
        } else {
            match ev {
                WorkerEvent::CancelRequested => {
                    self.cancelled = true;
                    WorkerStep::Exit
                },
                WorkerEvent::TimerElapsed => WorkerStep::RunCycle,
            }
        }
    }
}

/// Law (shutdown): once cancellation is requested or observed, the loop
/// exits and no event can ever make it run another cycle; and a cycle runs
/// only off a timer tick before any cancellation.
pub proof fn lemma_no_cycle_after_cancel(cancelled: bool, ev: WorkerEvent)
    ensures
        next_step(cancelled, WorkerEvent::CancelRequested).1 is Exit,
        next_step(true, ev).1 is Exit,
        next_step(true, ev).0,
        next_step(cancelled, ev).1 is RunCycle ==> !cancelled && ev is TimerElapsed,
{
}

} // verus!
