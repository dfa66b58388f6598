//! What the background compactor does next.
use vstd::prelude::*;

verus! {

/// Coordination state of the background compactor.
#[derive(Clone, Copy, Debug, PartialEq, Eq, Structural)]
pub struct CompactionState {
    /// A compaction has been asked for and not started yet.
    pub pending: bool,
    /// A compaction is running.
    pub running: bool,
    /// The engine is shutting down.
    pub shutdown: bool,
    /// The number of compactions that have ended, so that waiters can see progress.
    pub generation: u64,
}

/// What the compactor is to do.
#[derive(Clone, Copy, Debug, PartialEq, Eq, Structural)]
pub enum Directive {
    /// Wait until something changes.
    Wait,
    /// Stop.
    Exit,
    /// Run one compaction.
    Run,
}

impl CompactionState {
    /// Nothing asked for, nothing running.
    pub fn new() -> (state: CompactionState)
        ensures
            state == (CompactionState {
                pending: false,
                running: false,
                shutdown: false,
                generation: 0,
            }),
    {
        CompactionState { pending: false, running: false, shutdown: false, generation: 0 }
    }

    /// Asks for a compaction.
    pub fn signal(&mut self)
        ensures
            *final(self) == (CompactionState { pending: true, ..*old(self) }),
    {
        self.pending = true;
    }

    /// Asks the compactor to stop.
    pub fn shut_down(&mut self)
        ensures
            *final(self) == (CompactionState { shutdown: true, ..*old(self) }),
    {
        self.shutdown = true;
    }

    /// What to do next. Stopping comes before any compaction that was asked for; a
    /// compaction that is to run is no longer pending.
    pub fn next(&mut self) -> (directive: Directive)
        ensures
            directive == (if old(self).shutdown {
                Directive::Exit
            } else if old(self).pending {
                Directive::Run
            } else {
                Directive::Wait
            }),
            *final(self) == (if directive == Directive::Run {
                CompactionState { pending: false, running: true, ..*old(self) }
            } else {
                *old(self)
            }),
    {
        if self.shutdown {
            return Directive::Exit;
        }
        if !self.pending {
            return Directive::Wait;
        }
        self.pending = false;
        self.running = true;
        Directive::Run
    }

    /// Records that a compaction has ended, however it went.
    pub fn complete(&mut self)
        requires
            old(self).generation < u64::MAX,
        ensures
            *final(self) == (CompactionState {
                running: false,
                generation: (old(self).generation + 1) as u64,
                ..*old(self)
            }),
    {
        self.running = false;
        self.generation = self.generation + 1;
    }

    /// Whether nothing is pending or running.
    pub fn is_idle(&self) -> (idle: bool)
        ensures
            idle == (!self.pending && !self.running),
    {
        !self.pending && !self.running
    }
}

} // verus!
