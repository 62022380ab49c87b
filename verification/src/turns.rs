//! Taking turns: a number of tasks of which only so many run at once.

use vstd::prelude::*;

verus! {

/// Tasks that are started in their order, with a bound on how many run at once.
#[derive(Debug, Clone, Copy, PartialEq, Eq, Structural)]
pub struct Turns {
    /// How many tasks there are.
    pub total: usize,
    /// How many were started.
    pub started: usize,
    /// How many run.
    pub running: usize,
    /// How many may run at once.
    pub max_running: usize,
}

impl Turns {
    /// What holds of all turns.
    pub open spec fn wf(self) -> bool {
        self.running <= self.started <= self.total && self.running <= self.max_running
    }

    /// Whether a task can be started.
    pub open spec fn has_turn(self) -> bool {
        self.started < self.total && self.running < self.max_running
    }

    /// None of the tasks was started.
    pub fn new(total: usize, max_running: usize) -> (r: Turns)
        ensures
            r == (Turns { total, started: 0, running: 0, max_running }),
            r.wf(),
    {
        Turns { total, started: 0, running: 0, max_running }
    }

    /// The number of the next task to start, `None` if all were started or no more may run now.
    pub fn start(&mut self) -> (r: Option<usize>)
        requires
            old(self).wf(),
        ensures
            final(self).wf(),
            if old(self).has_turn() {
                &&& r == Some(old(self).started)
                &&& *final(self) == (Turns {
                    started: (old(self).started + 1) as usize,
                    running: (old(self).running + 1) as usize,
                    ..*old(self)
                })
            } else {
                r is None && *final(self) == *old(self)
            },
    {
        if self.started < self.total && self.running < self.max_running {
            let n: usize = self.started;
            self.started = n + 1;
            self.running = self.running + 1;
            Some(n)
        } else {
            None
        }
    }

    /// Notes that a task has ended.
    pub fn finish(&mut self)
        requires
            old(self).wf(),
            old(self).running > 0,
        ensures
            final(self).wf(),
            *final(self) == (Turns { running: (old(self).running - 1) as usize, ..*old(self) }),
    {
        self.running = self.running - 1;
    }
}

/// As long as any task may run at all, every task gets its turn: with none running, either all were
/// started or one can be.
pub proof fn law_every_task_gets_its_turn(turns: Turns)
    requires
        turns.wf(),
        turns.max_running > 0,
        turns.running == 0,
    ensures
        turns.started == turns.total || turns.has_turn(),
{
}

/// A task is started if and only if one is left and fewer run than may.
pub proof fn law_when_a_task_is_started(turns: Turns)
    ensures
        turns.has_turn() <==> turns.started < turns.total && turns.running < turns.max_running,
{
}

} // verus!
