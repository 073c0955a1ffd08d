use vstd::prelude::*;

use crate::pcb::PCB;

verus! {

/// Counters kept by the scheduler: how many ticks were dispatched, how many
/// process switches happened, and the current system time.
pub struct Scheduler {
    pub total_executed: u32,
    pub total_switches: u32,
    pub current_time: u32,
}

/// A copy of the scheduler's counters, handed out for reporting.
#[derive(Clone, Copy, Debug, PartialEq, Eq, Structural)]
pub struct SchedulerStats {
    pub total_executed: u32,
    pub total_switches: u32,
    pub current_time: u32,
}

impl Scheduler {
    pub fn new() -> (r: Scheduler)
        ensures
            r.total_executed == 0,
            r.total_switches == 0,
            r.current_time == 0,
    {
        Scheduler { total_executed: 0, total_switches: 0, current_time: 0 }
    }

    /// Accounts for one execution tick dispatched to `pcb`.
    pub fn execute_process(&mut self, pcb: &PCB)
        requires
            old(self).total_executed < u32::MAX,
            old(self).current_time < u32::MAX,
        ensures
            final(self).total_executed == old(self).total_executed + 1,
            final(self).current_time == old(self).current_time + 1,
            final(self).total_switches == old(self).total_switches,
    {
        self.total_executed = self.total_executed + 1;
        self.current_time = self.current_time + 1;
    }

    /// Accounts for one process switch.
    pub fn record_switch(&mut self)
        requires
            old(self).total_switches < u32::MAX,
        ensures
            final(self).total_switches == old(self).total_switches + 1,
            final(self).total_executed == old(self).total_executed,
            final(self).current_time == old(self).current_time,
    {
        self.total_switches = self.total_switches + 1;
    }

    pub fn get_stats(&self) -> (r: SchedulerStats)
        ensures
            r.total_executed == self.total_executed,
            r.total_switches == self.total_switches,
            r.current_time == self.current_time,
    {
        SchedulerStats {
            total_executed: self.total_executed,
            total_switches: self.total_switches,
            current_time: self.current_time,
        }
    }

    /// Clears every counter.
    pub fn reset(&mut self)
        ensures
            final(self).total_executed == 0,
            final(self).total_switches == 0,
            final(self).current_time == 0,
    {
        self.total_executed = 0;
        self.total_switches = 0;
        self.current_time = 0;
    }
}

} // verus!
