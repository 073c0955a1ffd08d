use vstd::prelude::*;
use vstd::string::StringExecFns;

use crate::pcb::PCB;
use crate::queue::ProcessQueue;

verus! {

/// A record of the whole system at one moment: pool occupancy, every
/// directory entry, and independent copies of the three queues in their
/// current order.
pub struct Snapshot {
    pub name: String,
    pub free_pcb_count: usize,
    pub used_pcb_count: usize,
    pub total_chain: Vec<PCB>,
    pub ready_queue: ProcessQueue,
    pub waiting_queue: ProcessQueue,
    pub running_queue: ProcessQueue,
}

impl Snapshot {
    pub fn new(
        name: &str,
        free_pcb_count: usize,
        used_pcb_count: usize,
        total_chain: Vec<PCB>,
        ready_queue: ProcessQueue,
        waiting_queue: ProcessQueue,
        running_queue: ProcessQueue,
    ) -> (r: Snapshot)
        ensures
            r.name@ == name@,
            r.free_pcb_count == free_pcb_count,
            r.used_pcb_count == used_pcb_count,
            r.total_chain@ == total_chain@,
            r.ready_queue@ == ready_queue@,
            r.waiting_queue@ == waiting_queue@,
            r.running_queue@ == running_queue@,
    {
        Snapshot {
            name: String::from_str(name),
            free_pcb_count,
            used_pcb_count,
            total_chain,
            ready_queue,
            waiting_queue,
            running_queue,
        }
    }
}

} // verus!
