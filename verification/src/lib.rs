//! Simulation core for operating-system process management: a buddy-system
//! allocator for a fixed pool of process control blocks, priority-ordered
//! process queues, a process directory, and a priority-preemptive scheduler.

pub mod buddy_system;
pub mod directory;
pub mod manager;
pub mod pcb;
pub mod queue;
pub mod scheduler;
pub mod snapshot;
