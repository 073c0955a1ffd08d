use vstd::prelude::*;

use crate::buddy_system::BuddySystem;
use crate::directory::ProcessDirectory;
use crate::directory::dir_get;
use crate::directory::lemma_dir_get_at;
use crate::directory::lemma_dir_push;
use crate::directory::lemma_dir_remove;
use crate::directory::lemma_dir_update;
use crate::directory::pids_unique;
use crate::pcb::PCB;
use crate::pcb::ProcessState;
use crate::pcb::has_pid;
use crate::pcb::lemma_pid_index;
use crate::pcb::pid_index;
use crate::queue::ProcessQueue;
use crate::queue::insertion_point;
use crate::queue::sorted_by_priority_desc;
use crate::scheduler::Scheduler;
use crate::scheduler::SchedulerStats;
use crate::snapshot::Snapshot;

verus! {

/// Ticks a process may run before it is preempted.
pub const DEFAULT_QUANTUM: u32 = 5;

/// Everything a lifecycle primitive can fail with. Every failure is
/// reported as a value and leaves the system exactly as it was.
#[derive(Clone, Copy, Debug, PartialEq, Eq, Structural)]
pub enum ProcessError {
    /// The allocator has no free slot at any order.
    PoolExhausted,
    /// The pid is absent from the directory.
    NoSuchProcess,
    /// Time-slice expiry was requested with no running process.
    NoRunningProcess,
    /// Suspension was requested for a process that is neither ready nor
    /// running.
    NotReadyOrRunning,
    /// Activation was requested for a process that is not waiting.
    NotWaiting,
    /// Scheduling was requested with nothing ready to run.
    ReadyQueueEmpty,
}

/// The process manager: owns the pool, the directory, the three queues
/// and the scheduler counters, and moves processes through their
/// lifecycle with the primitives below.
pub struct ProcessManager {
    pub pcb_pool: BuddySystem,
    pub directory: ProcessDirectory,
    pub ready_queue: ProcessQueue,
    pub waiting_queue: ProcessQueue,
    pub running_queue: ProcessQueue,
    pub scheduler: Scheduler,
    pub next_pid: u32,
}

/// Both states show the same pool, directory, queues, counters and pid
/// counter: nothing observable changed.
pub open spec fn same_state(pre: ProcessManager, post: ProcessManager) -> bool {
    &&& post.pcb_pool.fls() == pre.pcb_pool.fls()
    &&& post.pcb_pool.pool@ == pre.pcb_pool.pool@
    &&& post.pcb_pool.used_count == pre.pcb_pool.used_count
    &&& post.pcb_pool.pool_size == pre.pcb_pool.pool_size
    &&& post.pcb_pool.max_order == pre.pcb_pool.max_order
    &&& post.directory@ == pre.directory@
    &&& post.ready_queue@ == pre.ready_queue@
    &&& post.waiting_queue@ == pre.waiting_queue@
    &&& post.running_queue@ == pre.running_queue@
    &&& post.scheduler.total_executed == pre.scheduler.total_executed
    &&& post.scheduler.total_switches == pre.scheduler.total_switches
    &&& post.scheduler.current_time == pre.scheduler.current_time
    &&& post.next_pid == pre.next_pid
}

impl ProcessManager {
    /// The queue that processes in state `st` stand in.
    pub open spec fn queue_of(self, st: ProcessState) -> Seq<PCB> {
        match st {
            ProcessState::Ready => self.ready_queue@,
            ProcessState::Running => self.running_queue@,
            ProcessState::Waiting => self.waiting_queue@,
        }
    }

    /// Every entry of queue `q` is in state `st` and is an exact copy of
    /// the directory record for its pid.
    pub open spec fn queue_entries_ok(self, q: Seq<PCB>, st: ProcessState) -> bool {
        forall|i: int|
            #![trigger q[i]]
            0 <= i < q.len() ==> q[i].state == st && has_pid(self.directory@, q[i].pid) && dir_get(
                self.directory@,
                q[i].pid,
            ) == q[i]
    }

    /// The manager's invariant. The pool is well-formed; pids are unique
    /// and below the pid counter; every directory record has at least one
    /// tick left, occupies its own allocated slot, and stands in exactly
    /// the queue its state names; queue entries mirror the directory
    /// record for their pid exactly; the ready queue is ordered by
    /// non-increasing priority; and the pool's used count is the number
    /// of processes.
    pub open spec fn wf(self) -> bool {
        let d = self.directory@;
        &&& self.pcb_pool.wf()
        &&& self.next_pid >= 1
        &&& pids_unique(d)
        &&& (forall|i: int|
            #![trigger d[i]]
            0 <= i < d.len() ==> 1 <= d[i].pid < self.next_pid && d[i].remaining_time >= 1
                && d[i].pool_index < self.pcb_pool.pool_size && !self.pcb_pool.slot_free(
                d[i].pool_index as int,
            ) && has_pid(self.queue_of(d[i].state), d[i].pid))
        &&& (forall|i: int, j: int|
            #![trigger d[i].pool_index, d[j].pool_index]
            0 <= i < j < d.len() ==> d[i].pool_index != d[j].pool_index)
        &&& self.queue_entries_ok(self.ready_queue@, ProcessState::Ready)
        &&& self.queue_entries_ok(self.waiting_queue@, ProcessState::Waiting)
        &&& self.queue_entries_ok(self.running_queue@, ProcessState::Running)
        &&& pids_unique(self.ready_queue@)
        &&& pids_unique(self.waiting_queue@)
        &&& pids_unique(self.running_queue@)
        &&& sorted_by_priority_desc(self.ready_queue@)
        &&& self.pcb_pool.used_count == d.len()
    }

    /// A fresh manager over a pool that holds at least `requested_size`
    /// process control blocks.
    pub fn new(requested_size: usize) -> (r: ProcessManager)
        requires
            requested_size <= usize::MAX / 2 + 1,
        ensures
            r.wf(),
            r.directory@.len() == 0,
            r.ready_queue@.len() == 0,
            r.waiting_queue@.len() == 0,
            r.running_queue@.len() == 0,
            r.pcb_pool.used_count == 0,
            r.pcb_pool.pool_size >= requested_size,
            r.next_pid == 1,
            r.scheduler.total_executed == 0,
            r.scheduler.total_switches == 0,
            r.scheduler.current_time == 0,
    {
        ProcessManager {
            pcb_pool: BuddySystem::new(requested_size),
            directory: ProcessDirectory::new(),
            ready_queue: ProcessQueue::new(),
            waiting_queue: ProcessQueue::new(),
            running_queue: ProcessQueue::new(),
            scheduler: Scheduler::new(),
            next_pid: 1,
        }
    }

    /// Creation primitive: takes a slot from the pool, assigns the next
    /// pid, records the process as ready with the default quantum in the
    /// pool, the directory and the ready queue, ordered by priority.
    /// Fails exactly when the pool is full, leaving everything unchanged.
    #[verifier::rlimit(100)]
    pub fn create_process(&mut self, priority: u32) -> (r: Result<u32, ProcessError>)
        requires
            old(self).wf(),
            old(self).next_pid < u32::MAX,
        ensures
            final(self).wf(),
            r is Err <==> old(self).directory@.len() == old(self).pcb_pool.pool_size,
            r is Err ==> r == Err::<u32, ProcessError>(ProcessError::PoolExhausted) && same_state(
                *old(self),
                *final(self),
            ),
            r matches Ok(pid) ==> ({
                let p = final(self).directory@.last();
                &&& pid == old(self).next_pid
                &&& p.pid == pid
                &&& p.priority == priority
                &&& p.state == ProcessState::Ready
                &&& p.remaining_time == DEFAULT_QUANTUM
                &&& p.pool_index < old(self).pcb_pool.pool_size
                &&& old(self).pcb_pool.slot_free(p.pool_index as int)
                &&& !final(self).pcb_pool.slot_free(p.pool_index as int)
                &&& final(self).directory@ == old(self).directory@.push(p)
                &&& final(self).ready_queue@ == old(self).ready_queue@.insert(
                    insertion_point(old(self).ready_queue@, priority),
                    p,
                )
                &&& final(self).waiting_queue@ == old(self).waiting_queue@
                &&& final(self).running_queue@ == old(self).running_queue@
                &&& final(self).next_pid == old(self).next_pid + 1
                &&& final(self).pcb_pool.used_count == old(self).pcb_pool.used_count + 1
                &&& final(self).scheduler == old(self).scheduler
            }),
    {
        match self.pcb_pool.allocate() {
            None => Err(ProcessError::PoolExhausted),
            Some(pool_index) => {
                let pid = self.next_pid;
                self.next_pid = self.next_pid + 1;
                let new_pcb = PCB {
                    pid,
                    priority,
                    state: ProcessState::Ready,
                    remaining_time: DEFAULT_QUANTUM,
                    pool_index,
                };
                self.pcb_pool.store_pcb(pool_index, new_pcb);
                proof {
                    if has_pid(self.directory@, pid) {
                        let i = choose|i: int|
                            0 <= i < self.directory@.len() && self.directory@[i].pid == pid;
                    }
                }
                self.directory.insert(new_pcb);
                self.ready_queue.enqueue_by_priority(new_pcb);
                proof {
                    let d0 = old(self).directory@;
                    let d1 = self.directory@;
                    let q0 = old(self).ready_queue@;
                    let q1 = self.ready_queue@;
                    let pos = insertion_point(q0, priority);
                    crate::queue::lemma_insertion_point_bounds(q0, priority);
                    lemma_dir_push(d0, new_pcb);
                    crate::pcb::lemma_has_pid_insert(q0, pos, new_pcb);
                    assert forall|i: int| #![trigger q1[i]] 0 <= i < q1.len() implies q1[i].state
                        == ProcessState::Ready && has_pid(d1, q1[i].pid) && dir_get(d1, q1[i].pid)
                        == q1[i] by {
                        if i < pos {
                            assert(q1[i] == q0[i]);
                        } else if i > pos {
                            assert(q1[i] == q0[i - 1]);
                        }
                    }
                    assert(pids_unique(q1)) by {
                        assert forall|i: int, j: int|
                            0 <= i < j < q1.len() implies q1[i].pid != q1[j].pid by {
                            let i0: int = if i < pos {
                                i
                            } else {
                                i - 1
                            };
                            let j0: int = if j < pos {
                                j
                            } else {
                                j - 1
                            };
                            if i != pos && j != pos {
                                assert(q1[i] == q0[i0] && q1[j] == q0[j0]);
                            } else if i == pos {
                                assert(q1[j] == q0[j0]);
                            } else {
                                assert(q1[i] == q0[i0]);
                            }
                        }
                    }
                    assert forall|i: int| #![trigger d1[i]] 0 <= i < d1.len() implies 1 <= d1[i].pid
                        < self.next_pid && d1[i].remaining_time >= 1 && d1[i].pool_index
                        < self.pcb_pool.pool_size && !self.pcb_pool.slot_free(
                        d1[i].pool_index as int,
                    ) && has_pid(self.queue_of(d1[i].state), d1[i].pid) by {
                        if i < d0.len() {
                            assert(d1[i] == d0[i]);
                            assert(d0[i].pool_index as int != pool_index as int);
                        } else {
                            assert(d1[i] == new_pcb);
                        }
                    }
                    assert forall|i: int, j: int|
                        #![trigger d1[i].pool_index, d1[j].pool_index]
                        0 <= i < j < d1.len() implies d1[i].pool_index != d1[j].pool_index by {
                        if j == d0.len() {
                            assert(d1[i] == d0[i]);
                            assert(!old(self).pcb_pool.slot_free(d0[i].pool_index as int));
                        }
                    }
                    let qw = self.waiting_queue@;
                    assert forall|i: int| #![trigger qw[i]] 0 <= i < qw.len() implies qw[i].state
                        == ProcessState::Waiting && has_pid(d1, qw[i].pid) && dir_get(
                        d1,
                        qw[i].pid,
                    ) == qw[i] by {
                        assert(has_pid(d0, qw[i].pid));
                    }
                    let qn = self.running_queue@;
                    assert forall|i: int| #![trigger qn[i]] 0 <= i < qn.len() implies qn[i].state
                        == ProcessState::Running && has_pid(d1, qn[i].pid) && dir_get(
                        d1,
                        qn[i].pid,
                    ) == qn[i] by {
                        assert(has_pid(d0, qn[i].pid));
                    }
                }
                Ok(pid)
            },
        }
    }

    /// Termination primitive: removes the process from the directory and
    /// from whichever queue holds it, and returns its slot to the pool.
    /// Fails exactly when the pid is unknown, leaving everything
    /// unchanged.
    #[verifier::rlimit(100)]
    pub fn terminate_process(&mut self, pid: u32) -> (r: Result<(), ProcessError>)
        requires
            old(self).wf(),
        ensures
            final(self).wf(),
            r is Err <==> !has_pid(old(self).directory@, pid),
            r is Err ==> r == Err::<(), ProcessError>(ProcessError::NoSuchProcess) && same_state(
                *old(self),
                *final(self),
            ),
            r is Ok ==> ({
                let d0 = old(self).directory@;
                let p = dir_get(d0, pid);
                &&& final(self).directory@ == d0.remove(pid_index(d0, pid))
                &&& final(self).ready_queue@ == (if p.state == ProcessState::Ready {
                    old(self).ready_queue@.remove(pid_index(old(self).ready_queue@, pid))
                } else {
                    old(self).ready_queue@
                })
                &&& final(self).waiting_queue@ == (if p.state == ProcessState::Waiting {
                    old(self).waiting_queue@.remove(pid_index(old(self).waiting_queue@, pid))
                } else {
                    old(self).waiting_queue@
                })
                &&& final(self).running_queue@ == (if p.state == ProcessState::Running {
                    old(self).running_queue@.remove(pid_index(old(self).running_queue@, pid))
                } else {
                    old(self).running_queue@
                })
                &&& crate::buddy_system::dealloc_step(
                    old(self).pcb_pool,
                    final(self).pcb_pool,
                    p.pool_index,
                )
                &&& final(self).pcb_pool.slot_free(p.pool_index as int)
                &&& final(self).next_pid == old(self).next_pid
                &&& final(self).scheduler == old(self).scheduler
            }),
    {
        let removed = self.directory.remove(pid);
        match removed {
            None => Err(ProcessError::NoSuchProcess),
            Some(pcb) => {
                proof {
                    let d0 = old(self).directory@;
                    lemma_pid_index(d0, pid);
                    lemma_dir_remove(d0, pid_index(d0, pid));
                    assert(dir_get(d0, pid) == pcb);
                    if has_pid(old(self).ready_queue@, pid) {
                        let i = choose|i: int|
                            0 <= i < old(self).ready_queue@.len() && old(self).ready_queue@[i].pid
                                == pid;
                        assert(old(self).ready_queue@[i] == pcb);
                        assert(pcb.state == ProcessState::Ready);
                    }
                    if has_pid(old(self).waiting_queue@, pid) {
                        let i = choose|i: int|
                            0 <= i < old(self).waiting_queue@.len()
                                && old(self).waiting_queue@[i].pid == pid;
                        assert(old(self).waiting_queue@[i] == pcb);
                        assert(pcb.state == ProcessState::Waiting);
                    }
                    if has_pid(old(self).running_queue@, pid) {
                        let i = choose|i: int|
                            0 <= i < old(self).running_queue@.len()
                                && old(self).running_queue@[i].pid == pid;
                        assert(old(self).running_queue@[i] == pcb);
                        assert(pcb.state == ProcessState::Running);
                    }
                }
                self.ready_queue.remove_by_pid(pid);
                self.waiting_queue.remove_by_pid(pid);
                self.running_queue.remove_by_pid(pid);
                proof {
                    let d0 = old(self).directory@;
                    let t = pid_index(d0, pid);
                    assert(!self.pcb_pool.slot_free(pcb.pool_index as int)) by {
                        assert(d0[t] == pcb);
                    }
                }
                self.pcb_pool.deallocate(pcb.pool_index);
                proof {
                    let d0 = old(self).directory@;
                    let t = pid_index(d0, pid);
                    lemma_pid_index(d0, pid);
                    assert(d0[t] == pcb);
                    assert(has_pid(old(self).queue_of(pcb.state), pid));
                    Self::lemma_terminate_wf(*old(self), *self, pid, pcb);
                }
                Ok(())
            },
        }
    }

    /// Shared premises of the termination lemmas: how the state after
    /// removing process `pid` (whose record is `pcb`) relates to the
    /// state before.
    spec fn terminate_shape(pre: ProcessManager, post: ProcessManager, pid: u32, pcb: PCB) -> bool {
        &&& pre.wf()
        &&& has_pid(pre.directory@, pid)
        &&& pcb == dir_get(pre.directory@, pid)
        &&& post.directory@ == pre.directory@.remove(pid_index(pre.directory@, pid))
        &&& post.ready_queue@ == (if pcb.state == ProcessState::Ready {
            pre.ready_queue@.remove(pid_index(pre.ready_queue@, pid))
        } else {
            pre.ready_queue@
        })
        &&& post.waiting_queue@ == (if pcb.state == ProcessState::Waiting {
            pre.waiting_queue@.remove(pid_index(pre.waiting_queue@, pid))
        } else {
            pre.waiting_queue@
        })
        &&& post.running_queue@ == (if pcb.state == ProcessState::Running {
            pre.running_queue@.remove(pid_index(pre.running_queue@, pid))
        } else {
            pre.running_queue@
        })
        &&& post.next_pid == pre.next_pid
        &&& post.pcb_pool.wf()
        &&& post.pcb_pool.pool_size == pre.pcb_pool.pool_size
        &&& post.pcb_pool.used_count + 1 == pre.pcb_pool.used_count
        &&& (forall|s: int|
            s != pcb.pool_index ==> post.pcb_pool.slot_free(s) == pre.pcb_pool.slot_free(s))
    }

    /// After a termination, the remaining records still occupy pairwise
    /// distinct slots.
    #[verifier::rlimit(100)]
    proof fn lemma_terminate_slots(
        pre: ProcessManager,
        post: ProcessManager,
        pid: u32,
        pcb: PCB,
    )
        requires
            Self::terminate_shape(pre, post, pid, pcb),
        ensures
            forall|i: int, j: int|
                #![trigger post.directory@[i].pool_index, post.directory@[j].pool_index]
                0 <= i < j < post.directory@.len() ==> post.directory@[i].pool_index
                    != post.directory@[j].pool_index,
    {
        let d0 = pre.directory@;
        let t = pid_index(d0, pid);
        let d1 = post.directory@;
        lemma_pid_index(d0, pid);
        assert forall|i: int, j: int|
            #![trigger d1[i].pool_index, d1[j].pool_index]
            0 <= i < j < d1.len() implies d1[i].pool_index != d1[j].pool_index by {
            let i0: int = if i < t {
                i
            } else {
                i + 1
            };
            let j0: int = if j < t {
                j
            } else {
                j + 1
            };
            assert(d1[i] == d0[i0] && d1[j] == d0[j0]);
        }
    }

    /// After a termination, every remaining directory record still has a
    /// valid pid and quantum, its own allocated slot, and a place in the
    /// queue its state names. The queue-membership transfers come in as
    /// explicit premises so that this query stays small.
    #[verifier::rlimit(100)]
    proof fn lemma_terminate_dir_entries(
        pre: ProcessManager,
        post: ProcessManager,
        pid: u32,
        pcb: PCB,
    )
        requires
            Self::terminate_shape(pre, post, pid, pcb),
            forall|p2: u32|
                p2 != pid ==> (#[trigger] has_pid(post.ready_queue@, p2) <==> has_pid(
                    pre.ready_queue@,
                    p2,
                )),
            forall|p2: u32|
                p2 != pid ==> (#[trigger] has_pid(post.waiting_queue@, p2) <==> has_pid(
                    pre.waiting_queue@,
                    p2,
                )),
            forall|p2: u32|
                p2 != pid ==> (#[trigger] has_pid(post.running_queue@, p2) <==> has_pid(
                    pre.running_queue@,
                    p2,
                )),
        ensures
            forall|i: int|
                #![trigger post.directory@[i]]
                0 <= i < post.directory@.len() ==> 1 <= post.directory@[i].pid < post.next_pid
                    && post.directory@[i].remaining_time >= 1 && post.directory@[i].pool_index
                    < post.pcb_pool.pool_size && !post.pcb_pool.slot_free(
                    post.directory@[i].pool_index as int,
                ) && has_pid(post.queue_of(post.directory@[i].state), post.directory@[i].pid),
    {
        let d0 = pre.directory@;
        let t = pid_index(d0, pid);
        let d1 = post.directory@;
        lemma_pid_index(d0, pid);
        assert(d0[t] == pcb);
        assert forall|i: int| #![trigger d1[i]] 0 <= i < d1.len() implies 1 <= d1[i].pid
            < post.next_pid && d1[i].remaining_time >= 1 && d1[i].pool_index
            < post.pcb_pool.pool_size && !post.pcb_pool.slot_free(d1[i].pool_index as int)
            && has_pid(post.queue_of(d1[i].state), d1[i].pid) by {
            let i0: int = if i < t {
                i
            } else {
                i + 1
            };
            assert(d1[i] == d0[i0]);
            assert(d1[i].pid != pid);
            assert(d0[i0].pool_index != d0[t].pool_index);
            assert(has_pid(pre.queue_of(d0[i0].state), d0[i0].pid));
        }
    }

    /// After a termination, the whole invariant holds again.
    #[verifier::rlimit(100)]
    proof fn lemma_terminate_wf(pre: ProcessManager, post: ProcessManager, pid: u32, pcb: PCB)
        requires
            Self::terminate_shape(pre, post, pid, pcb),
        ensures
            post.wf(),
    {
        let d0 = pre.directory@;
        let t = pid_index(d0, pid);
        lemma_pid_index(d0, pid);
        assert(d0[t] == pcb);
        lemma_dir_remove(d0, t);
        lemma_queue_after_removal(d0, t, pre.ready_queue@, post.ready_queue@, ProcessState::Ready);
        lemma_queue_after_removal(
            d0,
            t,
            pre.waiting_queue@,
            post.waiting_queue@,
            ProcessState::Waiting,
        );
        lemma_queue_after_removal(
            d0,
            t,
            pre.running_queue@,
            post.running_queue@,
            ProcessState::Running,
        );
        if pcb.state == ProcessState::Ready {
            lemma_pid_index(pre.ready_queue@, pid);
            lemma_sorted_remove(pre.ready_queue@, pid_index(pre.ready_queue@, pid));
        }
        Self::lemma_terminate_slots(pre, post, pid, pcb);
        Self::lemma_terminate_dir_entries(pre, post, pid, pcb);
    }

    /// Preemption primitive: the head of the running queue goes back to
    /// the ready queue with a fresh quantum, in both its copies, and one
    /// process switch is recorded. Fails exactly when nothing is running,
    /// changing nothing.
    pub fn time_slice_expired(&mut self) -> (r: Result<(), ProcessError>)
        requires
            old(self).wf(),
            old(self).scheduler.total_switches < u32::MAX,
        ensures
            final(self).wf(),
            r is Err <==> old(self).running_queue@.len() == 0,
            r is Err ==> r == Err::<(), ProcessError>(ProcessError::NoRunningProcess) && same_state(
                *old(self),
                *final(self),
            ),
            r is Ok ==> ({
                let p = old(self).running_queue@[0];
                let y = PCB {
                    pid: p.pid,
                    priority: p.priority,
                    state: ProcessState::Ready,
                    remaining_time: DEFAULT_QUANTUM,
                    pool_index: p.pool_index,
                };
                &&& final(self).running_queue@ == old(self).running_queue@.drop_first()
                &&& final(self).directory@ == old(self).directory@.update(
                    pid_index(old(self).directory@, p.pid),
                    y,
                )
                &&& final(self).ready_queue@ == old(self).ready_queue@.insert(
                    insertion_point(old(self).ready_queue@, p.priority),
                    y,
                )
                &&& final(self).waiting_queue@ == old(self).waiting_queue@
                &&& final(self).scheduler.total_switches == old(self).scheduler.total_switches + 1
                &&& final(self).scheduler.total_executed == old(self).scheduler.total_executed
                &&& final(self).scheduler.current_time == old(self).scheduler.current_time
                &&& final(self).next_pid == old(self).next_pid
                &&& final(self).pcb_pool.fls() == old(self).pcb_pool.fls()
                &&& final(self).pcb_pool.used_count == old(self).pcb_pool.used_count
            }),
    {
        match self.running_queue.dequeue() {
            None => Err(ProcessError::NoRunningProcess),
            Some(mut pcb) => {
                pcb.state = ProcessState::Ready;
                pcb.remaining_time = DEFAULT_QUANTUM;
                proof {
                    assert(has_pid(self.directory@, pcb.pid));
                }
                self.directory.update(pcb);
                self.ready_queue.enqueue_by_priority(pcb);
                self.scheduler.record_switch();
                proof {
                    let p = old(self).running_queue@[0];
                    crate::pcb::lemma_pid_index_of_match(old(self).running_queue@, p.pid, 0);
                    assert(old(self).running_queue@.remove(0) =~= old(self).running_queue@.drop_first());
                    lemma_pid_index(old(self).directory@, p.pid);
                    lemma_move_wf(*old(self), *self, p.pid, pcb);
                }
                Ok(())
            },
        }
    }

    /// Suspension primitive: a ready or running process moves to the
    /// waiting queue, its state changed in both copies. Fails with
    /// `NoSuchProcess` for an unknown pid and with `NotReadyOrRunning`
    /// for a process that is already waiting; failure changes nothing.
    pub fn suspend_process(&mut self, pid: u32) -> (r: Result<(), ProcessError>)
        requires
            old(self).wf(),
        ensures
            final(self).wf(),
            !has_pid(old(self).directory@, pid) ==> r == Err::<(), ProcessError>(
                ProcessError::NoSuchProcess,
            ) && same_state(*old(self), *final(self)),
            has_pid(old(self).directory@, pid) && dir_get(old(self).directory@, pid).state
                == ProcessState::Waiting ==> r == Err::<(), ProcessError>(
                ProcessError::NotReadyOrRunning,
            ) && same_state(*old(self), *final(self)),
            has_pid(old(self).directory@, pid) && dir_get(old(self).directory@, pid).state
                != ProcessState::Waiting ==> r is Ok && ({
                let p = dir_get(old(self).directory@, pid);
                let y = PCB {
                    pid: p.pid,
                    priority: p.priority,
                    state: ProcessState::Waiting,
                    remaining_time: p.remaining_time,
                    pool_index: p.pool_index,
                };
                &&& final(self).ready_queue@ == (if p.state == ProcessState::Ready {
                    old(self).ready_queue@.remove(pid_index(old(self).ready_queue@, pid))
                } else {
                    old(self).ready_queue@
                })
                &&& final(self).running_queue@ == (if p.state == ProcessState::Running {
                    old(self).running_queue@.remove(pid_index(old(self).running_queue@, pid))
                } else {
                    old(self).running_queue@
                })
                &&& final(self).waiting_queue@ == old(self).waiting_queue@.push(y)
                &&& final(self).directory@ == old(self).directory@.update(
                    pid_index(old(self).directory@, pid),
                    y,
                )
                &&& final(self).scheduler == old(self).scheduler
                &&& final(self).next_pid == old(self).next_pid
                &&& final(self).pcb_pool.fls() == old(self).pcb_pool.fls()
                &&& final(self).pcb_pool.used_count == old(self).pcb_pool.used_count
            }),
    {
        match self.directory.get(pid) {
            None => Err(ProcessError::NoSuchProcess),
            Some(p0) => {
                if p0.state == ProcessState::Waiting {
                    return Err(ProcessError::NotReadyOrRunning);
                }
                proof {
                    let d0 = self.directory@;
                    lemma_pid_index(d0, pid);
                    assert(has_pid(self.queue_of(p0.state), pid));
                    if has_pid(self.ready_queue@, pid) {
                        let i = choose|i: int|
                            0 <= i < self.ready_queue@.len() && self.ready_queue@[i].pid == pid;
                        assert(self.ready_queue@[i] == p0);
                    }
                    if has_pid(self.running_queue@, pid) {
                        let i = choose|i: int|
                            0 <= i < self.running_queue@.len() && self.running_queue@[i].pid
                                == pid;
                        assert(self.running_queue@[i] == p0);
                    }
                }
                self.ready_queue.remove_by_pid(pid);
                self.running_queue.remove_by_pid(pid);
                let mut y = p0;
                y.state = ProcessState::Waiting;
                self.directory.update(y);
                self.waiting_queue.enqueue(y);
                proof {
                    lemma_pid_index(old(self).directory@, pid);
                    if p0.state == ProcessState::Ready {
                        lemma_pid_index(old(self).ready_queue@, pid);
                        lemma_sorted_remove(
                            old(self).ready_queue@,
                            pid_index(old(self).ready_queue@, pid),
                        );
                    }
                    lemma_move_wf(*old(self), *self, pid, y);
                }
                Ok(())
            },
        }
    }

    /// Activation primitive: a waiting process moves back into the ready
    /// queue at its priority-ordered place, its state changed in both
    /// copies. Fails exactly when the pid is not in the waiting queue,
    /// changing nothing.
    pub fn activate_process(&mut self, pid: u32) -> (r: Result<(), ProcessError>)
        requires
            old(self).wf(),
        ensures
            final(self).wf(),
            r is Err <==> !has_pid(old(self).waiting_queue@, pid),
            r is Err ==> r == Err::<(), ProcessError>(ProcessError::NotWaiting) && same_state(
                *old(self),
                *final(self),
            ),
            r is Ok ==> ({
                let p = old(self).waiting_queue@[pid_index(old(self).waiting_queue@, pid)];
                let y = PCB {
                    pid: p.pid,
                    priority: p.priority,
                    state: ProcessState::Ready,
                    remaining_time: p.remaining_time,
                    pool_index: p.pool_index,
                };
                &&& final(self).waiting_queue@ == old(self).waiting_queue@.remove(
                    pid_index(old(self).waiting_queue@, pid),
                )
                &&& final(self).ready_queue@ == old(self).ready_queue@.insert(
                    insertion_point(old(self).ready_queue@, p.priority),
                    y,
                )
                &&& final(self).directory@ == old(self).directory@.update(
                    pid_index(old(self).directory@, pid),
                    y,
                )
                &&& final(self).running_queue@ == old(self).running_queue@
                &&& final(self).scheduler == old(self).scheduler
                &&& final(self).next_pid == old(self).next_pid
                &&& final(self).pcb_pool.fls() == old(self).pcb_pool.fls()
                &&& final(self).pcb_pool.used_count == old(self).pcb_pool.used_count
            }),
    {
        match self.waiting_queue.remove_by_pid(pid) {
            None => Err(ProcessError::NotWaiting),
            Some(mut pcb) => {
                pcb.state = ProcessState::Ready;
                proof {
                    lemma_pid_index(old(self).waiting_queue@, pid);
                    assert(pcb.pid == pid);
                    assert(has_pid(self.directory@, pcb.pid));
                }
                self.directory.update(pcb);
                self.ready_queue.enqueue_by_priority(pcb);
                proof {
                    lemma_pid_index(old(self).directory@, pid);
                    lemma_move_wf(*old(self), *self, pid, pcb);
                }
                Ok(())
            },
        }
    }

    /// Scheduling primitive: with a running process, dispatches one
    /// execution tick to it; otherwise the ready head becomes the running
    /// process (one switch recorded) and receives one tick. Fails exactly
    /// when both queues are empty, changing nothing.
    pub fn schedule(&mut self) -> (r: Result<(), ProcessError>)
        requires
            old(self).wf(),
            old(self).scheduler.total_executed < u32::MAX,
            old(self).scheduler.current_time < u32::MAX,
            old(self).scheduler.total_switches < u32::MAX,
        ensures
            final(self).wf(),
            r is Err <==> (old(self).running_queue@.len() == 0 && old(self).ready_queue@.len()
                == 0),
            r is Err ==> r == Err::<(), ProcessError>(ProcessError::ReadyQueueEmpty) && same_state(
                *old(self),
                *final(self),
            ),
            old(self).running_queue@.len() > 0 ==> r is Ok
                && final(self).scheduler.total_executed == old(self).scheduler.total_executed + 1
                && final(self).scheduler.current_time == old(self).scheduler.current_time + 1
                && final(self).scheduler.total_switches == old(self).scheduler.total_switches
                && final(self).directory@ == old(self).directory@
                && final(self).ready_queue@ == old(self).ready_queue@
                && final(self).waiting_queue@ == old(self).waiting_queue@
                && final(self).running_queue@ == old(self).running_queue@
                && final(self).next_pid == old(self).next_pid
                && final(self).pcb_pool.fls() == old(self).pcb_pool.fls()
                && final(self).pcb_pool.used_count == old(self).pcb_pool.used_count,
            old(self).running_queue@.len() == 0 && old(self).ready_queue@.len() > 0 ==> r is Ok
                && ({
                let p = old(self).ready_queue@[0];
                let y = PCB {
                    pid: p.pid,
                    priority: p.priority,
                    state: ProcessState::Running,
                    remaining_time: p.remaining_time,
                    pool_index: p.pool_index,
                };
                &&& final(self).ready_queue@ == old(self).ready_queue@.drop_first()
                &&& final(self).running_queue@ == old(self).running_queue@.push(y)
                &&& final(self).directory@ == old(self).directory@.update(
                    pid_index(old(self).directory@, p.pid),
                    y,
                )
                &&& final(self).waiting_queue@ == old(self).waiting_queue@
                &&& final(self).scheduler.total_switches == old(self).scheduler.total_switches + 1
                &&& final(self).scheduler.total_executed == old(self).scheduler.total_executed + 1
                &&& final(self).scheduler.current_time == old(self).scheduler.current_time + 1
                &&& final(self).next_pid == old(self).next_pid
                &&& final(self).pcb_pool.fls() == old(self).pcb_pool.fls()
                &&& final(self).pcb_pool.used_count == old(self).pcb_pool.used_count
            }),
    {
        if !self.running_queue.is_empty() {
            let running = self.running_queue.front();
            match running {
                Some(p) => {
                    let current = *p;
                    self.scheduler.execute_process(&current);
                    Ok(())
                },
                None => Err(ProcessError::ReadyQueueEmpty),
            }
        } else {
            match self.ready_queue.dequeue() {
                None => Err(ProcessError::ReadyQueueEmpty),
                Some(mut pcb) => {
                    pcb.state = ProcessState::Running;
                    proof {
                        assert(has_pid(self.directory@, pcb.pid));
                    }
                    self.directory.update(pcb);
                    self.running_queue.enqueue(pcb);
                    self.scheduler.record_switch();
                    self.scheduler.execute_process(&pcb);
                    proof {
                        let p = old(self).ready_queue@[0];
                        crate::pcb::lemma_pid_index_of_match(old(self).ready_queue@, p.pid, 0);
                        assert(old(self).ready_queue@.remove(0) =~= old(self).ready_queue@.drop_first());
                        lemma_pid_index(old(self).directory@, p.pid);
                        lemma_sorted_remove(old(self).ready_queue@, 0);
                        assert(old(self).running_queue@.push(pcb) =~= old(self).running_queue@.insert(old(self).running_queue@.len() as int, pcb));
                        lemma_move_wf(*old(self), *self, p.pid, pcb);
                    }
                    Ok(())
                },
            }
        }
    }


    /// One scheduling cycle: schedules the ready head if nothing runs,
    /// then charges one tick to the running process in both of its
    /// copies, and preempts it when its quantum runs out. Fails exactly
    /// when there is nothing at all to run, changing nothing.
    pub fn run_one_cycle(&mut self) -> (r: Result<(), ProcessError>)
        requires
            old(self).wf(),
            old(self).scheduler.total_executed < u32::MAX,
            old(self).scheduler.current_time < u32::MAX,
            old(self).scheduler.total_switches + 2 <= u32::MAX,
        ensures
            final(self).wf(),
            r is Err <==> (old(self).running_queue@.len() == 0 && old(self).ready_queue@.len()
                == 0),
            r is Err ==> r == Err::<(), ProcessError>(ProcessError::ReadyQueueEmpty) && same_state(
                *old(self),
                *final(self),
            ),
            final(self).waiting_queue@ == old(self).waiting_queue@,
            final(self).next_pid == old(self).next_pid,
            final(self).pcb_pool.fls() == old(self).pcb_pool.fls(),
            final(self).pcb_pool.used_count == old(self).pcb_pool.used_count,
            r is Ok && old(self).running_queue@.len() > 0 ==> ({
                let p = old(self).running_queue@[0];
                let y = PCB {
                    pid: p.pid,
                    priority: p.priority,
                    state: ProcessState::Running,
                    remaining_time: (p.remaining_time - 1) as u32,
                    pool_index: p.pool_index,
                };
                let z = PCB {
                    pid: p.pid,
                    priority: p.priority,
                    state: ProcessState::Ready,
                    remaining_time: DEFAULT_QUANTUM,
                    pool_index: p.pool_index,
                };
                &&& final(self).scheduler.total_executed == old(self).scheduler.total_executed
                &&& final(self).scheduler.current_time == old(self).scheduler.current_time
                &&& (p.remaining_time > 1 ==> final(self).running_queue@ == old(self).running_queue@.update(0, y) && final(self).ready_queue@ == old(self).ready_queue@
                    && final(self).scheduler.total_switches == old(self).scheduler.total_switches)
                &&& (p.remaining_time == 1 ==> final(self).running_queue@ == old(self).running_queue@.update(0, y).drop_first() && final(self).ready_queue@ == old(self).ready_queue@.insert(insertion_point(old(self).ready_queue@, p.priority), z)
                    && final(self).scheduler.total_switches == old(self).scheduler.total_switches
                    + 1)
            }),
            r is Ok && old(self).running_queue@.len() == 0 ==> ({
                let p = old(self).ready_queue@[0];
                let y = PCB {
                    pid: p.pid,
                    priority: p.priority,
                    state: ProcessState::Running,
                    remaining_time: (p.remaining_time - 1) as u32,
                    pool_index: p.pool_index,
                };
                let z = PCB {
                    pid: p.pid,
                    priority: p.priority,
                    state: ProcessState::Ready,
                    remaining_time: DEFAULT_QUANTUM,
                    pool_index: p.pool_index,
                };
                &&& final(self).scheduler.total_executed == old(self).scheduler.total_executed + 1
                &&& final(self).scheduler.current_time == old(self).scheduler.current_time + 1
                &&& (p.remaining_time > 1 ==> final(self).running_queue@ == old(self).running_queue@.push(y) && final(self).ready_queue@ == old(self).ready_queue@.drop_first() && final(self).scheduler.total_switches == old(self).scheduler.total_switches + 1)
                &&& (p.remaining_time == 1 ==> final(self).running_queue@ == old(self).running_queue@ && final(self).ready_queue@ == old(self).ready_queue@.drop_first().insert(
                    insertion_point(old(self).ready_queue@.drop_first(), p.priority),
                    z,
                ) && final(self).scheduler.total_switches == old(self).scheduler.total_switches + 2)
            }),
    {
        let ghost pre = *old(self);
        if self.running_queue.is_empty() {
            match self.schedule() {
                Err(e) => {
                    return Err(e);
                },
                Ok(_) => {
                },
            }
        }
        proof {
            assert(self.running_queue@.len() > 0);
            if pre.running_queue@.len() == 0 {
                let p0 = pre.ready_queue@[0];
                lemma_pid_index(pre.directory@, p0.pid);
                assert(pre.directory@[pid_index(pre.directory@, p0.pid)] == p0);
                lemma_dir_update(
                    pre.directory@,
                    pid_index(pre.directory@, p0.pid),
                    self.running_queue@[0],
                );
            } else {
                let e = pre.running_queue@[0];
                lemma_pid_index(pre.directory@, e.pid);
                assert(pre.directory@[pid_index(pre.directory@, e.pid)] == e);
            }
            assert(self.running_queue@[0].remaining_time >= 1);
        }
        let ghost mid = *self;
        let ghost da = self.directory@;
        let current = self.running_queue.front_mut();
        let newrt = current.remaining_time - 1;
        current.remaining_time = newrt;
        let ticked = *current;
        proof {
            assert(has_pid(da, ticked.pid));
        }
        self.directory.update(ticked);
        if newrt == 0 {
            match self.running_queue.dequeue() {
                None => {
                },
                Some(expired) => {
                    let mut back = expired;
                    back.state = ProcessState::Ready;
                    back.remaining_time = DEFAULT_QUANTUM;
                    proof {
                        lemma_pid_index(da, ticked.pid);
                        lemma_dir_update(da, pid_index(da, ticked.pid), ticked);
                        assert(back.pid == ticked.pid);
                        assert(has_pid(self.directory@, back.pid));
                    }
                    self.directory.update(back);
                    self.ready_queue.enqueue_by_priority(back);
                    self.scheduler.record_switch();
                    proof {
                        let p = mid.running_queue@[0];
                        let pid = p.pid;
                        let t = pid_index(da, pid);
                        lemma_pid_index(da, pid);
                        assert(da[t] == p);
                        let d_tick = da.update(t, ticked);
                        crate::pcb::lemma_pid_index_of_match(d_tick, pid, t);
                        assert(d_tick.update(t, back) =~= da.update(t, back));
                        crate::pcb::lemma_pid_index_of_match(mid.running_queue@, pid, 0);
                        assert(mid.running_queue@.update(0, ticked).drop_first() =~= mid
                            .running_queue@.remove(0));
                        lemma_move_wf(mid, *self, pid, back);
                        if pre.running_queue@.len() == 0 {
                            assert(self.running_queue@ =~= pre.running_queue@);
                        }
                    }
                },
            }
        } else {
            proof {
                lemma_tick_wf(mid, *self, ticked);
                if pre.running_queue@.len() == 0 {
                    assert(self.running_queue@ =~= pre.running_queue@.push(ticked));
                }
            }
        }
        Ok(())
    }

    /// The scheduler's counters.
    pub fn scheduler_stats(&self) -> (r: SchedulerStats)
        ensures
            r.total_executed == self.scheduler.total_executed,
            r.total_switches == self.scheduler.total_switches,
            r.current_time == self.scheduler.current_time,
    {
        self.scheduler.get_stats()
    }

    /// A named snapshot of the whole system: pool occupancy, all
    /// directory records, and copies of the three queues as they stand.
    pub fn get_snapshot(&self, name: &str) -> (r: Snapshot)
        requires
            self.pcb_pool.used_count <= self.pcb_pool.pool_size,
        ensures
            r.name@ == name@,
            r.free_pcb_count == self.pcb_pool.pool_size - self.pcb_pool.used_count,
            r.used_pcb_count == self.pcb_pool.used_count,
            r.total_chain@ == self.directory@,
            r.ready_queue@ == self.ready_queue@,
            r.waiting_queue@ == self.waiting_queue@,
            r.running_queue@ == self.running_queue@,
    {
        Snapshot::new(
            name,
            self.pcb_pool.get_free_count(),
            self.pcb_pool.get_used_count(),
            self.directory.all_processes(),
            self.ready_queue.clone(),
            self.waiting_queue.clone(),
            self.running_queue.clone(),
        )
    }
}


/// After one record leaves the directory (position `t`) and, if this
/// queue is the one its state names, leaves this queue too, the queue
/// still holds exact copies of directory records in state `st`, its pids
/// stay unique, and the presence of every other pid is unchanged.
#[verifier::rlimit(50)]
proof fn lemma_queue_after_removal(
    d0: Seq<PCB>,
    t: int,
    q0: Seq<PCB>,
    q1: Seq<PCB>,
    st: ProcessState,
)
    requires
        pids_unique(d0),
        0 <= t < d0.len(),
        pids_unique(q0),
        forall|i: int|
            #![trigger q0[i]]
            0 <= i < q0.len() ==> q0[i].state == st && has_pid(d0, q0[i].pid) && dir_get(
                d0,
                q0[i].pid,
            ) == q0[i],
        q1 == (if d0[t].state == st {
            q0.remove(pid_index(q0, d0[t].pid))
        } else {
            q0
        }),
        d0[t].state == st ==> has_pid(q0, d0[t].pid),
    ensures
        pids_unique(q1),
        forall|i: int|
            #![trigger q1[i]]
            0 <= i < q1.len() ==> q1[i].state == st && q1[i].pid != d0[t].pid && has_pid(
                d0.remove(t),
                q1[i].pid,
            ) && dir_get(d0.remove(t), q1[i].pid) == q1[i],
        forall|p2: u32|
            p2 != d0[t].pid ==> (#[trigger] has_pid(q1, p2) <==> has_pid(q0, p2)),
{
    let pid = d0[t].pid;
    let d1 = d0.remove(t);
    lemma_dir_remove(d0, t);
    lemma_dir_get_at(d0, t);
    if d0[t].state == st {
        lemma_pid_index(q0, pid);
        let rq = pid_index(q0, pid);
        lemma_dir_remove(q0, rq);
        assert forall|i: int| #![trigger q1[i]] 0 <= i < q1.len() implies q1[i].state == st
            && q1[i].pid != pid && has_pid(d1, q1[i].pid) && dir_get(d1, q1[i].pid) == q1[i] by {
            let i0: int = if i < rq {
                i
            } else {
                i + 1
            };
            assert(q1[i] == q0[i0]);
        }
    } else {
        assert forall|i: int| #![trigger q1[i]] 0 <= i < q1.len() implies q1[i].state == st
            && q1[i].pid != pid && has_pid(d1, q1[i].pid) && dir_get(d1, q1[i].pid) == q1[i] by {
            assert(q1[i] == q0[i]);
            if q0[i].pid == pid {
                assert(q0[i] == d0[t]);
            }
        }
    }
}

/// Removing one entry keeps a queue ordered by non-increasing priority.
proof fn lemma_sorted_remove(q: Seq<PCB>, r: int)
    requires
        sorted_by_priority_desc(q),
        0 <= r < q.len(),
    ensures
        sorted_by_priority_desc(q.remove(r)),
{
    let q1 = q.remove(r);
    assert forall|i: int, j: int| 0 <= i < j < q1.len() implies q1[i].priority
        >= q1[j].priority by {
        let i0: int = if i < r {
            i
        } else {
            i + 1
        };
        let j0: int = if j < r {
            j
        } else {
            j + 1
        };
        assert(q1[i] == q[i0] && q1[j] == q[j0]);
    }
}

/// After one record of the directory changes from `p` to `y` (same pid,
/// position `t`), this queue — which may lose the record (if `p` was in
/// state `st`) and may gain `y` at position `ins` (if `y` is) — again
/// holds exact copies of directory records in state `st`, with unique
/// pids; every other pid's presence is unchanged.
#[verifier::rlimit(100)]
proof fn lemma_queue_after_move(
    d0: Seq<PCB>,
    t: int,
    y: PCB,
    q0: Seq<PCB>,
    q1: Seq<PCB>,
    st: ProcessState,
    ins: int,
)
    requires
        pids_unique(d0),
        0 <= t < d0.len(),
        y.pid == d0[t].pid,
        y.state != d0[t].state,
        pids_unique(q0),
        forall|i: int|
            #![trigger q0[i]]
            0 <= i < q0.len() ==> q0[i].state == st && has_pid(d0, q0[i].pid) && dir_get(
                d0,
                q0[i].pid,
            ) == q0[i],
        d0[t].state == st ==> has_pid(q0, d0[t].pid),
        ({
            let base = if d0[t].state == st {
                q0.remove(pid_index(q0, d0[t].pid))
            } else {
                q0
            };
            &&& 0 <= ins <= base.len()
            &&& q1 == (if y.state == st {
                base.insert(ins, y)
            } else {
                base
            })
        }),
    ensures
        pids_unique(q1),
        forall|i: int|
            #![trigger q1[i]]
            0 <= i < q1.len() ==> q1[i].state == st && has_pid(d0.update(t, y), q1[i].pid)
                && dir_get(d0.update(t, y), q1[i].pid) == q1[i],
        forall|p2: u32|
            p2 != d0[t].pid ==> (#[trigger] has_pid(q1, p2) <==> has_pid(q0, p2)),
        y.state == st ==> has_pid(q1, y.pid),
        y.state != st ==> !has_pid(q1, y.pid),
{
    let pid = d0[t].pid;
    let d1 = d0.update(t, y);
    lemma_dir_update(d0, t, y);
    lemma_dir_get_at(d0, t);
    let base = if d0[t].state == st {
        q0.remove(pid_index(q0, pid))
    } else {
        q0
    };
    if d0[t].state == st {
        lemma_pid_index(q0, pid);
        let rq = pid_index(q0, pid);
        lemma_dir_remove(q0, rq);
        assert forall|i: int| #![trigger base[i]] 0 <= i < base.len() implies base[i].state == st
            && base[i].pid != pid && has_pid(d0, base[i].pid) && dir_get(d0, base[i].pid)
            == base[i] by {
            let i0: int = if i < rq {
                i
            } else {
                i + 1
            };
            assert(base[i] == q0[i0]);
        }
        assert(!has_pid(base, pid)) by {
            if has_pid(base, pid) {
                let i = choose|i: int| 0 <= i < base.len() && base[i].pid == pid;
                assert(base[i].pid != pid);
            }
        }
    } else {
        assert forall|i: int| #![trigger base[i]] 0 <= i < base.len() implies base[i].state == st
            && base[i].pid != pid && has_pid(d0, base[i].pid) && dir_get(d0, base[i].pid)
            == base[i] by {
            assert(base[i] == q0[i]);
            if q0[i].pid == pid {
                assert(q0[i] == d0[t]);
            }
        }
        assert(!has_pid(base, pid)) by {
            if has_pid(base, pid) {
                let i = choose|i: int| 0 <= i < base.len() && base[i].pid == pid;
                assert(base[i].pid != pid);
            }
        }
    }
    if y.state == st {
        crate::pcb::lemma_has_pid_insert(base, ins, y);
        assert forall|i: int| #![trigger q1[i]] 0 <= i < q1.len() implies q1[i].state == st
            && has_pid(d1, q1[i].pid) && dir_get(d1, q1[i].pid) == q1[i] by {
            if i < ins {
                assert(q1[i] == base[i]);
            } else if i > ins {
                assert(q1[i] == base[i - 1]);
            } else {
                assert(q1[i] == y);
            }
        }
        assert forall|i: int, j: int| 0 <= i < j < q1.len() implies q1[i].pid != q1[j].pid by {
            let i0: int = if i < ins {
                i
            } else {
                i - 1
            };
            let j0: int = if j < ins {
                j
            } else {
                j - 1
            };
            if i != ins && j != ins {
                assert(q1[i] == base[i0] && q1[j] == base[j0]);
            } else if i == ins {
                assert(q1[j] == base[j0]);
            } else {
                assert(q1[i] == base[i0]);
            }
        }
        assert(q1[ins] == y);
    } else {
        assert forall|i: int| #![trigger q1[i]] 0 <= i < q1.len() implies q1[i].state == st
            && has_pid(d1, q1[i].pid) && dir_get(d1, q1[i].pid) == q1[i] by {
            assert(q1[i] == base[i]);
        }
    }
}

/// Shared premises of the movement lemma: the record for `pid` changes
/// state from `p` to `y`, leaves the queue of `p.state`, and joins the
/// queue of `y.state` — the ready queue at its priority-ordered place,
/// the other queues at the tail. Everything else stands still.
spec fn move_shape(pre: ProcessManager, post: ProcessManager, pid: u32, y: PCB) -> bool {
    let p = dir_get(pre.directory@, pid);
    let base_r = if p.state == ProcessState::Ready {
        pre.ready_queue@.remove(pid_index(pre.ready_queue@, pid))
    } else {
        pre.ready_queue@
    };
    let base_w = if p.state == ProcessState::Waiting {
        pre.waiting_queue@.remove(pid_index(pre.waiting_queue@, pid))
    } else {
        pre.waiting_queue@
    };
    let base_n = if p.state == ProcessState::Running {
        pre.running_queue@.remove(pid_index(pre.running_queue@, pid))
    } else {
        pre.running_queue@
    };
    &&& pre.wf()
    &&& has_pid(pre.directory@, pid)
    &&& y.pid == pid
    &&& y.pool_index == p.pool_index
    &&& y.remaining_time >= 1
    &&& y.state != p.state
    &&& post.directory@ == pre.directory@.update(pid_index(pre.directory@, pid), y)
    &&& post.ready_queue@ == (if y.state == ProcessState::Ready {
        base_r.insert(insertion_point(base_r, y.priority), y)
    } else {
        base_r
    })
    &&& post.waiting_queue@ == (if y.state == ProcessState::Waiting {
        base_w.push(y)
    } else {
        base_w
    })
    &&& post.running_queue@ == (if y.state == ProcessState::Running {
        base_n.push(y)
    } else {
        base_n
    })
    &&& sorted_by_priority_desc(post.ready_queue@)
    &&& post.pcb_pool == pre.pcb_pool
    &&& post.next_pid == pre.next_pid
}

/// Moving one process between queues while its directory record changes
/// state with it preserves the whole invariant.
#[verifier::rlimit(100)]
proof fn lemma_move_wf(pre: ProcessManager, post: ProcessManager, pid: u32, y: PCB)
    requires
        move_shape(pre, post, pid, y),
    ensures
        post.wf(),
{
    let d0 = pre.directory@;
    let t = pid_index(d0, pid);
    let d1 = post.directory@;
    lemma_pid_index(d0, pid);
    let p = dir_get(d0, pid);
    assert(d0[t] == p);
    lemma_dir_update(d0, t, y);
    let base_r = if p.state == ProcessState::Ready {
        pre.ready_queue@.remove(pid_index(pre.ready_queue@, pid))
    } else {
        pre.ready_queue@
    };
    let ins_r: int = if y.state == ProcessState::Ready {
        crate::queue::lemma_insertion_point_bounds(base_r, y.priority);
        insertion_point(base_r, y.priority)
    } else {
        0
    };
    lemma_queue_after_move(d0, t, y, pre.ready_queue@, post.ready_queue@, ProcessState::Ready, ins_r);
    let base_w = if p.state == ProcessState::Waiting {
        pre.waiting_queue@.remove(pid_index(pre.waiting_queue@, pid))
    } else {
        pre.waiting_queue@
    };
    assert(base_w.push(y) =~= base_w.insert(base_w.len() as int, y));
    lemma_queue_after_move(
        d0,
        t,
        y,
        pre.waiting_queue@,
        post.waiting_queue@,
        ProcessState::Waiting,
        base_w.len() as int,
    );
    let base_n = if p.state == ProcessState::Running {
        pre.running_queue@.remove(pid_index(pre.running_queue@, pid))
    } else {
        pre.running_queue@
    };
    assert(base_n.push(y) =~= base_n.insert(base_n.len() as int, y));
    lemma_queue_after_move(
        d0,
        t,
        y,
        pre.running_queue@,
        post.running_queue@,
        ProcessState::Running,
        base_n.len() as int,
    );
    assert forall|i: int| #![trigger d1[i]] 0 <= i < d1.len() implies 1 <= d1[i].pid
        < post.next_pid && d1[i].remaining_time >= 1 && d1[i].pool_index
        < post.pcb_pool.pool_size && !post.pcb_pool.slot_free(d1[i].pool_index as int) && has_pid(
        post.queue_of(d1[i].state),
        d1[i].pid,
    ) by {
        if i == t {
            assert(d1[i] == y);
        } else {
            assert(d1[i] == d0[i]);
            assert(d1[i].pid != pid);
        }
    }
    assert forall|i: int, j: int|
        #![trigger d1[i].pool_index, d1[j].pool_index]
        0 <= i < j < d1.len() implies d1[i].pool_index != d1[j].pool_index by {
        assert(d1[i] == (if i == t {
            y
        } else {
            d0[i]
        }));
        assert(d1[j] == (if j == t {
            y
        } else {
            d0[j]
        }));
        assert(d0[i].pool_index != d0[j].pool_index);
    }
}

/// Charging one tick to the running head — the same record, one tick
/// shorter, in the queue and in the directory — preserves the whole
/// invariant as long as at least one tick remains.
#[verifier::rlimit(100)]
proof fn lemma_tick_wf(pre: ProcessManager, post: ProcessManager, y: PCB)
    requires
        pre.wf(),
        pre.running_queue@.len() > 0,
        ({
            let p = pre.running_queue@[0];
            &&& y.pid == p.pid
            &&& y.priority == p.priority
            &&& y.state == ProcessState::Running
            &&& y.pool_index == p.pool_index
            &&& y.remaining_time >= 1
            &&& post.directory@ == pre.directory@.update(pid_index(pre.directory@, p.pid), y)
        }),
        post.running_queue@ == pre.running_queue@.update(0, y),
        post.ready_queue@ == pre.ready_queue@,
        post.waiting_queue@ == pre.waiting_queue@,
        post.pcb_pool == pre.pcb_pool,
        post.next_pid == pre.next_pid,
    ensures
        post.wf(),
{
    let d0 = pre.directory@;
    let d1 = post.directory@;
    let p = pre.running_queue@[0];
    let pid = p.pid;
    let t = pid_index(d0, pid);
    lemma_pid_index(d0, pid);
    assert(d0[t] == p);
    lemma_dir_update(d0, t, y);
    let qn0 = pre.running_queue@;
    let qn1 = post.running_queue@;
    assert forall|i: int| #![trigger qn1[i]] 0 <= i < qn1.len() implies qn1[i].state
        == ProcessState::Running && has_pid(d1, qn1[i].pid) && dir_get(d1, qn1[i].pid)
        == qn1[i] by {
        if i == 0 {
            assert(qn1[0] == y);
        } else {
            assert(qn1[i] == qn0[i]);
            assert(qn0[i].pid != qn0[0].pid);
        }
    }
    assert forall|i: int, j: int| 0 <= i < j < qn1.len() implies qn1[i].pid != qn1[j].pid by {
        assert(qn1[i].pid == qn0[i].pid && qn1[j].pid == qn0[j].pid);
    }
    assert forall|p2: u32| p2 != pid implies (#[trigger] has_pid(qn1, p2) <==> has_pid(
        qn0,
        p2,
    )) by {
        if has_pid(qn0, p2) {
            let w = choose|w: int| 0 <= w < qn0.len() && qn0[w].pid == p2;
            assert(qn1[w].pid == p2);
        }
        if has_pid(qn1, p2) {
            let w = choose|w: int| 0 <= w < qn1.len() && qn1[w].pid == p2;
            assert(qn0[w].pid == p2);
        }
    }
    assert forall|i: int| #![trigger pre.ready_queue@[i]] 0 <= i
        < pre.ready_queue@.len() implies pre.ready_queue@[i].pid != pid by {
        if pre.ready_queue@[i].pid == pid {
            assert(pre.ready_queue@[i] == dir_get(d0, pid));
        }
    }
    assert forall|i: int| #![trigger pre.waiting_queue@[i]] 0 <= i
        < pre.waiting_queue@.len() implies pre.waiting_queue@[i].pid != pid by {
        if pre.waiting_queue@[i].pid == pid {
            assert(pre.waiting_queue@[i] == dir_get(d0, pid));
        }
    }
    assert forall|i: int| #![trigger d1[i]] 0 <= i < d1.len() implies 1 <= d1[i].pid
        < post.next_pid && d1[i].remaining_time >= 1 && d1[i].pool_index
        < post.pcb_pool.pool_size && !post.pcb_pool.slot_free(d1[i].pool_index as int) && has_pid(
        post.queue_of(d1[i].state),
        d1[i].pid,
    ) by {
        if i == t {
            assert(d1[i] == y);
            assert(qn1[0] == y);
        } else {
            assert(d1[i] == d0[i]);
            assert(d1[i].pid != pid);
        }
    }
    assert forall|i: int, j: int|
        #![trigger d1[i].pool_index, d1[j].pool_index]
        0 <= i < j < d1.len() implies d1[i].pool_index != d1[j].pool_index by {
        assert(d1[i] == (if i == t {
            y
        } else {
            d0[i]
        }));
        assert(d1[j] == (if j == t {
            y
        } else {
            d0[j]
        }));
        assert(d0[i].pool_index != d0[j].pool_index);
    }
}

/// Law: in every well-formed state, each process recorded in the
/// directory stands in exactly one of the three queues — the one its
/// state names — and that queue's copy of its record equals the
/// directory's record.
pub proof fn lemma_directory_queue_agreement(pm: ProcessManager, i: int)
    requires
        pm.wf(),
        0 <= i < pm.directory@.len(),
    ensures
        ({
            let p = pm.directory@[i];
            &&& has_pid(pm.queue_of(p.state), p.pid)
            &&& dir_get(pm.directory@, p.pid) == p
            &&& (p.state != ProcessState::Ready ==> !has_pid(pm.ready_queue@, p.pid))
            &&& (p.state != ProcessState::Waiting ==> !has_pid(pm.waiting_queue@, p.pid))
            &&& (p.state != ProcessState::Running ==> !has_pid(pm.running_queue@, p.pid))
        }),
{
    let p = pm.directory@[i];
    lemma_dir_get_at(pm.directory@, i);
    if p.state != ProcessState::Ready && has_pid(pm.ready_queue@, p.pid) {
        let j = choose|j: int| 0 <= j < pm.ready_queue@.len() && pm.ready_queue@[j].pid == p.pid;
        assert(pm.ready_queue@[j] == p);
    }
    if p.state != ProcessState::Waiting && has_pid(pm.waiting_queue@, p.pid) {
        let j = choose|j: int|
            0 <= j < pm.waiting_queue@.len() && pm.waiting_queue@[j].pid == p.pid;
        assert(pm.waiting_queue@[j] == p);
    }
    if p.state != ProcessState::Running && has_pid(pm.running_queue@, p.pid) {
        let j = choose|j: int|
            0 <= j < pm.running_queue@.len() && pm.running_queue@[j].pid == p.pid;
        assert(pm.running_queue@[j] == p);
    }
}

} // verus!
