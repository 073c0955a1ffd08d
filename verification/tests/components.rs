use pcb_sim::manager::{ProcessManager, DEFAULT_QUANTUM};
use pcb_sim::pcb::{ProcessState, PCB};
use pcb_sim::queue::ProcessQueue;
use pcb_sim::scheduler::Scheduler;
use pcb_sim::snapshot::Snapshot;

#[test]
fn state_names() {
    assert_eq!(ProcessState::Ready.to_string(), "ready");
    assert_eq!(ProcessState::Running.to_string(), "running");
    assert_eq!(ProcessState::Waiting.to_string(), "waiting");
}

#[test]
fn new_pcb_starts_ready_and_reset_clears_everything_but_the_slot() {
    let mut pcb = PCB::new(3, 7);
    assert_eq!(pcb.pid, 7);
    assert_eq!(pcb.priority, 0);
    assert_eq!(pcb.state, ProcessState::Ready);
    assert_eq!(pcb.remaining_time, 0);
    assert_eq!(pcb.pool_index, 3);
    pcb.priority = 9;
    pcb.remaining_time = 4;
    pcb.reset();
    assert_eq!(pcb.pid, 0);
    assert_eq!(pcb.priority, 0);
    assert_eq!(pcb.remaining_time, 0);
    assert_eq!(pcb.pool_index, 3);
}

#[test]
fn fifo_queue_basics() {
    let mut q = ProcessQueue::new();
    assert!(q.is_empty());
    assert!(q.dequeue().is_none());
    assert!(q.front().is_none());
    assert!(q.get_last_pid().is_none());
    q.enqueue(PCB::new(0, 1));
    q.enqueue(PCB::new(1, 2));
    q.enqueue(PCB::new(2, 3));
    assert_eq!(q.len(), 3);
    assert_eq!(q.front().unwrap().pid, 1);
    assert_eq!(q.get_last_pid(), Some(3));
    assert_eq!(q.dequeue().unwrap().pid, 1);
    assert_eq!(q.dequeue().unwrap().pid, 2);
    assert_eq!(q.dequeue().unwrap().pid, 3);
    assert!(q.dequeue().is_none());
}

#[test]
fn front_mut_changes_only_the_head() {
    let mut q = ProcessQueue::new();
    q.enqueue(PCB::new(0, 1));
    q.enqueue(PCB::new(1, 2));
    q.front_mut().remaining_time = 9;
    assert_eq!(q.front().unwrap().remaining_time, 9);
    assert_eq!(q.get_last_pid(), Some(2));
    assert_eq!(q.len(), 2);
}

#[test]
fn remove_by_pid_takes_the_match_and_nothing_else() {
    let mut q = ProcessQueue::new();
    q.enqueue(PCB::new(0, 1));
    q.enqueue(PCB::new(1, 2));
    q.enqueue(PCB::new(2, 3));
    let removed = q.remove_by_pid(2).unwrap();
    assert_eq!(removed.pid, 2);
    assert_eq!(q.len(), 2);
    assert!(q.remove_by_pid(2).is_none());
    assert_eq!(q.front().unwrap().pid, 1);
    assert_eq!(q.get_last_pid(), Some(3));
}

#[test]
fn queue_clone_is_an_independent_copy() {
    let mut q = ProcessQueue::new();
    q.enqueue(PCB::new(0, 1));
    q.enqueue(PCB::new(1, 2));
    let mut copy = q.clone();
    copy.dequeue();
    assert_eq!(q.len(), 2);
    assert_eq!(copy.len(), 1);
    assert_eq!(q.front().unwrap().pid, 1);
}

#[test]
fn scheduler_counts_and_resets() {
    let mut s = Scheduler::new();
    let pcb = PCB::new(0, 1);
    s.execute_process(&pcb);
    s.execute_process(&pcb);
    s.record_switch();
    let stats = s.get_stats();
    assert_eq!(stats.total_executed, 2);
    assert_eq!(stats.total_switches, 1);
    assert_eq!(stats.current_time, 2);
    s.reset();
    let stats = s.get_stats();
    assert_eq!(stats.total_executed, 0);
    assert_eq!(stats.total_switches, 0);
    assert_eq!(stats.current_time, 0);
}

#[test]
fn snapshot_keeps_the_name_and_the_given_contents() {
    let mut ready = ProcessQueue::new();
    ready.enqueue(PCB::new(0, 1));
    let snap = Snapshot::new(
        "before the first cycle",
        3,
        1,
        vec![PCB::new(0, 1)],
        ready,
        ProcessQueue::new(),
        ProcessQueue::new(),
    );
    assert_eq!(snap.name, "before the first cycle");
    assert_eq!(snap.free_pcb_count, 3);
    assert_eq!(snap.used_pcb_count, 1);
    assert_eq!(snap.total_chain.len(), 1);
    assert_eq!(snap.ready_queue.len(), 1);
}

#[test]
fn created_processes_line_up_by_priority_in_the_ready_queue() {
    let mut pm = ProcessManager::new(8);
    for priority in [3u32, 1, 4, 1, 5] {
        pm.create_process(priority).unwrap();
    }
    let mut ready = pm.ready_queue.clone();
    let mut order = Vec::new();
    while let Some(pcb) = ready.dequeue() {
        order.push((pcb.priority, pcb.pid));
    }
    // pids 1..=5 arrived with priorities [3,1,4,1,5]; equal priorities
    // keep arrival order, so pid 2 stands before pid 4
    assert_eq!(order, vec![(5, 5), (4, 3), (3, 1), (1, 2), (1, 4)]);
}

#[test]
fn directory_and_queue_copies_agree_after_a_mixed_run() {
    let mut pm = ProcessManager::new(8);
    let p1 = pm.create_process(5).unwrap();
    let p2 = pm.create_process(3).unwrap();
    let p3 = pm.create_process(4).unwrap();
    pm.run_one_cycle().unwrap();
    pm.suspend_process(p2).unwrap();
    pm.activate_process(p2).unwrap();
    pm.terminate_process(p3).unwrap();
    for pid in [p1, p2] {
        let record = pm.directory.get(pid).unwrap();
        let queue = match record.state {
            ProcessState::Ready => &pm.ready_queue,
            ProcessState::Running => &pm.running_queue,
            ProcessState::Waiting => &pm.waiting_queue,
        };
        let mut copy = queue.clone();
        let mut found = None;
        while let Some(pcb) = copy.dequeue() {
            if pcb.pid == pid {
                found = Some(pcb);
            }
        }
        assert_eq!(found, Some(record));
    }
    assert!(pm.directory.get(p3).is_none());
    assert_eq!(pm.directory.len(), 2);
    assert_eq!(pm.pcb_pool.get_used_count(), 2);
}

#[test]
fn running_process_keeps_its_identity_while_ticking() {
    let mut pm = ProcessManager::new(4);
    let p1 = pm.create_process(9).unwrap();
    pm.schedule().unwrap();
    pm.run_one_cycle().unwrap();
    let running = pm.running_queue.front().copied().unwrap();
    assert_eq!(running.pid, p1);
    assert_eq!(running.state, ProcessState::Running);
    assert_eq!(running.remaining_time, DEFAULT_QUANTUM - 1);
    let mirrored = pm.directory.get(p1).unwrap();
    assert_eq!(mirrored, running);
}
