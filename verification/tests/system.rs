use pcb_sim::manager::{ProcessError, ProcessManager, DEFAULT_QUANTUM};
use pcb_sim::pcb::{ProcessState, PCB};
use pcb_sim::queue::ProcessQueue;

#[test]
fn priority_order_is_kept_with_stable_ties() {
    let mut q = ProcessQueue::new();
    let prios = [3u32, 1, 4, 1, 5];
    for (i, &p) in prios.iter().enumerate() {
        let mut pcb = PCB::new(i, (i + 1) as u32);
        pcb.priority = p;
        q.enqueue_by_priority(pcb);
    }
    let a = q.dequeue().unwrap();
    let b = q.dequeue().unwrap();
    let c = q.dequeue().unwrap();
    let d = q.dequeue().unwrap();
    let e = q.dequeue().unwrap();
    assert_eq!(
        [a.priority, b.priority, c.priority, d.priority, e.priority],
        [5, 4, 3, 1, 1]
    );
    // the two priority-1 records keep their arrival order: pid 2 before pid 4
    assert_eq!(d.pid, 2);
    assert_eq!(e.pid, 4);
}

#[test]
fn pool_of_four_fills_frees_and_reuses() {
    let mut pm = ProcessManager::new(4);
    assert_eq!(pm.pcb_pool.get_pool_size(), 4);
    for _ in 0..4 {
        assert!(pm.create_process(1).is_ok());
    }
    assert_eq!(pm.pcb_pool.get_used_count(), 4);
    assert_eq!(pm.create_process(1), Err(ProcessError::PoolExhausted));
    assert_eq!(pm.terminate_process(2), Ok(()));
    assert_eq!(pm.pcb_pool.get_free_count(), 1);
    assert!(pm.create_process(7).is_ok());
    assert_eq!(pm.pcb_pool.get_used_count(), 4);
}

#[test]
fn schedule_moves_highest_priority_to_running() {
    let mut pm = ProcessManager::new(4);
    let p1 = pm.create_process(5).unwrap();
    let p2 = pm.create_process(3).unwrap();
    assert_eq!(pm.schedule(), Ok(()));
    let running = pm.running_queue.front().copied().unwrap();
    assert_eq!(running.pid, p1);
    assert_eq!(running.state, ProcessState::Running);
    assert_eq!(pm.scheduler_stats().total_switches, 1);
    let ready_head = pm.ready_queue.front().copied().unwrap();
    assert_eq!(ready_head.pid, p2);
}

#[test]
fn quantum_expiry_preempts_after_default_quantum_cycles() {
    let mut pm = ProcessManager::new(4);
    let p1 = pm.create_process(5).unwrap();
    let _p2 = pm.create_process(3).unwrap();
    for _ in 0..DEFAULT_QUANTUM {
        assert_eq!(pm.run_one_cycle(), Ok(()));
    }
    // exactly one expiry: the scheduling switch plus the preemption switch
    assert_eq!(pm.scheduler_stats().total_switches, 2);
    let head = pm.ready_queue.front().copied().unwrap();
    assert_eq!(head.pid, p1);
    assert_eq!(head.state, ProcessState::Ready);
    assert_eq!(head.remaining_time, DEFAULT_QUANTUM);
}

#[test]
fn suspend_and_activate_round_trip() {
    let mut pm = ProcessManager::new(4);
    let p1 = pm.create_process(2).unwrap();
    assert_eq!(pm.suspend_process(p1), Ok(()));
    assert_eq!(pm.waiting_queue.len(), 1);
    assert_eq!(pm.suspend_process(p1), Err(ProcessError::NotReadyOrRunning));
    assert_eq!(pm.suspend_process(99), Err(ProcessError::NoSuchProcess));
    assert_eq!(pm.activate_process(p1), Ok(()));
    assert_eq!(pm.ready_queue.len(), 1);
    assert_eq!(pm.activate_process(p1), Err(ProcessError::NotWaiting));
}

#[test]
fn errors_on_empty_system() {
    let mut pm = ProcessManager::new(2);
    assert_eq!(pm.time_slice_expired(), Err(ProcessError::NoRunningProcess));
    assert_eq!(pm.schedule(), Err(ProcessError::ReadyQueueEmpty));
    assert_eq!(pm.run_one_cycle(), Err(ProcessError::ReadyQueueEmpty));
    assert_eq!(pm.terminate_process(1), Err(ProcessError::NoSuchProcess));
}

#[test]
fn snapshot_reports_the_current_state() {
    let mut pm = ProcessManager::new(4);
    pm.create_process(1).unwrap();
    pm.create_process(2).unwrap();
    let snap = pm.get_snapshot("after creation");
    assert_eq!(snap.used_pcb_count, 2);
    assert_eq!(snap.free_pcb_count, 2);
    assert_eq!(snap.total_chain.len(), 2);
    assert_eq!(snap.ready_queue.len(), 2);
    assert_eq!(snap.waiting_queue.len(), 0);
    assert_eq!(snap.running_queue.len(), 0);
}

#[test]
fn scheduling_a_process_with_one_tick_left_expires_it_in_the_same_cycle() {
    let mut pm = ProcessManager::new(4);
    let p1 = pm.create_process(6).unwrap();
    for _ in 0..DEFAULT_QUANTUM - 1 {
        pm.run_one_cycle().unwrap();
    }
    // one tick left; park it and bring it back so nothing is running
    pm.suspend_process(p1).unwrap();
    pm.activate_process(p1).unwrap();
    let before = pm.scheduler_stats().total_switches;
    pm.run_one_cycle().unwrap();
    // the cycle scheduled it (one switch) and preempted it at once (another)
    assert_eq!(pm.scheduler_stats().total_switches, before + 2);
    assert!(pm.running_queue.is_empty());
    let head = pm.ready_queue.front().copied().unwrap();
    assert_eq!(head.pid, p1);
    assert_eq!(head.remaining_time, DEFAULT_QUANTUM);
}
