use vstd::prelude::*;

verus! {

/// The scheduling state of a process.
#[derive(Clone, Copy, Debug, PartialEq, Eq, Structural)]
pub enum ProcessState {
    Ready,
    Running,
    Waiting,
}

impl ProcessState {
    /// Short text for the state, used by status displays.
    pub fn to_string(&self) -> (r: &'static str)
        ensures
            *self == ProcessState::Ready ==> r@ == "ready"@,
            *self == ProcessState::Running ==> r@ == "running"@,
            *self == ProcessState::Waiting ==> r@ == "waiting"@,
    {
        match self {
            ProcessState::Ready => "ready",
            ProcessState::Running => "running",
            ProcessState::Waiting => "waiting",
        }
    }
}

/// A process control block: the per-process record held in the pool,
/// in the directory, and in the queues. A process is identified by its
/// `pid`; `pool_index` is the slot it occupies in the pool, fixed for
/// the whole lifetime of the process.
#[derive(Clone, Copy, Debug, PartialEq, Eq, Structural)]
pub struct PCB {
    pub pid: u32,
    pub priority: u32,
    pub state: ProcessState,
    pub remaining_time: u32,
    pub pool_index: usize,
}

impl PCB {
    /// A fresh record for slot `pool_index` with identity `pid`: ready,
    /// with priority and time slice still unset.
    pub fn new(pool_index: usize, pid: u32) -> (r: PCB)
        ensures
            r == (PCB {
                pid,
                priority: 0,
                state: ProcessState::Ready,
                remaining_time: 0,
                pool_index,
            }),
    {
        PCB { pid, priority: 0, state: ProcessState::Ready, remaining_time: 0, pool_index }
    }

    /// Clears every field except the slot index.
    pub fn reset(&mut self)
        ensures
            *final(self) == (PCB {
                pid: 0,
                priority: 0,
                state: ProcessState::Ready,
                remaining_time: 0,
                pool_index: old(self).pool_index,
            }),
    {
        self.pid = 0;
        self.priority = 0;
        self.state = ProcessState::Ready;
        self.remaining_time = 0;
    }
}

/// Whether some record in the sequence carries `pid`.
pub open spec fn has_pid(s: Seq<PCB>, pid: u32) -> bool {
    exists|i: int| 0 <= i < s.len() && s[i].pid == pid
}

/// First position whose record carries `pid`; meaningful only when one does.
pub open spec fn pid_index(s: Seq<PCB>, pid: u32) -> int
    decreases s.len(),
{
    if s.len() == 0 {
        0
    } else if s[0].pid == pid {
        0
    } else {
        1 + pid_index(s.drop_first(), pid)
    }
}

/// Inserting a record adds exactly its pid to the pids present.
pub proof fn lemma_has_pid_insert(q: Seq<PCB>, pos: int, x: PCB)
    requires
        0 <= pos <= q.len(),
    ensures
        forall|pid: u32|
            #[trigger] has_pid(q.insert(pos, x), pid) <==> (has_pid(q, pid) || pid == x.pid),
{
    let q2 = q.insert(pos, x);
    assert forall|pid: u32| #[trigger] has_pid(q2, pid) implies (has_pid(q, pid) || pid
        == x.pid) by {
        let i = choose|i: int| 0 <= i < q2.len() && q2[i].pid == pid;
        if i < pos {
            assert(q[i].pid == pid);
        } else if i > pos {
            assert(q[i - 1].pid == pid);
        }
    }
    assert forall|pid: u32| has_pid(q, pid) || pid == x.pid implies #[trigger] has_pid(
        q2,
        pid,
    ) by {
        if has_pid(q, pid) {
            let i = choose|i: int| 0 <= i < q.len() && q[i].pid == pid;
            if i < pos {
                assert(q2[i].pid == pid);
            } else {
                assert(q2[i + 1].pid == pid);
            }
        } else {
            assert(q2[pos].pid == pid);
        }
    }
}

/// A position that matches `pid`, with no match before it, is
/// `pid_index`.
pub proof fn lemma_pid_index_of_match(s: Seq<PCB>, pid: u32, stop: int)
    requires
        0 <= stop < s.len(),
        forall|t: int| 0 <= t < stop ==> s[t].pid != pid,
        s[stop].pid == pid,
    ensures
        pid_index(s, pid) == stop,
    decreases s.len(),
{
    if stop > 0 {
        assert(s.drop_first()[stop - 1].pid == pid);
        assert(forall|t: int| 0 <= t < stop - 1 ==> s.drop_first()[t].pid != pid);
        lemma_pid_index_of_match(s.drop_first(), pid, stop - 1);
    }
}

/// Basic facts about the first position of a `pid`: it is in range, it
/// matches, and nothing before it does.
pub proof fn lemma_pid_index(s: Seq<PCB>, pid: u32)
    requires
        has_pid(s, pid),
    ensures
        0 <= pid_index(s, pid) < s.len(),
        s[pid_index(s, pid)].pid == pid,
        forall|t: int| 0 <= t < pid_index(s, pid) ==> s[t].pid != pid,
    decreases s.len(),
{
    if s.len() > 0 && s[0].pid != pid {
        let j = choose|i: int| 0 <= i < s.len() && s[i].pid == pid;
        assert(s.drop_first()[j - 1].pid == pid);
        lemma_pid_index(s.drop_first(), pid);
        assert forall|t: int| 0 <= t < pid_index(s, pid) implies s[t].pid != pid by {
            if t > 0 {
                assert(s.drop_first()[t - 1].pid != pid);
            }
        }
    }
}

} // verus!
