use vstd::prelude::*;

use crate::pcb::PCB;
use crate::pcb::has_pid;
use crate::pcb::lemma_pid_index_of_match;
use crate::pcb::pid_index;

verus! {

/// The record the directory holds for `pid`.
pub open spec fn dir_get(s: Seq<PCB>, pid: u32) -> PCB {
    s[pid_index(s, pid)]
}

/// No two directory entries carry the same pid.
pub open spec fn pids_unique(s: Seq<PCB>) -> bool {
    forall|i: int, j: int| 0 <= i < j < s.len() ==> s[i].pid != s[j].pid
}

/// With unique pids, an entry's position is the position its pid is
/// found at, and the record found for the pid is that entry.
pub proof fn lemma_dir_get_at(s: Seq<PCB>, i: int)
    requires
        pids_unique(s),
        0 <= i < s.len(),
    ensures
        has_pid(s, s[i].pid),
        pid_index(s, s[i].pid) == i,
        dir_get(s, s[i].pid) == s[i],
{
    assert(has_pid(s, s[i].pid));
    crate::pcb::lemma_pid_index(s, s[i].pid);
}

/// Appending a record with a fresh pid keeps pids unique, adds exactly
/// that pid, and changes no lookup of an existing pid.
pub proof fn lemma_dir_push(s: Seq<PCB>, x: PCB)
    requires
        pids_unique(s),
        !has_pid(s, x.pid),
    ensures
        pids_unique(s.push(x)),
        forall|pid: u32|
            #[trigger] has_pid(s.push(x), pid) <==> (has_pid(s, pid) || pid == x.pid),
        forall|pid: u32|
            has_pid(s, pid) ==> #[trigger] dir_get(s.push(x), pid) == dir_get(s, pid),
        dir_get(s.push(x), x.pid) == x,
{
    let s2 = s.push(x);
    assert forall|i: int, j: int| 0 <= i < j < s2.len() implies s2[i].pid != s2[j].pid by {
        if j < s.len() {
        } else {
            assert(s2[i] == s[i] && s2[j] == x);
        }
    }
    assert forall|pid: u32| #[trigger] has_pid(s2, pid) implies (has_pid(s, pid) || pid
        == x.pid) by {
        let i = choose|i: int| 0 <= i < s2.len() && s2[i].pid == pid;
        if i < s.len() {
            assert(s[i].pid == pid);
        }
    }
    assert forall|pid: u32| has_pid(s, pid) || pid == x.pid implies #[trigger] has_pid(
        s2,
        pid,
    ) by {
        if has_pid(s, pid) {
            let i = choose|i: int| 0 <= i < s.len() && s[i].pid == pid;
            assert(s2[i].pid == pid);
        } else {
            assert(s2[s.len() as int].pid == pid);
        }
    }
    assert forall|pid: u32| has_pid(s, pid) implies #[trigger] dir_get(s2, pid) == dir_get(
        s,
        pid,
    ) by {
        crate::pcb::lemma_pid_index(s, pid);
        let j = pid_index(s, pid);
        lemma_dir_get_at(s, j);
        lemma_dir_get_at(s2, j);
    }
    lemma_dir_get_at(s2, s.len() as int);
}

/// Replacing an entry by a record with the same pid keeps pids unique
/// and changes only that pid's lookup.
pub proof fn lemma_dir_update(s: Seq<PCB>, t: int, y: PCB)
    requires
        pids_unique(s),
        0 <= t < s.len(),
        y.pid == s[t].pid,
    ensures
        pids_unique(s.update(t, y)),
        forall|pid: u32| #[trigger] has_pid(s.update(t, y), pid) <==> has_pid(s, pid),
        dir_get(s.update(t, y), y.pid) == y,
        forall|pid: u32|
            has_pid(s, pid) && pid != y.pid ==> #[trigger] dir_get(s.update(t, y), pid) == dir_get(
                s,
                pid,
            ),
{
    let s2 = s.update(t, y);
    assert forall|i: int, j: int| 0 <= i < j < s2.len() implies s2[i].pid != s2[j].pid by {
        assert(s2[i].pid == s[i].pid && s2[j].pid == s[j].pid);
    }
    assert forall|pid: u32| #[trigger] has_pid(s2, pid) implies has_pid(s, pid) by {
        let i = choose|i: int| 0 <= i < s2.len() && s2[i].pid == pid;
        assert(s[i].pid == pid);
    }
    assert forall|pid: u32| has_pid(s, pid) implies #[trigger] has_pid(s2, pid) by {
        let i = choose|i: int| 0 <= i < s.len() && s[i].pid == pid;
        assert(s2[i].pid == pid);
    }
    lemma_dir_get_at(s2, t);
    assert forall|pid: u32| has_pid(s, pid) && pid != y.pid implies #[trigger] dir_get(s2, pid)
        == dir_get(s, pid) by {
        crate::pcb::lemma_pid_index(s, pid);
        let j = pid_index(s, pid);
        lemma_dir_get_at(s, j);
        assert(s2[j] == s[j]);
        lemma_dir_get_at(s2, j);
    }
}

/// Removing an entry keeps pids unique, removes exactly that pid, and
/// changes no other pid's lookup.
pub proof fn lemma_dir_remove(s: Seq<PCB>, t: int)
    requires
        pids_unique(s),
        0 <= t < s.len(),
    ensures
        pids_unique(s.remove(t)),
        !has_pid(s.remove(t), s[t].pid),
        forall|pid: u32|
            pid != s[t].pid ==> (#[trigger] has_pid(s.remove(t), pid) <==> has_pid(s, pid)),
        forall|pid: u32|
            pid != s[t].pid && has_pid(s, pid) ==> #[trigger] dir_get(s.remove(t), pid) == dir_get(
                s,
                pid,
            ),
{
    let s2 = s.remove(t);
    assert forall|i: int|
        0 <= i < s2.len() implies s2[i] == (if i < t {
        s[i]
    } else {
        s[i + 1]
    }) by {}
    assert forall|i: int, j: int| 0 <= i < j < s2.len() implies s2[i].pid != s2[j].pid by {}
    assert forall|i: int| 0 <= i < s2.len() implies s2[i].pid != s[t].pid by {}
    assert forall|pid: u32| pid != s[t].pid && has_pid(s, pid) implies #[trigger] has_pid(
        s2,
        pid,
    ) by {
        let i = choose|i: int| 0 <= i < s.len() && s[i].pid == pid;
        if i < t {
            assert(s2[i].pid == pid);
        } else {
            assert(s2[i - 1].pid == pid);
        }
    }
    assert forall|pid: u32| pid != s[t].pid && #[trigger] has_pid(s2, pid) implies has_pid(
        s,
        pid,
    ) by {
        let i = choose|i: int| 0 <= i < s2.len() && s2[i].pid == pid;
    }
    assert forall|pid: u32| pid != s[t].pid && has_pid(s, pid) implies #[trigger] dir_get(s2, pid)
        == dir_get(s, pid) by {
        crate::pcb::lemma_pid_index(s, pid);
        let j = pid_index(s, pid);
        lemma_dir_get_at(s, j);
        if j < t {
            assert(s2[j] == s[j]);
            lemma_dir_get_at(s2, j);
        } else {
            assert(s2[j - 1] == s[j]);
            lemma_dir_get_at(s2, j - 1);
        }
    }
}

/// The process directory: the authoritative record of every existing
/// process, keyed by pid and independent of queue membership.
pub struct ProcessDirectory {
    entries: Vec<PCB>,
}

impl View for ProcessDirectory {
    type V = Seq<PCB>;

    closed spec fn view(&self) -> Seq<PCB> {
        self.entries@
    }
}

impl ProcessDirectory {
    pub fn new() -> (r: ProcessDirectory)
        ensures
            r@ == Seq::<PCB>::empty(),
    {
        ProcessDirectory { entries: Vec::new() }
    }

    pub fn len(&self) -> (r: usize)
        ensures
            r == self@.len(),
    {
        self.entries.len()
    }

    /// Whether a process with this pid exists.
    pub fn contains(&self, pid: u32) -> (r: bool)
        ensures
            r <==> has_pid(self@, pid),
    {
        let mut i: usize = 0;
        while i < self.entries.len() && self.entries[i].pid != pid
            invariant
                0 <= i <= self.entries@.len(),
                forall|t: int| 0 <= t < i ==> self.entries@[t].pid != pid,
            decreases self.entries@.len() - i,
        {
            i += 1;
        }
        i < self.entries.len()
    }

    /// The record for `pid`, or nothing if the process does not exist.
    pub fn get(&self, pid: u32) -> (r: Option<PCB>)
        ensures
            has_pid(self@, pid) ==> r == Some(dir_get(self@, pid)),
            !has_pid(self@, pid) ==> r is None,
    {
        let mut i: usize = 0;
        while i < self.entries.len() && self.entries[i].pid != pid
            invariant
                0 <= i <= self.entries@.len(),
                forall|t: int| 0 <= t < i ==> self.entries@[t].pid != pid,
            decreases self.entries@.len() - i,
        {
            i += 1;
        }
        if i < self.entries.len() {
            proof {
                lemma_pid_index_of_match(self@, pid, i as int);
            }
            Some(self.entries[i])
        } else {
            None
        }
    }

    /// Records a new process; its pid must not be present yet.
    pub fn insert(&mut self, pcb: PCB)
        requires
            !has_pid(old(self)@, pcb.pid),
        ensures
            final(self)@ == old(self)@.push(pcb),
    {
        self.entries.push(pcb);
    }

    /// Replaces the record of an existing process; the pid stays in place.
    pub fn update(&mut self, pcb: PCB)
        requires
            has_pid(old(self)@, pcb.pid),
        ensures
            final(self)@ == old(self)@.update(pid_index(old(self)@, pcb.pid), pcb),
    {
        let ghost s = self.entries@;
        let mut i: usize = 0;
        while i < self.entries.len() && self.entries[i].pid != pcb.pid
            invariant
                self.entries@ == s,
                0 <= i <= s.len(),
                forall|t: int| 0 <= t < i ==> s[t].pid != pcb.pid,
                has_pid(s, pcb.pid),
            decreases s.len() - i,
        {
            i += 1;
        }
        proof {
            if i >= self.entries@.len() {
                assert(!has_pid(s, pcb.pid));
            }
            lemma_pid_index_of_match(s, pcb.pid, i as int);
        }
        self.entries[i] = pcb;
    }

    /// Removes and returns the record for `pid`, or nothing if the process
    /// does not exist.
    pub fn remove(&mut self, pid: u32) -> (r: Option<PCB>)
        ensures
            has_pid(old(self)@, pid) ==> r == Some(dir_get(old(self)@, pid)) && final(self)@ == old(
                self,
            )@.remove(pid_index(old(self)@, pid)),
            !has_pid(old(self)@, pid) ==> r is None && final(self)@ == old(self)@,
    {
        let ghost s = self.entries@;
        let mut i: usize = 0;
        while i < self.entries.len() && self.entries[i].pid != pid
            invariant
                self.entries@ == s,
                0 <= i <= s.len(),
                forall|t: int| 0 <= t < i ==> s[t].pid != pid,
            decreases s.len() - i,
        {
            i += 1;
        }
        if i < self.entries.len() {
            proof {
                lemma_pid_index_of_match(s, pid, i as int);
            }
            Some(self.entries.remove(i))
        } else {
            proof {
                assert(!has_pid(s, pid));
            }
            None
        }
    }

    /// A copy of every record, in the directory's own storage order; the
    /// order is not meaningful to callers.
    pub fn all_processes(&self) -> (r: Vec<PCB>)
        ensures
            r@ == self@,
    {
        let mut out: Vec<PCB> = Vec::new();
        let mut i: usize = 0;
        while i < self.entries.len()
            invariant
                0 <= i <= self.entries@.len(),
                out@ == self.entries@.subrange(0, i as int),
            decreases self.entries@.len() - i,
        {
            out.push(self.entries[i]);
            i += 1;
        }
        proof {
            assert(out@ =~= self.entries@);
        }
        out
    }
}

} // verus!
