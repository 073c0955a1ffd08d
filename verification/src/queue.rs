use vstd::prelude::*;

use crate::pcb::PCB;
use crate::pcb::has_pid;
use crate::pcb::lemma_pid_index_of_match;
use crate::pcb::pid_index;

verus! {

/// First position at or after `i` whose entry has priority strictly below
/// `p`, or `s.len()` if there is none. This is where a walk that skips
/// entries of priority at least `p` stops.
pub open spec fn scan_from(s: Seq<PCB>, p: u32, i: int) -> int
    recommends
        0 <= i <= s.len(),
    decreases s.len() - i,
{
    if i < 0 || i >= s.len() {
        s.len() as int
    } else if s[i].priority >= p {
        scan_from(s, p, i + 1)
    } else {
        i
    }
}

/// The position where a record of priority `p` is inserted: at the head
/// when the queue is empty or `p` beats the head strictly, otherwise after
/// the longest run, starting at the head, of entries with priority at
/// least `p`. Equal priorities therefore keep arrival order.
pub open spec fn insertion_point(s: Seq<PCB>, p: u32) -> int {
    if s.len() == 0 || p > s[0].priority {
        0
    } else {
        scan_from(s, p, 1)
    }
}

/// The queue is ordered by non-increasing priority.
pub open spec fn sorted_by_priority_desc(s: Seq<PCB>) -> bool {
    forall|i: int, j: int| 0 <= i < j < s.len() ==> s[i].priority >= s[j].priority
}

proof fn lemma_scan_from_exact(s: Seq<PCB>, p: u32, i: int, stop: int)
    requires
        0 <= i <= stop <= s.len(),
        forall|t: int| i <= t < stop ==> s[t].priority >= p,
        stop == s.len() || s[stop].priority < p,
    ensures
        scan_from(s, p, i) == stop,
    decreases stop - i,
{
    if i < stop {
        lemma_scan_from_exact(s, p, i + 1, stop);
    }
}

proof fn lemma_scan_from_bounds(s: Seq<PCB>, p: u32, i: int)
    requires
        0 <= i <= s.len(),
    ensures
        i <= scan_from(s, p, i) <= s.len(),
        forall|t: int| i <= t < scan_from(s, p, i) ==> s[t].priority >= p,
        scan_from(s, p, i) < s.len() ==> s[scan_from(s, p, i)].priority < p,
    decreases s.len() - i,
{
    if i < s.len() && s[i].priority >= p {
        lemma_scan_from_bounds(s, p, i + 1);
    }
}

/// The insertion point is a position of the queue.
pub proof fn lemma_insertion_point_bounds(s: Seq<PCB>, p: u32)
    ensures
        0 <= insertion_point(s, p) <= s.len(),
{
    if !(s.len() == 0 || p > s[0].priority) {
        lemma_scan_from_bounds(s, p, 1);
    }
}

/// A FIFO queue of process records with a priority-ordered insertion
/// variant and removal by process identity from any position.
pub struct ProcessQueue {
    items: Vec<PCB>,
}

impl View for ProcessQueue {
    type V = Seq<PCB>;

    closed spec fn view(&self) -> Seq<PCB> {
        self.items@
    }
}

impl ProcessQueue {
    /// An empty queue.
    pub fn new() -> (r: ProcessQueue)
        ensures
            r@ == Seq::<PCB>::empty(),
    {
        ProcessQueue { items: Vec::new() }
    }

    /// Appends at the tail.
    pub fn enqueue(&mut self, pcb: PCB)
        ensures
            final(self)@ == old(self)@.push(pcb),
    {
        self.items.push(pcb);
    }

    /// Inserts so that a queue ordered by descending priority stays so:
    /// at the head when the incoming priority strictly beats the head,
    /// otherwise after every entry of priority at least the incoming one,
    /// so equal priorities keep their arrival order.
    pub fn enqueue_by_priority(&mut self, pcb: PCB)
        ensures
            final(self)@ == old(self)@.insert(insertion_point(old(self)@, pcb.priority), pcb),
            sorted_by_priority_desc(old(self)@) ==> sorted_by_priority_desc(final(self)@),
    {
        let ghost s = self.items@;
        let ghost p = pcb.priority;
        if self.items.len() == 0 || pcb.priority > self.items[0].priority {
            self.items.insert(0, pcb);
        } else {
            let mut i: usize = 1;
            while i < self.items.len() && self.items[i].priority >= pcb.priority
                invariant
                    self.items@ == s,
                    p == pcb.priority,
                    1 <= i <= s.len(),
                    forall|t: int| 1 <= t < i ==> s[t].priority >= p,
                decreases s.len() - i,
            {
                i += 1;
            }
            proof {
                lemma_scan_from_exact(s, p, 1, i as int);
            }
            self.items.insert(i, pcb);
        }
        proof {
            let pos = insertion_point(s, p);
            assert(final(self)@ == s.insert(pos, pcb));
            if sorted_by_priority_desc(s) {
                let t = s.insert(pos, pcb);
                if s.len() == 0 || p > s[0].priority {
                    assert forall|a: int, b: int| 0 <= a < b < t.len() implies t[a].priority
                        >= t[b].priority by {
                        if a > 0 {
                            assert(t[a] == s[a - 1] && t[b] == s[b - 1]);
                        } else {
                            assert(s[0].priority >= s[b - 1].priority);
                        }
                    }
                } else {
                    lemma_scan_from_bounds(s, p, 1);
                    assert forall|a: int, b: int| 0 <= a < b < t.len() implies t[a].priority
                        >= t[b].priority by {
                        if b < pos {
                            assert(t[a] == s[a] && t[b] == s[b]);
                        } else if a < pos && b == pos {
                            assert(t[a] == s[a]);
                            assert(s[a].priority >= p);
                        } else if a == pos {
                            assert(t[b] == s[b - 1]);
                            assert(pos < s.len() ==> s[pos].priority < p);
                            assert(s[pos].priority >= s[b - 1].priority);
                        } else if a < pos {
                            assert(t[a] == s[a] && t[b] == s[b - 1]);
                            if b - 1 == a {
                                assert(s[a].priority >= p);
                                assert(pos < s.len() ==> s[pos].priority < p);
                            }
                        } else {
                            assert(t[a] == s[a - 1] && t[b] == s[b - 1]);
                        }
                    }
                }
            }
        }
    }

    /// Removes and returns the head; yields nothing on an empty queue.
    pub fn dequeue(&mut self) -> (r: Option<PCB>)
        ensures
            old(self)@.len() == 0 ==> r is None && final(self)@ == old(self)@,
            old(self)@.len() > 0 ==> r == Some(old(self)@[0]) && final(self)@ == old(
                self,
            )@.drop_first(),
    {
        if self.items.len() == 0 {
            None
        } else {
            let head = self.items.remove(0);
            proof {
                assert(final(self)@ =~= old(self)@.drop_first());
            }
            Some(head)
        }
    }

    /// The head, without removing it.
    pub fn front(&self) -> (r: Option<&PCB>)
        ensures
            self@.len() == 0 ==> r is None,
            self@.len() > 0 ==> r == Some(&self@[0]),
    {
        if self.items.len() == 0 {
            None
        } else {
            Some(&self.items[0])
        }
    }

    /// A mutable borrow of the head.
    pub fn front_mut(&mut self) -> (r: &mut PCB)
        requires
            old(self)@.len() > 0,
        ensures
            *r == old(self)@[0],
            final(self)@ == old(self)@.update(0, *final(r)),
    {
        &mut self.items[0]
    }

    pub fn is_empty(&self) -> (r: bool)
        ensures
            r <==> self@.len() == 0,
    {
        self.items.len() == 0
    }

    pub fn len(&self) -> (r: usize)
        ensures
            r == self@.len(),
    {
        self.items.len()
    }

    /// Removes the first entry carrying `pid`, scanning from the head,
    /// and returns it; leaves the queue unchanged when no entry matches.
    pub fn remove_by_pid(&mut self, pid: u32) -> (r: Option<PCB>)
        ensures
            ({
                let s = old(self)@;
                if has_pid(s, pid) {
                    let i = pid_index(s, pid);
                    r == Some(s[i]) && final(self)@ == s.remove(i)
                } else {
                    r is None && final(self)@ == s
                }
            }),
    {
        let ghost s = self.items@;
        let mut i: usize = 0;
        while i < self.items.len() && self.items[i].pid != pid
            invariant
                self.items@ == s,
                0 <= i <= s.len(),
                forall|t: int| 0 <= t < i ==> s[t].pid != pid,
            decreases s.len() - i,
        {
            i += 1;
        }
        if i < self.items.len() {
            proof {
                lemma_pid_index_of_match(s, pid, i as int);
            }
            Some(self.items.remove(i))
        } else {
            proof {
                assert(!has_pid(s, pid));
            }
            None
        }
    }

    /// The identity of the tail entry.
    pub fn get_last_pid(&self) -> (r: Option<u32>)
        ensures
            self@.len() == 0 ==> r is None,
            self@.len() > 0 ==> r == Some(self@.last().pid),
    {
        if self.items.len() == 0 {
            None
        } else {
            Some(self.items[self.items.len() - 1].pid)
        }
    }

    /// An independent copy, for snapshotting without aliasing the live
    /// queue.
    pub fn clone(&self) -> (r: ProcessQueue)
        ensures
            r@ == self@,
    {
        let mut items: Vec<PCB> = Vec::new();
        let mut i: usize = 0;
        while i < self.items.len()
            invariant
                0 <= i <= self.items@.len(),
                items@ == self.items@.subrange(0, i as int),
            decreases self.items@.len() - i,
        {
            items.push(self.items[i]);
            i += 1;
        }
        proof {
            assert(items@ =~= self.items@);
        }
        ProcessQueue { items }
    }
}

impl Clone for ProcessQueue {
    fn clone(&self) -> (r: ProcessQueue)
        ensures
            r@ == self@,
    {
        ProcessQueue::clone(self)
    }
}

} // verus!
