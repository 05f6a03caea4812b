//! Keyed counting semaphores with first-in-first-out waiters, as each
//! process group holds them.

use vstd::prelude::*;

verus! {

/// What a semaphore operation decides: carry on, park the calling process,
/// wake a parked one, or report a missing key.
#[derive(Debug, Clone, Copy, PartialEq, Eq, Structural)]
pub enum SemaphoreResult {
    Done,
    NotExist,
    Block(u16),
    WakeUp(u16),
}

/// One counting semaphore: a count and the processes parked on it, oldest
/// first.
pub struct Semaphore {
    pub count: usize,
    pub waiters: Vec<u16>,
}

/// A process group's semaphores, keyed by a 32-bit value.
pub struct SemaphoreSet {
    sems: Vec<(u32, Semaphore)>,
}

/// The index of `key` among `sems`, from `i` on.
pub open spec fn spec_key_index(sems: Seq<(u32, Semaphore)>, i: int, key: u32) -> Option<int>
    decreases sems.len() - i,
{
    if i < 0 || i >= sems.len() {
        None
    } else if sems[i].0 == key {
        Some(i)
    } else {
        spec_key_index(sems, i + 1, key)
    }
}

impl SemaphoreSet {
    /// The keyed semaphores, in insertion order.
    pub closed spec fn view(&self) -> Seq<(u32, Semaphore)> {
        self.sems@
    }

    /// The index of `key`'s semaphore, if the key exists.
    pub open spec fn spec_index_of(&self, key: u32) -> Option<int> {
        spec_key_index(self@, 0, key)
    }

    pub open spec fn spec_contains(&self, key: u32) -> bool {
        self.spec_index_of(key) is Some
    }

    /// Keys are unique, and a semaphore with a positive count never has
    /// waiters, nor the other way round.
    pub open spec fn wf(&self) -> bool {
        &&& forall|i: int, j: int|
            0 <= i < j < self@.len() ==> (#[trigger] self@[i].0) != (#[trigger] self@[j].0)
        &&& forall|i: int|
            0 <= i < self@.len() ==> ((#[trigger] self@[i].1).count > 0 ==> self@[i].1.waiters@.len()
                == 0)
    }

    /// An empty set.
    pub fn new() -> (r: SemaphoreSet)
        ensures
            r.wf(),
            r@.len() == 0,
    {
        SemaphoreSet { sems: Vec::new() }
    }

    /// Finds the position of `key`.
    fn index_of(&self, key: u32) -> (r: Option<usize>)
        ensures
            match r {
                Some(i) => self.spec_index_of(key) == Some(i as int) && i < self@.len() && self@[
                    i as int].0 == key,
                None => self.spec_index_of(key) is None,
            },
    {
        let n = self.sems.len();
        let mut i: usize = 0;
        while i < n
            invariant
                i <= n == self@.len(),
                spec_key_index(self@, 0, key) == spec_key_index(self@, i as int, key),
            decreases n - i,
        {
            if self.sems[i].0 == key {
                return Some(i);
            }
            i = i + 1;
        }
        None
    }

    /// Creates a semaphore for `key` with the given initial count; fails
    /// exactly when the key already exists.
    pub fn insert(&mut self, key: u32, value: usize) -> (r: bool)
        requires
            old(self).wf(),
        ensures
            final(self).wf(),
            r == !old(self).spec_contains(key),
            r ==> final(self)@.len() == old(self)@.len() + 1 && final(self)@.subrange(
                0,
                old(self)@.len() as int,
            ) == old(self)@ && final(self)@.last().0 == key && final(self)@.last().1.count == value
                && final(self)@.last().1.waiters@.len() == 0,
            !r ==> final(self)@ == old(self)@,
            final(self).spec_contains(key),
    {
        let ghost pre = self@;
        match self.index_of(key) {
            Some(_) => false,
            None => {
                proof {
                    lemma_key_index_none_means_absent(self@, key);
                }
                self.sems.push((key, Semaphore { count: value, waiters: Vec::new() }));
                proof {
                    assert(self@.subrange(0, pre.len() as int) =~= pre);
                    lemma_key_index_extend(pre, self@, key);
                }
                true
            },
        }
    }

    /// Removes `key`'s semaphore unconditionally; reports whether it
    /// existed. Processes still parked on it are dropped with it.
    pub fn remove(&mut self, key: u32) -> (r: bool)
        requires
            old(self).wf(),
        ensures
            final(self).wf(),
            r == old(self).spec_contains(key),
            !r ==> final(self)@ == old(self)@,
            r ==> ({
                let i = old(self).spec_index_of(key)->Some_0;
                final(self)@ == old(self)@.remove(i)
            }),
    {
        let ghost pre = self@;
        match self.index_of(key) {
            Some(i) => {
                self.sems.remove(i);
                proof {
                    let s = self@;
                    assert forall|a: int, b: int| 0 <= a < b < s.len() implies (
                    #[trigger] s[a].0) != (#[trigger] s[b].0) by {
                        let oa = if a < i {
                            a
                        } else {
                            a + 1
                        };
                        let ob = if b < i {
                            b
                        } else {
                            b + 1
                        };
                        assert(s[a] == pre[oa] && s[b] == pre[ob]);
                    }
                    assert forall|a: int| 0 <= a < s.len() implies ((#[trigger] s[a].1).count > 0
                        ==> s[a].1.waiters@.len() == 0) by {
                        let oa = if a < i {
                            a
                        } else {
                            a + 1
                        };
                        assert(s[a] == pre[oa]);
                    }
                }
                true
            },
            None => false,
        }
    }

    /// Takes one unit of `key`'s semaphore: with a positive count the count
    /// drops by one, else the caller is parked at the back of the waiter
    /// queue.
    pub fn wait(&mut self, key: u32, pid: u16) -> (r: SemaphoreResult)
        requires
            old(self).wf(),
        ensures
            final(self).wf(),
            match old(self).spec_index_of(key) {
                None => r == SemaphoreResult::NotExist && final(self)@ == old(self)@,
                Some(i) => {
                    let sem = old(self)@[i].1;
                    &&& final(self)@.len() == old(self)@.len()
                    &&& (forall|j: int| 0 <= j < old(self)@.len() && j != i ==> final(self)@[j]
                        == old(self)@[j])
                    &&& final(self)@[i].0 == key
                    &&& if sem.count > 0 {
                        &&& r == SemaphoreResult::Done
                        &&& final(self)@[i].1.count == sem.count - 1
                        &&& final(self)@[i].1.waiters@ == sem.waiters@
                    } else {
                        &&& r == SemaphoreResult::Block(pid)
                        &&& final(self)@[i].1.count == 0
                        &&& final(self)@[i].1.waiters@ == sem.waiters@.push(pid)
                    }
                },
            },
    {
        let ghost pre = self@;
        match self.index_of(key) {
            None => SemaphoreResult::NotExist,
            Some(i) => {
                let c = self.sems[i].1.count;
                if c > 0 {
                    let mut entry = self.sems.remove(i);
                    entry.1.count = entry.1.count - 1;
                    self.sems.insert(i, entry);
                    proof {
                        assert(self@ =~= pre.update(i as int, self@[i as int]));
                        lemma_wf_update(pre, self@, i as int);
                    }
                    SemaphoreResult::Done
                } else {
                    let mut entry = self.sems.remove(i);
                    entry.1.waiters.push(pid);
                    self.sems.insert(i, entry);
                    proof {
                        assert(self@ =~= pre.update(i as int, self@[i as int]));
                        lemma_wf_update(pre, self@, i as int);
                    }
                    SemaphoreResult::Block(pid)
                }
            },
        }
    }

    /// Releases one unit of `key`'s semaphore: the oldest waiter, if any, is
    /// taken off the queue to be woken, else the count rises by one.
    pub fn signal(&mut self, key: u32) -> (r: SemaphoreResult)
        requires
            old(self).wf(),
        ensures
            final(self).wf(),
            match old(self).spec_index_of(key) {
                None => r == SemaphoreResult::NotExist && final(self)@ == old(self)@,
                Some(i) => {
                    let sem = old(self)@[i].1;
                    &&& final(self)@.len() == old(self)@.len()
                    &&& (forall|j: int| 0 <= j < old(self)@.len() && j != i ==> final(self)@[j]
                        == old(self)@[j])
                    &&& final(self)@[i].0 == key
                    &&& if sem.waiters@.len() > 0 {
                        &&& r == SemaphoreResult::WakeUp(sem.waiters@[0])
                        &&& final(self)@[i].1.count == sem.count
                        &&& final(self)@[i].1.waiters@ == sem.waiters@.drop_first()
                    } else {
                        &&& r == SemaphoreResult::Done
                        &&& final(self)@[i].1.count == if sem.count < usize::MAX {
                            sem.count + 1
                        } else {
                            sem.count as int
                        }
                        &&& final(self)@[i].1.waiters@.len() == 0
                    }
                },
            },
    {
        let ghost pre = self@;
        match self.index_of(key) {
            None => SemaphoreResult::NotExist,
            Some(i) => {
                let has_waiter = self.sems[i].1.waiters.len() > 0;
                if has_waiter {
                    let mut entry = self.sems.remove(i);
                    let pid = entry.1.waiters.remove(0);
                    self.sems.insert(i, entry);
                    proof {
                        assert(self@[i as int].1.waiters@ =~= pre[i as int].1.waiters@.drop_first());
                        assert(self@ =~= pre.update(i as int, self@[i as int]));
                        lemma_wf_update(pre, self@, i as int);
                    }
                    SemaphoreResult::WakeUp(pid)
                } else {
                    let mut entry = self.sems.remove(i);
                    if entry.1.count < usize::MAX {
                        entry.1.count = entry.1.count + 1;
                    }
                    self.sems.insert(i, entry);
                    proof {
                        assert(self@ =~= pre.update(i as int, self@[i as int]));
                        lemma_wf_update(pre, self@, i as int);
                    }
                    SemaphoreResult::Done
                }
            },
        }
    }
}

/// A semaphore set is mutually exclusive between count and waiters: in a
/// well-formed set, no semaphore both holds units and has parked processes.
pub proof fn lemma_sem_count_waiters_exclusive(s: &SemaphoreSet, i: int)
    requires
        s.wf(),
        0 <= i < s@.len(),
    ensures
        s@[i].1.count > 0 ==> s@[i].1.waiters@.len() == 0,
        s@[i].1.waiters@.len() > 0 ==> s@[i].1.count == 0,
{
}

/// A key that the scan never found does not occur at all.
proof fn lemma_key_index_none_means_absent(sems: Seq<(u32, Semaphore)>, key: u32)
    requires
        spec_key_index(sems, 0, key) is None,
    ensures
        forall|i: int| 0 <= i < sems.len() ==> (#[trigger] sems[i].0) != key,
{
    lemma_key_index_none_rec(sems, 0, key);
}

proof fn lemma_key_index_none_rec(sems: Seq<(u32, Semaphore)>, i: int, key: u32)
    requires
        0 <= i <= sems.len(),
        spec_key_index(sems, i, key) is None,
    ensures
        forall|j: int| i <= j < sems.len() ==> (#[trigger] sems[j].0) != key,
    decreases sems.len() - i,
{
    if i < sems.len() {
        lemma_key_index_none_rec(sems, i + 1, key);
    }
}

/// Appending a new key to a set leaves it findable.
proof fn lemma_key_index_extend(before: Seq<(u32, Semaphore)>, after: Seq<(u32, Semaphore)>, key: u32)
    requires
        after.len() == before.len() + 1,
        after.subrange(0, before.len() as int) == before,
        after.last().0 == key,
    ensures
        spec_key_index(after, 0, key) is Some,
{
    lemma_key_index_finds(after, 0, key);
}

proof fn lemma_key_index_finds(sems: Seq<(u32, Semaphore)>, i: int, key: u32)
    requires
        0 <= i <= sems.len(),
        exists|j: int| i <= j < sems.len() && (#[trigger] sems[j].0) == key,
    ensures
        spec_key_index(sems, i, key) is Some,
    decreases sems.len() - i,
{
    if i < sems.len() && sems[i].0 != key {
        let j = choose|j: int| i <= j < sems.len() && (#[trigger] sems[j].0) == key;
        assert(i + 1 <= j);
        lemma_key_index_finds(sems, i + 1, key);
    }
}

/// Changing one semaphore's payload, keeping its key, preserves the set's
/// invariant as long as the new payload itself observes it.
proof fn lemma_wf_update(before: Seq<(u32, Semaphore)>, after: Seq<(u32, Semaphore)>, i: int)
    requires
        0 <= i < before.len(),
        after.len() == before.len(),
        after[i].0 == before[i].0,
        forall|j: int| 0 <= j < before.len() && j != i ==> after[j] == before[j],
        forall|a: int, b: int|
            0 <= a < b < before.len() ==> (#[trigger] before[a].0) != (#[trigger] before[b].0),
        forall|a: int|
            0 <= a < before.len() ==> ((#[trigger] before[a].1).count > 0 ==> before[a].1.waiters@.len()
                == 0),
        after[i].1.count > 0 ==> after[i].1.waiters@.len() == 0,
    ensures
        forall|a: int, b: int|
            0 <= a < b < after.len() ==> (#[trigger] after[a].0) != (#[trigger] after[b].0),
        forall|a: int|
            0 <= a < after.len() ==> ((#[trigger] after[a].1).count > 0 ==> after[a].1.waiters@.len()
                == 0),
{
    assert forall|a: int, b: int| 0 <= a < b < after.len() implies (#[trigger] after[a].0) != (
    #[trigger] after[b].0) by {
        assert(after[a].0 == before[a].0 && after[b].0 == before[b].0);
    }
}

} // verus!
