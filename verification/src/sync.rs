//! Synchronization primitives as state machines over task ids: a mutex
//! with hand-off, a counting semaphore and a condition variable. Each
//! method reports which sleeper, if any, the caller must wake; the
//! scheduler performs the blocking and waking.

use vstd::prelude::*;

verus! {

/// A mutex: locked or not, plus a FIFO queue of waiting task ids. On
/// unlock, ownership is handed straight to the first waiter. The blocking
/// variant parks waiters; the spin variant yields and retries — the
/// contract is the same either way.
pub struct Mutex {
    /// Whether waiters block (true) or spin-yield (false).
    pub blocking: bool,
    /// Whether some thread holds the lock.
    pub locked: bool,
    /// Task ids waiting to take the lock, first come first served.
    pub wait_queue: Vec<usize>,
}

impl Mutex {
    /// Threads wait only while the lock is held.
    pub open spec fn wf(&self) -> bool {
        self.wait_queue@.len() > 0 ==> self.locked
    }

    /// An open mutex with no waiters.
    pub fn new(blocking: bool) -> (r: Mutex)
        ensures
            r.wf(),
            r.blocking == blocking,
            !r.locked,
            r.wait_queue@.len() == 0,
    {
        Mutex { blocking, locked: false, wait_queue: Vec::new() }
    }

    /// Try to take the lock for `task`: either it is free and now held,
    /// or `task` queues up and must block.
    pub fn lock(&mut self, task: usize) -> (acquired: bool)
        requires
            old(self).wf(),
        ensures
            final(self).wf(),
            acquired == !old(self).locked,
            final(self).locked,
            acquired ==> final(self).wait_queue@ == old(self).wait_queue@,
            !acquired ==> final(self).wait_queue@ == old(self).wait_queue@.push(task),
    {
        if !self.locked {
            self.locked = true;
            true
        } else {
            self.wait_queue.push(task);
            false
        }
    }

    /// Release the lock: the first waiter, if any, receives it directly
    /// and must be woken; otherwise the lock opens.
    pub fn unlock(&mut self) -> (wake: Option<usize>)
        requires
            old(self).wf(),
            old(self).locked,
        ensures
            final(self).wf(),
            old(self).wait_queue@.len() == 0 ==> wake is None && !final(self).locked
                && final(self).wait_queue@.len() == 0,
            old(self).wait_queue@.len() > 0 ==> {
                &&& wake == Some(old(self).wait_queue@[0])
                &&& final(self).locked
                &&& final(self).wait_queue@ == old(self).wait_queue@.drop_first()
            },
    {
        if self.wait_queue.len() > 0 {
            let head = self.wait_queue.remove(0);
            Some(head)
        } else {
            self.locked = false;
            None
        }
    }
}

/// A counting semaphore with a FIFO wait queue.
pub struct Semaphore {
    /// How many permits are free.
    pub count: usize,
    /// Task ids blocked on a permit, first come first served.
    pub wait_queue: Vec<usize>,
}

impl Semaphore {
    /// Threads wait only while no permit is free.
    pub open spec fn wf(&self) -> bool {
        self.wait_queue@.len() > 0 ==> self.count == 0
    }

    /// A semaphore with `count` free permits.
    pub fn new(count: usize) -> (r: Semaphore)
        ensures
            r.wf(),
            r.count == count,
            r.wait_queue@.len() == 0,
    {
        Semaphore { count, wait_queue: Vec::new() }
    }

    /// Release a permit: the first waiter, if any, consumes it at once
    /// and must be woken; otherwise the count grows.
    pub fn up(&mut self) -> (wake: Option<usize>)
        requires
            old(self).wf(),
            old(self).count < usize::MAX,
        ensures
            final(self).wf(),
            old(self).wait_queue@.len() == 0 ==> wake is None && final(self).count == old(
                self,
            ).count + 1 && final(self).wait_queue@ == old(self).wait_queue@,
            old(self).wait_queue@.len() > 0 ==> {
                &&& wake == Some(old(self).wait_queue@[0])
                &&& final(self).count == old(self).count
                &&& final(self).wait_queue@ == old(self).wait_queue@.drop_first()
            },
    {
        if self.wait_queue.len() > 0 {
            let head = self.wait_queue.remove(0);
            Some(head)
        } else {
            self.count = self.count + 1;
            None
        }
    }

    /// Take a permit for `task`: either one is free and the count drops,
    /// or `task` queues up and must block.
    pub fn down(&mut self, task: usize) -> (acquired: bool)
        requires
            old(self).wf(),
        ensures
            final(self).wf(),
            acquired == (old(self).count > 0),
            acquired ==> final(self).count == old(self).count - 1 && final(self).wait_queue@
                == old(self).wait_queue@,
            !acquired ==> final(self).count == 0 && final(self).wait_queue@ == old(
                self,
            ).wait_queue@.push(task),
    {
        if self.count > 0 {
            self.count = self.count - 1;
            true
        } else {
            self.wait_queue.push(task);
            false
        }
    }
}

/// A condition variable: a FIFO queue of task ids waiting for a signal.
pub struct Condvar {
    /// Task ids blocked on the condition, first come first served.
    pub wait_queue: Vec<usize>,
}

impl Condvar {
    /// A condition variable with no waiters.
    pub fn new() -> (r: Condvar)
        ensures
            r.wait_queue@.len() == 0,
    {
        Condvar { wait_queue: Vec::new() }
    }

    /// Queue `task` on the condition; the caller releases the mutex and
    /// blocks, and on wakeup takes the mutex again.
    pub fn wait_enqueue(&mut self, task: usize)
        ensures
            final(self).wait_queue@ == old(self).wait_queue@.push(task),
    {
        self.wait_queue.push(task);
    }

    /// Wake the first waiter, if any.
    pub fn signal(&mut self) -> (wake: Option<usize>)
        ensures
            old(self).wait_queue@.len() == 0 ==> wake is None && final(self).wait_queue@ == old(
                self,
            ).wait_queue@,
            old(self).wait_queue@.len() > 0 ==> {
                &&& wake == Some(old(self).wait_queue@[0])
                &&& final(self).wait_queue@ == old(self).wait_queue@.drop_first()
            },
    {
        if self.wait_queue.len() > 0 {
            let head = self.wait_queue.remove(0);
            Some(head)
        } else {
            None
        }
    }
}

/// Law: a permit released while someone waits goes to the first waiter,
/// never into the count — so after `up` then `down` by a fresh thread,
/// that thread queues behind the woken one rather than stealing the
/// permit.
pub proof fn lemma_semaphore_hand_off(s0: Semaphore, s1: Semaphore, woken: usize)
    requires
        s0.wf(),
        s0.wait_queue@.len() > 0,
        // what `up` ensured
        s1.count == s0.count,
        s1.wait_queue@ == s0.wait_queue@.drop_first(),
        woken == s0.wait_queue@[0],
    ensures
        s1.count == 0,
        s1.wait_queue@.len() == s0.wait_queue@.len() - 1,
{
}

} // verus!
