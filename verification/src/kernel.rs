//! The kernel's shared state and the scheduler-level operations that the
//! trap path invokes: yielding, blocking, waking, sleeping and exiting.

use vstd::prelude::*;
use crate::process::{ProcessTable, IDLE_PID};
use crate::task::{TaskManager, TaskStatus};
use crate::timer::TimerQueue;

verus! {

/// The kernel's mutable state: the thread arena with its ready queue, the
/// process table and the pending sleep timers.
pub struct Kernel {
    /// Threads and the ready queue.
    pub tasks: TaskManager,
    /// Processes by pid.
    pub processes: ProcessTable,
    /// Pending wakeups.
    pub timers: TimerQueue,
}

impl Kernel {
    /// All three components are well formed.
    pub open spec fn wf(&self) -> bool {
        &&& self.tasks.wf()
        &&& self.processes.wf()
        &&& self.timers.wf()
    }

    /// A kernel with no process, no thread and no timer.
    pub fn init() -> (r: Kernel)
        ensures
            r.wf(),
            r.tasks.spec_tasks().len() == 0,
            r.processes.spec_processes().len() == 0,
            r.timers.spec_timers().len() == 0,
    {
        Kernel {
            tasks: TaskManager::new(),
            processes: ProcessTable::new(),
            timers: TimerQueue::new(),
        }
    }

    /// Create the initial process in slot `IDLE_PID`.
    pub fn add_initproc(&mut self) -> (pid: usize)
        requires
            old(self).wf(),
            old(self).processes.spec_processes().len() == 0,
        ensures
            final(self).wf(),
            pid == IDLE_PID,
            final(self).processes.spec_processes()[IDLE_PID as int] is Some,
            final(self).tasks == old(self).tasks,
            final(self).timers == old(self).timers,
    {
        let pid = self.processes.insert_new_process();
        proof {
            assert(pid == 0);
        }
        pid
    }

    /// Move the running thread to the tail of the FIFO ready queue and
    /// run the head: the yielded thread is `Ready` at the back, so it runs
    /// again only after everything that was ahead of it.
    pub fn suspend_current_and_run_next(&mut self) -> (next: Option<usize>)
        requires
            old(self).wf(),
            old(self).tasks.spec_current() is Some,
        ensures
            final(self).wf(),
            final(self).processes == old(self).processes,
            final(self).timers == old(self).timers,
            final(self).tasks.spec_tasks().len() == old(self).tasks.spec_tasks().len(),
            // the queue with the yielded thread appended loses its head,
            // which now runs
            next == Some(
                old(self).tasks.spec_ready().push(old(self).tasks.spec_current()->Some_0)[0],
            ),
            final(self).tasks.spec_current() == next,
            final(self).tasks.spec_ready() == old(self).tasks.spec_ready().push(
                old(self).tasks.spec_current()->Some_0,
            ).drop_first(),
            final(self).tasks.spec_tasks()[next->Some_0 as int].task_status
                == TaskStatus::Running,
            old(self).tasks.spec_current()->Some_0 != next->Some_0 ==> final(self).tasks.spec_tasks()[old(self).tasks.spec_current()->Some_0 as int].task_status
                == TaskStatus::Ready,
            crate::task::same_but_status(
                old(self).tasks.spec_tasks()[old(self).tasks.spec_current()->Some_0 as int],
                final(self).tasks.spec_tasks()[old(self).tasks.spec_current()->Some_0 as int],
            ),
            crate::task::same_but_status(
                old(self).tasks.spec_tasks()[next->Some_0 as int],
                final(self).tasks.spec_tasks()[next->Some_0 as int],
            ),
            forall|t: int|
                0 <= t < old(self).tasks.spec_tasks().len() && t != old(
                    self,
                ).tasks.spec_current()->Some_0 && t != next->Some_0
                    ==> final(self).tasks.spec_tasks()[t] == old(self).tasks.spec_tasks()[t],
    {
        self.tasks.suspend_current();
        let next = self.tasks.schedule_next();
        proof {
            assert(next is Some);
        }
        next
    }

    /// Move the running thread to `Blocked` — a wait queue or timer now
    /// holds it — and run the head of the ready queue, if any.
    pub fn block_current_and_run_next(&mut self) -> (next: Option<usize>)
        requires
            old(self).wf(),
            old(self).tasks.spec_current() is Some,
        ensures
            final(self).wf(),
            final(self).processes == old(self).processes,
            final(self).timers == old(self).timers,
            final(self).tasks.spec_tasks().len() == old(self).tasks.spec_tasks().len(),
            final(self).tasks.spec_tasks()[old(self).tasks.spec_current()->Some_0 as int]
                .task_status == TaskStatus::Blocked,
            crate::task::same_but_status(
                old(self).tasks.spec_tasks()[old(self).tasks.spec_current()->Some_0 as int],
                final(self).tasks.spec_tasks()[old(self).tasks.spec_current()->Some_0 as int],
            ),
            final(self).tasks.spec_current() == next,
            old(self).tasks.spec_ready().len() == 0 ==> next is None && final(self).tasks.spec_ready().len() == 0,
            old(self).tasks.spec_ready().len() > 0 ==> {
                &&& next == Some(old(self).tasks.spec_ready()[0])
                &&& final(self).tasks.spec_ready() == old(self).tasks.spec_ready().drop_first()
                &&& final(self).tasks.spec_tasks()[next->Some_0 as int].task_status
                    == TaskStatus::Running
            },
            forall|t: int|
                0 <= t < old(self).tasks.spec_tasks().len() && t != old(
                    self,
                ).tasks.spec_current()->Some_0 && (next matches Some(n) ==> t != n)
                    ==> final(self).tasks.spec_tasks()[t] == old(self).tasks.spec_tasks()[t],
    {
        self.tasks.block_current();
        self.tasks.schedule_next()
    }

    /// Register a wakeup for the running thread at `expire_ms` — the timer
    /// queue gains exactly that entry, in deadline order — and block the
    /// thread; `check_timer` wakes it once the deadline passes.
    pub fn sleep_current(&mut self, expire_ms: usize) -> (next: Option<usize>)
        requires
            old(self).wf(),
            old(self).tasks.spec_current() is Some,
        ensures
            final(self).wf(),
            final(self).processes == old(self).processes,
            final(self).tasks.spec_tasks().len() == old(self).tasks.spec_tasks().len(),
            final(self).tasks.spec_tasks()[old(self).tasks.spec_current()->Some_0 as int]
                .task_status == TaskStatus::Blocked,
            final(self).tasks.spec_current() == next,
            // the wakeup is armed: the sleeper's entry stands in the queue
            // behind every deadline at most its own
            exists|p: int|
                {
                    &&& 0 <= p <= old(self).timers.spec_timers().len()
                    &&& (forall|k: int|
                        0 <= k < p ==> (#[trigger] old(self).timers.spec_timers()[k]).expire_ms
                            <= expire_ms)
                    &&& (forall|k: int|
                        p <= k < old(self).timers.spec_timers().len() ==> (#[trigger] old(
                            self,
                        ).timers.spec_timers()[k]).expire_ms > expire_ms)
                    &&& final(self).timers.spec_timers() == old(
                        self,
                    ).timers.spec_timers().insert(
                        p,
                        crate::timer::TimerCondVar {
                            expire_ms,
                            task: old(self).tasks.spec_current()->Some_0,
                        },
                    )
                },
    {
        let id = self.tasks.current_task().unwrap();
        self.timers.add_timer(expire_ms, id);
        self.block_current_and_run_next()
    }

    /// Wake a blocked thread.
    pub fn wakeup_task(&mut self, id: usize)
        requires
            old(self).wf(),
            id < old(self).tasks.spec_tasks().len(),
            old(self).tasks.spec_tasks()[id as int].task_status == TaskStatus::Blocked,
        ensures
            final(self).wf(),
            final(self).processes == old(self).processes,
            final(self).timers == old(self).timers,
            final(self).tasks.spec_tasks()[id as int].task_status == TaskStatus::Ready,
            crate::task::same_but_status(
                old(self).tasks.spec_tasks()[id as int],
                final(self).tasks.spec_tasks()[id as int],
            ),
            final(self).tasks.spec_ready() == old(self).tasks.spec_ready().push(id),
            final(self).tasks.spec_current() == old(self).tasks.spec_current(),
            forall|t: int|
                0 <= t < old(self).tasks.spec_tasks().len() && t != id
                    ==> final(self).tasks.spec_tasks()[t] == old(self).tasks.spec_tasks()[t],
    {
        self.tasks.wakeup_task(id);
    }

    /// Fire every wakeup due by `now` and make its sleeper ready again.
    /// Returns how many threads woke.
    pub fn check_timer(&mut self, now: usize) -> (n: usize)
        requires
            old(self).wf(),
            forall|k: int|
                0 <= k < old(self).timers.spec_timers().len() ==> {
                    &&& (#[trigger] old(self).timers.spec_timers()[k].task as int) < old(
                        self,
                    ).tasks.spec_tasks().len()
                    &&& old(self).tasks.spec_tasks()[old(self).timers.spec_timers()[
                        k].task as int].task_status == TaskStatus::Blocked
                },
        ensures
            final(self).wf(),
            final(self).processes == old(self).processes,
            forall|k: int|
                0 <= k < final(self).timers.spec_timers().len()
                    ==> (#[trigger] final(self).timers.spec_timers()[k]).expire_ms > now,
            n <= old(self).timers.spec_timers().len(),
            // every sleeper that was due is ready to run again
            forall|k: int|
                0 <= k < n ==> final(self).tasks.spec_tasks()[(#[trigger] old(
                    self,
                ).timers.spec_timers()[k]).task as int].task_status == TaskStatus::Ready,
    {
        let woken = self.timers.check_timer(now);
        let mut k: usize = 0;
        let ghost t0 = *old(self);
        let ghost tq_after = self.timers;
        while k < woken.len()
            invariant
                k <= woken@.len(),
                self.wf(),
                self.processes == t0.processes,
                self.timers == tq_after,
                forall|q: int|
                    0 <= q < tq_after.spec_timers().len()
                        ==> (#[trigger] tq_after.spec_timers()[q]).expire_ms > now,
                self.tasks.spec_tasks().len() == t0.tasks.spec_tasks().len(),
                forall|q: int|
                    0 <= q < woken@.len() ==> #[trigger] woken@[q] == t0.timers.spec_timers()[
                        q].task,
                forall|q: int|
                    0 <= q < t0.timers.spec_timers().len() ==> {
                        &&& (#[trigger] t0.timers.spec_timers()[q].task as int) < t0
                            .tasks.spec_tasks().len()
                        &&& t0.tasks.spec_tasks()[t0.timers.spec_timers()[q].task as int]
                            .task_status == TaskStatus::Blocked
                    },
                woken@.len() <= t0.timers.spec_timers().len(),
                forall|q: int|
                    0 <= q < k ==> self.tasks.spec_tasks()[(#[trigger] t0
                        .timers.spec_timers()[q]).task as int].task_status == TaskStatus::Ready,
                forall|t: int|
                    0 <= t < self.tasks.spec_tasks().len()
                        ==> (#[trigger] self.tasks.spec_tasks()[t]).task_status == t0
                        .tasks.spec_tasks()[t].task_status || self.tasks.spec_tasks()[t]
                        .task_status == TaskStatus::Ready,
            decreases woken@.len() - k,
        {
            let id = woken[k];
            let ghost tpre = self.tasks;
            if self.tasks.status_of(id) == TaskStatus::Blocked {
                self.tasks.wakeup_task(id);
            }
            proof {
                assert forall|q: int| 0 <= q < k + 1 implies self.tasks.spec_tasks()[(
                #[trigger] t0.timers.spec_timers()[q]).task as int].task_status
                    == TaskStatus::Ready by {
                    let tq = t0.timers.spec_timers()[q].task as int;
                    if q < k {
                        if tq != id {
                            assert(self.tasks.spec_tasks()[tq] == tpre.spec_tasks()[tq]);
                        }
                    } else {
                        assert(tq == id as int);
                    }
                }
            }
            k += 1;
        }
        woken.len()
    }

    /// Drop a thread from the ready queue and withdraw its timers; used
    /// when its process dies while the thread still waits. Every other
    /// thread keeps its place in both.
    pub fn remove_inactive_task(&mut self, id: usize)
        requires
            old(self).wf(),
        ensures
            final(self).wf(),
            final(self).processes == old(self).processes,
            final(self).tasks.spec_tasks() == old(self).tasks.spec_tasks(),
            final(self).tasks.spec_current() == old(self).tasks.spec_current(),
            final(self).tasks.spec_ready() == old(self).tasks.spec_ready().filter(
                (|q: usize| q != id),
            ),
            !final(self).tasks.spec_ready().contains(id),
            forall|x: usize|
                final(self).tasks.spec_ready().contains(x) ==> old(
                    self,
                ).tasks.spec_ready().contains(x),
            final(self).timers.spec_timers() == old(self).timers.spec_timers().filter(
                (|t: crate::timer::TimerCondVar| t.task != id),
            ),
            forall|k: int|
                0 <= k < final(self).timers.spec_timers().len()
                    ==> (#[trigger] final(self).timers.spec_timers()[k]).task != id,
            forall|k: int|
                0 <= k < final(self).timers.spec_timers().len() ==> old(
                    self,
                ).timers.spec_timers().contains(#[trigger] final(self).timers.spec_timers()[k]),
    {
        self.tasks.remove_task(id);
        self.timers.remove_timer(id);
    }

    /// The error code of a fatal signal pending on the running thread's
    /// process, if any: the lowest-numbered pending signal's negated
    /// number. Nothing changes.
    pub fn check_signals_of_current(&self) -> (r: Option<i32>)
        requires
            self.wf(),
            self.tasks.spec_current() is Some,
            current_process_live(self),
        ensures
            r == crate::process::signal_error_code(
                self.processes.proc_of(current_pid(self)).signals.bits,
            ),
    {
        let id = self.tasks.current_task().unwrap();
        let pid = self.tasks.process_of(id);
        let signals = self.processes.signals_of(pid);
        signals.check_error()
    }

    /// Flag the running thread's process with a signal.
    pub fn current_add_signal(&mut self, signal: u32)
        requires
            old(self).wf(),
            old(self).tasks.spec_current() is Some,
            current_process_live(old(self)),
        ensures
            final(self).wf(),
            final(self).tasks == old(self).tasks,
            final(self).timers == old(self).timers,
            current_process_live(final(self)),
            final(self).processes.spec_processes().len() == old(
                self,
            ).processes.spec_processes().len(),
            final(self).processes.proc_of(current_pid(old(self))).signals.bits == old(
                self,
            ).processes.proc_of(current_pid(old(self))).signals.bits | signal,
            // only the signal word of the running process moves
            crate::process::same_but_signals(
                old(self).processes.proc_of(current_pid(old(self))),
                final(self).processes.proc_of(current_pid(old(self))),
            ),
            forall|p: int|
                0 <= p < old(self).processes.spec_processes().len() && p != current_pid(
                    old(self),
                ) ==> #[trigger] final(self).processes.spec_processes()[p] == old(
                    self,
                ).processes.spec_processes()[p],
    {
        let id = self.tasks.current_task().unwrap();
        let pid = self.tasks.process_of(id);
        self.processes.add_signal(pid, signal);
    }

    /// Retire the running thread with `code`: its exit code is recorded,
    /// its user resources are taken away, and it stops being current —
    /// its kernel stack and arena slot persist until it is reaped. When it
    /// is its process's main thread, the process dies with it: the block
    /// becomes a zombie holding the code, its file table and thread list
    /// are dropped, its children move to the initial process with their
    /// parent links re-pointed, and every thread of the process is
    /// scrubbed from the ready queue and the timers. The head of the
    /// ready queue runs next.
    pub fn exit_current_and_run_next(&mut self, code: i32) -> (next: Option<usize>)
        requires
            old(self).wf(),
            old(self).tasks.spec_current() is Some,
            current_process_live(old(self)),
            current_tcb(old(self)).res is Some,
            current_pid(old(self)) != IDLE_PID,
            IDLE_PID < old(self).processes.spec_processes().len(),
            old(self).processes.spec_processes()[IDLE_PID as int] is Some,
            forall|q: int|
                0 <= q < old(self).processes.proc_of(current_pid(old(self))).children@.len()
                    ==> {
                    &&& (#[trigger] old(self).processes.proc_of(
                        current_pid(old(self)),
                    ).children@[q] as int) < old(self).processes.spec_processes().len()
                    &&& old(self).processes.proc_of(current_pid(old(self))).children@[q]
                        != current_pid(old(self))
                    &&& old(self).processes.proc_of(current_pid(old(self))).children@[q]
                        != IDLE_PID
                    &&& old(self).processes.spec_processes()[old(self).processes.proc_of(
                        current_pid(old(self)),
                    ).children@[q] as int] is Some
                },
        ensures
            final(self).wf(),
            final(self).tasks.spec_tasks().len() == old(self).tasks.spec_tasks().len(),
            // the retired thread: code recorded, resources gone, off the
            // processor; kernel stack and arena slot persist
            final(self).tasks.spec_tasks()[old(self).tasks.spec_current()->Some_0 as int]
                .exit_code == Some(code),
            final(self).tasks.spec_tasks()[old(self).tasks.spec_current()->Some_0 as int].res
                is None,
            final(self).tasks.spec_tasks()[old(self).tasks.spec_current()->Some_0 as int]
                .task_status == TaskStatus::Blocked,
            final(self).tasks.spec_tasks()[old(self).tasks.spec_current()->Some_0 as int]
                .process == current_tcb(old(self)).process,
            final(self).tasks.spec_tasks()[old(self).tasks.spec_current()->Some_0 as int]
                .kstack == current_tcb(old(self)).kstack,
            final(self).tasks.spec_current() == next,
            next matches Some(c) ==> c != old(self).tasks.spec_current()->Some_0,
            // a non-main thread takes nothing else with it
            current_tcb(old(self)).res->Some_0.tid != 0 ==> {
                &&& final(self).processes == old(self).processes
                &&& final(self).timers == old(self).timers
                &&& (old(self).tasks.spec_ready().len() == 0 ==> next is None)
                &&& (old(self).tasks.spec_ready().len() > 0 ==> next == Some(
                    old(self).tasks.spec_ready()[0],
                ) && final(self).tasks.spec_ready() == old(
                    self,
                ).tasks.spec_ready().drop_first())
            },
            // the main thread kills the process
            current_tcb(old(self)).res->Some_0.tid == 0 ==> {
                &&& final(self).processes.spec_processes()[current_pid(old(self))] is Some
                &&& final(self).processes.proc_of(current_pid(old(self))).is_zombie
                &&& final(self).processes.proc_of(current_pid(old(self))).exit_code == code
                &&& final(self).processes.proc_of(current_pid(old(self))).tasks@.len() == 0
                &&& final(self).processes.proc_of(current_pid(old(self))).fd_table@.len() == 0
                &&& final(self).processes.proc_of(current_pid(old(self))).children@.len() == 0
                &&& final(self).processes.proc_of(IDLE_PID as int).children@ == old(
                    self,
                ).processes.proc_of(IDLE_PID as int).children@ + old(self).processes.proc_of(
                    current_pid(old(self)),
                ).children@
                // each orphan now names the initial process as its parent
                &&& (forall|q: int|
                    0 <= q < old(self).processes.proc_of(
                        current_pid(old(self)),
                    ).children@.len() ==> crate::process::adopted(
                        old(self).processes.proc_of((#[trigger] old(self).processes.proc_of(
                            current_pid(old(self)),
                        ).children@[q]) as int),
                        final(self).processes.proc_of(old(self).processes.proc_of(
                            current_pid(old(self)),
                        ).children@[q] as int),
                    ))
                // no thread of the dead process stays in the ready queue
                // or the timers
                &&& (forall|q: int|
                    0 <= q < old(self).processes.proc_of(current_pid(old(self))).tasks@.len()
                        && (#[trigger] old(self).processes.proc_of(
                        current_pid(old(self)),
                    ).tasks@[q]) is Some ==> !final(self).tasks.spec_ready().contains(
                        old(self).processes.proc_of(
                            current_pid(old(self)),
                        ).tasks@[q]->Some_0,
                    ) && (forall|m: int|
                        0 <= m < final(self).timers.spec_timers().len()
                            ==> (#[trigger] final(self).timers.spec_timers()[m]).task != old(
                            self,
                        ).processes.proc_of(current_pid(old(self))).tasks@[q]->Some_0))
            },
    {
        let id = self.tasks.current_task().unwrap();
        let pid = self.tasks.process_of(id);
        let tid = self.tasks.tid_of(id);
        let ghost slots = old(self).processes.proc_of(pid as int).tasks@;
        self.tasks.exit_current(code);
        if tid == 0 {
            // scrub every thread of the dying process
            let n = self.processes.thread_count_of(pid);
            let mut k: usize = 0;
            while k < n
                invariant
                    self.wf(),
                    pid < self.processes.spec_processes().len(),
                    self.processes.spec_processes()[pid as int] is Some,
                    n == self.processes.proc_of(pid as int).tasks@.len(),
                    slots == self.processes.proc_of(pid as int).tasks@,
                    k <= n,
                    pid != IDLE_PID,
                    IDLE_PID < self.processes.spec_processes().len(),
                    self.processes.spec_processes()[IDLE_PID as int] is Some,
                    self.processes == old(self).processes,
                    self.tasks.spec_current() is None,
                    (id as int) < self.tasks.spec_tasks().len(),
                    self.tasks.spec_tasks().len() == old(self).tasks.spec_tasks().len(),
                    self.tasks.spec_tasks()[id as int].exit_code == Some(code),
                    self.tasks.spec_tasks()[id as int].task_status == TaskStatus::Blocked,
                    self.tasks.spec_tasks()[id as int].res is None,
                    self.tasks.spec_tasks()[id as int].process == current_tcb(
                        old(self),
                    ).process,
                    self.tasks.spec_tasks()[id as int].kstack == current_tcb(old(self)).kstack,
                    forall|q: int|
                        0 <= q < k && (#[trigger] slots[q]) is Some ==> !self
                            .tasks.spec_ready().contains(slots[q]->Some_0) && (forall|m: int|
                            0 <= m < self.timers.spec_timers().len()
                                ==> (#[trigger] self.timers.spec_timers()[m]).task != slots[
                                q]->Some_0),
                decreases n - k,
            {
                let entry = self.processes.task_of(pid, k);
                let ghost tpre = self.tasks;
                let ghost qpre = self.timers;
                if let Some(task_id) = entry {
                    self.remove_inactive_task(task_id);
                }
                proof {
                    assert forall|q: int|
                        0 <= q < k + 1 && (#[trigger] slots[q]) is Some implies !self
                        .tasks.spec_ready().contains(slots[q]->Some_0) && (forall|m: int|
                        0 <= m < self.timers.spec_timers().len()
                            ==> (#[trigger] self.timers.spec_timers()[m]).task != slots[
                            q]->Some_0) by {
                        let tk = slots[q]->Some_0;
                        if q < k {
                            assert(!tpre.spec_ready().contains(tk));
                            if self.tasks.spec_ready().contains(tk) {
                                assert(tpre.spec_ready().contains(tk));
                            }
                            assert forall|m: int|
                                0 <= m < self.timers.spec_timers().len() implies (
                            #[trigger] self.timers.spec_timers()[m]).task != tk by {
                                if entry is Some {
                                    assert(qpre.spec_timers().contains(
                                        self.timers.spec_timers()[m],
                                    ));
                                    let w = choose|w: int|
                                        0 <= w < qpre.spec_timers().len()
                                            && qpre.spec_timers()[w]
                                            == self.timers.spec_timers()[m];
                                    assert(qpre.spec_timers()[w].task != tk);
                                }
                            }
                        }
                    }
                }
                k += 1;
            }
            self.processes.zombify(pid, code);
        }
        let ghost pre = self.tasks;
        let ghost qfin = self.timers;
        proof {
            if self.tasks.spec_ready().len() > 0 {
                assert(self.tasks.spec_tasks()[self.tasks.spec_ready()[0] as int].task_status
                    == TaskStatus::Ready);
                assert(self.tasks.spec_tasks()[id as int].task_status == TaskStatus::Blocked);
                assert(self.tasks.spec_ready()[0] != id);
            }
        }
        let next = self.tasks.schedule_next();
        proof {
            if next is Some {
                assert(next->Some_0 == pre.spec_ready()[0]);
                assert(pre.spec_tasks()[next->Some_0 as int].task_status == TaskStatus::Ready);
                assert(pre.spec_tasks()[id as int].task_status == TaskStatus::Blocked);
                assert(next->Some_0 != id);
                assert(0 <= (id as int) < pre.spec_tasks().len());
                assert((id as int) != (next->Some_0 as int));
                assert(self.tasks.spec_tasks()[id as int] == pre.spec_tasks()[id as int]);
            }
            assert(self.tasks.spec_tasks()[id as int].exit_code == Some(code));
            if tid == 0 {
                // scrubbed threads stay out after the head of the queue
                // was popped
                assert forall|q: int|
                    0 <= q < slots.len() && (#[trigger] slots[q]) is Some implies !self
                    .tasks.spec_ready().contains(slots[q]->Some_0) && (forall|m: int|
                    0 <= m < self.timers.spec_timers().len()
                        ==> (#[trigger] self.timers.spec_timers()[m]).task != slots[
                        q]->Some_0) by {
                    let tk = slots[q]->Some_0;
                    assert(!pre.spec_ready().contains(tk));
                    if self.tasks.spec_ready().contains(tk) {
                        let m = choose|m: int|
                            0 <= m < self.tasks.spec_ready().len()
                                && self.tasks.spec_ready()[m] == tk;
                        assert(pre.spec_ready()[m + 1] == tk);
                        assert(pre.spec_ready().contains(tk));
                    }
                    assert(self.timers == qfin);
                }
            }
        }
        next
    }
}

/// The process of the running thread.
pub open spec fn current_pid(k: &Kernel) -> int {
    current_tcb(k).process as int
}

/// The running thread's control block.
pub open spec fn current_tcb(k: &Kernel) -> crate::task::TaskControlBlock {
    k.tasks.spec_tasks()[k.tasks.spec_current()->Some_0 as int]
}

/// The running thread's process is live in the table.
pub open spec fn current_process_live(k: &Kernel) -> bool {
    &&& k.tasks.spec_current() matches Some(c) && (c as int) < k.tasks.spec_tasks().len()
    &&& current_pid(k) < k.processes.spec_processes().len()
    &&& k.processes.spec_processes()[current_pid(k)] is Some
}

} // verus!
