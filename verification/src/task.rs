//! Thread control blocks and the scheduler's ready queue.
//!
//! Threads live in an arena indexed by a task id; the ready queue and the
//! running slot hold ids. The scheduler invariant ties status to place:
//! every queued thread is `Ready`, the running thread is `Running` and is
//! the only one, and a `Blocked` thread sits in neither.

use vstd::prelude::*;

verus! {

/// Where a thread stands with the scheduler.
#[derive(Clone, Copy, PartialEq, Eq, Structural, Debug)]
pub enum TaskStatus {
    Ready,
    Running,
    Blocked,
}

/// The per-thread user-space resources: thread id within its process and
/// the base of its user stack.
pub struct TaskUserRes {
    /// Thread id within the owning process.
    pub tid: usize,
    /// Base virtual address of this thread's user stack.
    pub ustack_base: usize,
}

/// A thread control block.
pub struct TaskControlBlock {
    /// Pid of the owning process.
    pub process: usize,
    /// Kernel-stack id owned by this thread.
    pub kstack: usize,
    /// Physical page number of this thread's trap context.
    pub trap_cx_ppn: usize,
    /// User resources; taken away when the thread exits.
    pub res: Option<TaskUserRes>,
    /// Where the thread stands with the scheduler.
    pub task_status: TaskStatus,
    /// Set once the thread has exited, holding its exit code.
    pub exit_code: Option<i32>,
}

impl TaskControlBlock {
    /// A fresh thread, ready to run.
    pub fn new(process: usize, kstack: usize, trap_cx_ppn: usize, res: TaskUserRes) -> (r:
        TaskControlBlock)
        ensures
            r.process == process,
            r.kstack == kstack,
            r.trap_cx_ppn == trap_cx_ppn,
            r.res matches Some(u) && u.tid == res.tid && u.ustack_base == res.ustack_base,
            r.task_status == TaskStatus::Ready,
            r.exit_code is None,
    {
        TaskControlBlock {
            process,
            kstack,
            trap_cx_ppn,
            res: Some(res),
            task_status: TaskStatus::Ready,
            exit_code: None,
        }
    }

    /// Pid of the owning process.
    pub fn getpid(&self) -> (r: usize)
        ensures
            r == self.process,
    {
        self.process
    }
}

/// The two blocks agree on every field but the scheduler status.
pub open spec fn same_but_status(a: TaskControlBlock, b: TaskControlBlock) -> bool {
    &&& a.process == b.process
    &&& a.kstack == b.kstack
    &&& a.trap_cx_ppn == b.trap_cx_ppn
    &&& a.res == b.res
    &&& a.exit_code == b.exit_code
}

/// The scheduler: the thread arena, the FIFO ready queue and the running
/// slot.
pub struct TaskManager {
    tasks: Vec<TaskControlBlock>,
    ready_queue: Vec<usize>,
    current: Option<usize>,
}

impl TaskManager {
    /// The thread arena.
    pub closed spec fn spec_tasks(&self) -> Seq<TaskControlBlock> {
        self.tasks@
    }

    /// The ready queue, head first.
    pub closed spec fn spec_ready(&self) -> Seq<usize> {
        self.ready_queue@
    }

    /// The running thread, if any.
    pub closed spec fn spec_current(&self) -> Option<usize> {
        self.current
    }

    /// The scheduler invariant: every queued thread is `Ready`, the queue
    /// holds no thread twice, the running thread is `Running`, and no
    /// other thread is `Running`.
    pub open spec fn wf(&self) -> bool {
        &&& forall|k: int|
            0 <= k < self.spec_ready().len() ==> (#[trigger] self.spec_ready()[k] as int)
                < self.spec_tasks().len() && self.spec_tasks()[self.spec_ready()[k] as int]
                .task_status == TaskStatus::Ready
        &&& self.spec_ready().no_duplicates()
        &&& (self.spec_current() matches Some(c) ==> (c as int) < self.spec_tasks().len()
            && self.spec_tasks()[c as int].task_status == TaskStatus::Running)
        &&& forall|t: int|
            0 <= t < self.spec_tasks().len() && (#[trigger] self.spec_tasks()[t]).task_status
                == TaskStatus::Running ==> (self.spec_current() matches Some(c) && c == t)
    }

    /// An empty scheduler.
    pub fn new() -> (r: TaskManager)
        ensures
            r.wf(),
            r.spec_tasks().len() == 0,
            r.spec_ready().len() == 0,
            r.spec_current() is None,
    {
        TaskManager { tasks: Vec::new(), ready_queue: Vec::new(), current: None }
    }

    /// How many threads the arena holds.
    pub fn task_count(&self) -> (r: usize)
        ensures
            r == self.spec_tasks().len(),
    {
        self.tasks.len()
    }

    /// Read a thread's status.
    pub fn status_of(&self, id: usize) -> (r: TaskStatus)
        requires
            id < self.spec_tasks().len(),
        ensures
            r == self.spec_tasks()[id as int].task_status,
    {
        self.tasks[id].task_status
    }

    /// The running thread's id, if any.
    pub fn current_task(&self) -> (r: Option<usize>)
        ensures
            r == self.spec_current(),
    {
        self.current
    }

    /// Pid of the process owning thread `id`.
    pub fn process_of(&self, id: usize) -> (r: usize)
        requires
            id < self.spec_tasks().len(),
        ensures
            r == self.spec_tasks()[id as int].process,
    {
        self.tasks[id].process
    }

    /// The tid of thread `id` within its process, while its user
    /// resources are still held.
    pub fn tid_of(&self, id: usize) -> (r: usize)
        requires
            id < self.spec_tasks().len(),
            self.spec_tasks()[id as int].res is Some,
        ensures
            r == self.spec_tasks()[id as int].res->Some_0.tid,
    {
        self.tasks[id].res.as_ref().unwrap().tid
    }

    /// Read a thread's exit code slot.
    pub fn exit_code_of(&self, id: usize) -> (r: Option<i32>)
        requires
            id < self.spec_tasks().len(),
        ensures
            r == self.spec_tasks()[id as int].exit_code,
    {
        self.tasks[id].exit_code
    }

    /// Put a new thread into the arena and onto the tail of the ready
    /// queue; returns its task id.
    pub fn add_task(&mut self, task: TaskControlBlock) -> (id: usize)
        requires
            old(self).wf(),
            task.task_status == TaskStatus::Ready,
        ensures
            final(self).wf(),
            id == old(self).spec_tasks().len(),
            final(self).spec_tasks() == old(self).spec_tasks().push(task),
            final(self).spec_ready() == old(self).spec_ready().push(id),
            final(self).spec_current() == old(self).spec_current(),
    {
        let id = self.tasks.len();
        self.tasks.push(task);
        proof {
            assert(!self.ready_queue@.contains(id)) by {
                if self.ready_queue@.contains(id) {
                    let k = choose|k: int|
                        0 <= k < self.ready_queue@.len() && self.ready_queue@[k] == id;
                    assert(old(self).spec_ready()[k] == id);
                }
            }
        }
        self.ready_queue.push(id);
        id
    }

    /// Pick the next thread: pop the head of the ready queue and mark it
    /// running. Nothing to pick exactly when the queue is empty.
    pub fn schedule_next(&mut self) -> (r: Option<usize>)
        requires
            old(self).wf(),
            old(self).spec_current() is None,
        ensures
            final(self).wf(),
            r is None <==> old(self).spec_ready().len() == 0,
            r is None ==> *final(self) == *old(self),
            r matches Some(id) ==> {
                &&& id == old(self).spec_ready()[0]
                &&& final(self).spec_ready() == old(self).spec_ready().drop_first()
                &&& final(self).spec_current() == Some(id)
                &&& final(self).spec_tasks().len() == old(self).spec_tasks().len()
                &&& final(self).spec_tasks()[id as int].task_status == TaskStatus::Running
                &&& same_but_status(
                    old(self).spec_tasks()[id as int],
                    final(self).spec_tasks()[id as int],
                )
                &&& forall|t: int|
                    0 <= t < old(self).spec_tasks().len() && t != id
                        ==> final(self).spec_tasks()[t] == old(self).spec_tasks()[t]
            },
    {
        if self.ready_queue.len() == 0 {
            return None;
        }
        let id = self.ready_queue.remove(0);
        let task: &mut TaskControlBlock = &mut self.tasks[id];
        task.task_status = TaskStatus::Running;
        self.current = Some(id);
        proof {
            assert forall|k: int| 0 <= k < self.spec_ready().len() implies (
            #[trigger] self.spec_ready()[k] as int) < self.spec_tasks().len()
                && self.spec_tasks()[self.spec_ready()[k] as int].task_status
                == TaskStatus::Ready by {
                assert(old(self).spec_ready()[k + 1] == self.spec_ready()[k]);
                assert(old(self).spec_ready()[0] == id);
            }
        }
        Some(id)
    }

    /// Move the running thread back to `Ready` and to the tail of the
    /// queue; the processor is idle afterwards.
    pub fn suspend_current(&mut self)
        requires
            old(self).wf(),
            old(self).spec_current() is Some,
        ensures
            final(self).wf(),
            final(self).spec_current() is None,
            final(self).spec_ready() == old(self).spec_ready().push(
                old(self).spec_current()->Some_0,
            ),
            final(self).spec_tasks().len() == old(self).spec_tasks().len(),
            final(self).spec_tasks()[old(self).spec_current()->Some_0 as int].task_status
                == TaskStatus::Ready,
            same_but_status(
                old(self).spec_tasks()[old(self).spec_current()->Some_0 as int],
                final(self).spec_tasks()[old(self).spec_current()->Some_0 as int],
            ),
            forall|t: int|
                0 <= t < old(self).spec_tasks().len() && t != old(self).spec_current()->Some_0
                    ==> final(self).spec_tasks()[t] == old(self).spec_tasks()[t],
    {
        let id = self.current.unwrap();
        let task: &mut TaskControlBlock = &mut self.tasks[id];
        task.task_status = TaskStatus::Ready;
        self.current = None;
        proof {
            lemma_only_current_runs(*old(self), *self, id);
            assert(!self.ready_queue@.contains(id)) by {
                if self.ready_queue@.contains(id) {
                    let k = choose|k: int|
                        0 <= k < self.ready_queue@.len() && self.ready_queue@[k] == id;
                    assert(old(self).spec_tasks()[old(self).spec_ready()[k] as int].task_status
                        == TaskStatus::Ready);
                }
            }
        }
        self.ready_queue.push(id);
    }

    /// Move the running thread to `Blocked`; some wait queue or timer now
    /// holds its id and will wake it later.
    pub fn block_current(&mut self)
        requires
            old(self).wf(),
            old(self).spec_current() is Some,
        ensures
            final(self).wf(),
            final(self).spec_current() is None,
            final(self).spec_ready() == old(self).spec_ready(),
            final(self).spec_tasks().len() == old(self).spec_tasks().len(),
            final(self).spec_tasks()[old(self).spec_current()->Some_0 as int].task_status
                == TaskStatus::Blocked,
            same_but_status(
                old(self).spec_tasks()[old(self).spec_current()->Some_0 as int],
                final(self).spec_tasks()[old(self).spec_current()->Some_0 as int],
            ),
            forall|t: int|
                0 <= t < old(self).spec_tasks().len() && t != old(self).spec_current()->Some_0
                    ==> final(self).spec_tasks()[t] == old(self).spec_tasks()[t],
    {
        let id = self.current.unwrap();
        let task: &mut TaskControlBlock = &mut self.tasks[id];
        task.task_status = TaskStatus::Blocked;
        self.current = None;
        proof {
            lemma_only_current_runs(*old(self), *self, id);
        }
    }

    /// Wake a blocked thread: mark it `Ready` and append it to the queue.
    pub fn wakeup_task(&mut self, id: usize)
        requires
            old(self).wf(),
            id < old(self).spec_tasks().len(),
            old(self).spec_tasks()[id as int].task_status == TaskStatus::Blocked,
        ensures
            final(self).wf(),
            final(self).spec_current() == old(self).spec_current(),
            final(self).spec_ready() == old(self).spec_ready().push(id),
            final(self).spec_tasks().len() == old(self).spec_tasks().len(),
            final(self).spec_tasks()[id as int].task_status == TaskStatus::Ready,
            same_but_status(
                old(self).spec_tasks()[id as int],
                final(self).spec_tasks()[id as int],
            ),
            forall|t: int|
                0 <= t < old(self).spec_tasks().len() && t != id ==> final(self).spec_tasks()[t]
                    == old(self).spec_tasks()[t],
    {
        let task: &mut TaskControlBlock = &mut self.tasks[id];
        task.task_status = TaskStatus::Ready;
        proof {
            assert(!self.ready_queue@.contains(id)) by {
                if self.ready_queue@.contains(id) {
                    let k = choose|k: int|
                        0 <= k < self.ready_queue@.len() && self.ready_queue@[k] == id;
                    assert(old(self).spec_tasks()[old(self).spec_ready()[k] as int].task_status
                        == TaskStatus::Ready);
                }
            }
        }
        self.ready_queue.push(id);
    }

    /// Retire the running thread: record its exit code, take away its user
    /// resources, and leave the processor idle. The block stays in the
    /// arena, off every queue, until it is reaped.
    pub fn exit_current(&mut self, code: i32)
        requires
            old(self).wf(),
            old(self).spec_current() is Some,
        ensures
            final(self).wf(),
            final(self).spec_current() is None,
            final(self).spec_ready() == old(self).spec_ready(),
            final(self).spec_tasks().len() == old(self).spec_tasks().len(),
            final(self).spec_tasks()[old(self).spec_current()->Some_0 as int].exit_code == Some(
                code,
            ),
            final(self).spec_tasks()[old(self).spec_current()->Some_0 as int].res is None,
            final(self).spec_tasks()[old(self).spec_current()->Some_0 as int].task_status
                == TaskStatus::Blocked,
            final(self).spec_tasks()[old(self).spec_current()->Some_0 as int].process == old(
                self,
            ).spec_tasks()[old(self).spec_current()->Some_0 as int].process,
            final(self).spec_tasks()[old(self).spec_current()->Some_0 as int].kstack == old(
                self,
            ).spec_tasks()[old(self).spec_current()->Some_0 as int].kstack,
            final(self).spec_tasks()[old(self).spec_current()->Some_0 as int].trap_cx_ppn == old(
                self,
            ).spec_tasks()[old(self).spec_current()->Some_0 as int].trap_cx_ppn,
            forall|t: int|
                0 <= t < old(self).spec_tasks().len() && t != old(self).spec_current()->Some_0
                    ==> final(self).spec_tasks()[t] == old(self).spec_tasks()[t],
    {
        let id = self.current.unwrap();
        let task: &mut TaskControlBlock = &mut self.tasks[id];
        task.exit_code = Some(code);
        task.res = None;
        task.task_status = TaskStatus::Blocked;
        self.current = None;
        proof {
            lemma_only_current_runs(*old(self), *self, id);
        }
    }

    /// Drop a thread's id from the ready queue, wherever it stands; used
    /// when its process dies while the thread still waits to run.
    pub fn remove_task(&mut self, id: usize)
        requires
            old(self).wf(),
        ensures
            final(self).wf(),
            final(self).spec_current() == old(self).spec_current(),
            final(self).spec_tasks() == old(self).spec_tasks(),
            final(self).spec_ready() == old(self).spec_ready().filter(
                (|q: usize| q != id),
            ),
            !final(self).spec_ready().contains(id),
            forall|x: usize|
                final(self).spec_ready().contains(x) ==> old(self).spec_ready().contains(x),
    {
        let mut kept: Vec<usize> = Vec::new();
        let mut k: usize = 0;
        while k < self.ready_queue.len()
            invariant
                *self == *old(self),
                k <= self.ready_queue@.len(),
                kept@ == self.ready_queue@.take(k as int).filter((|q: usize| q != id)),
            decreases self.ready_queue@.len() - k,
        {
            let q = self.ready_queue[k];
            proof {
                let prefix = self.ready_queue@.take(k as int);
                assert(self.ready_queue@.take(k as int + 1).drop_last() =~= prefix);
                assert(self.ready_queue@.take(k as int + 1).last() == q);
                reveal_with_fuel(Seq::filter, 2);
            }
            if q != id {
                kept.push(q);
            }
            k += 1;
        }
        proof {
            assert(self.ready_queue@.take(self.ready_queue@.len() as int) =~= self.ready_queue@);
        }
        let ghost oldq = self.ready_queue@;
        self.ready_queue = kept;
        proof {
            lemma_filter_sub(oldq, (|q: usize| q != id));
            assert(!self.ready_queue@.contains(id)) by {
                if self.ready_queue@.contains(id) {
                    let q = choose|q: int|
                        0 <= q < self.ready_queue@.len() && self.ready_queue@[q] == id;
                    assert((|x: usize| x != id)(self.ready_queue@[q]));
                }
            }
            assert forall|x: usize| self.ready_queue@.contains(x) implies oldq.contains(x) by {
                if self.ready_queue@.contains(x) {
                    let q = choose|q: int|
                        0 <= q < self.ready_queue@.len() && self.ready_queue@[q] == x;
                    assert(oldq.contains(oldq.filter((|y: usize| y != id))[q]));
                }
            }
        }
        self.current = self.current;
    }
}

/// After the running thread's status moves away from `Running` and the
/// running slot empties, no thread runs and the queued ones stay `Ready`.
proof fn lemma_only_current_runs(m0: TaskManager, m1: TaskManager, id: usize)
    requires
        m0.wf(),
        m0.spec_current() == Some(id),
        m1.spec_tasks().len() == m0.spec_tasks().len(),
        m1.spec_tasks() == m0.spec_tasks().update(id as int, m1.spec_tasks()[id as int]),
        m1.spec_tasks()[id as int].task_status != TaskStatus::Running,
        m1.spec_ready() == m0.spec_ready(),
        m1.spec_current() is None,
    ensures
        forall|t: int|
            0 <= t < m1.spec_tasks().len() ==> (#[trigger] m1.spec_tasks()[t]).task_status
                != TaskStatus::Running,
        forall|k: int|
            0 <= k < m1.spec_ready().len() ==> (#[trigger] m1.spec_ready()[k] as int) < m1
                .spec_tasks().len() && m1.spec_tasks()[m1.spec_ready()[k] as int].task_status
                == TaskStatus::Ready,
{
    assert forall|t: int|
        0 <= t < m1.spec_tasks().len() implies (#[trigger] m1.spec_tasks()[t]).task_status
        != TaskStatus::Running by {
        if t != id {
            assert(m1.spec_tasks()[t] == m0.spec_tasks()[t]);
        }
    }
    assert forall|k: int|
        0 <= k < m1.spec_ready().len() implies (#[trigger] m1.spec_ready()[k] as int) < m1
        .spec_tasks().len() && m1.spec_tasks()[m1.spec_ready()[k] as int].task_status
        == TaskStatus::Ready by {
        let q = m0.spec_ready()[k] as int;
        assert(m0.spec_tasks()[q].task_status == TaskStatus::Ready);
        if q == id {
            assert(m0.spec_tasks()[id as int].task_status == TaskStatus::Running);
        }
        assert(m1.spec_tasks()[q] == m0.spec_tasks()[q]);
    }
}

/// Whatever survives a filter stood in the sequence, and a filter of a
/// duplicate-free sequence is duplicate-free.
proof fn lemma_filter_sub(s: Seq<usize>, p: spec_fn(usize) -> bool)
    requires
        s.no_duplicates(),
    ensures
        forall|k: int|
            0 <= k < s.filter(p).len() ==> s.contains(#[trigger] s.filter(p)[k]) && p(
                s.filter(p)[k],
            ),
        s.filter(p).no_duplicates(),
    decreases s.len(),
{
    s.filter_lemma(p);
    reveal(Seq::filter);
    if s.len() > 0 {
        let pre = s.drop_last();
        assert(pre.no_duplicates());
        lemma_filter_sub(pre, p);
        pre.filter_lemma(p);
        if p(s.last()) {
            assert(!pre.contains(s.last())) by {
                if pre.contains(s.last()) {
                    let k = choose|k: int| 0 <= k < pre.len() && pre[k] == s.last();
                    assert(s[k] == s[s.len() - 1]);
                }
            }
            assert(!pre.filter(p).contains(s.last()));
            let f = s.filter(p);
            assert(f == pre.filter(p).push(s.last()));
            assert forall|i: int, j: int|
                0 <= i < f.len() && 0 <= j < f.len() && i != j implies f[i] != f[j] by {
                if i < f.len() - 1 && j < f.len() - 1 {
                    assert(pre.filter(p)[i] == f[i] && pre.filter(p)[j] == f[j]);
                } else if i == f.len() - 1 {
                    assert(pre.filter(p)[j] == f[j]);
                    assert(pre.filter(p).contains(f[j]));
                } else {
                    assert(pre.filter(p)[i] == f[i]);
                    assert(pre.filter(p).contains(f[i]));
                }
            }
        }
    }
}

/// Law: the place of a thread tells its status. Every thread in the ready
/// queue is `Ready`; the running thread is `Running`, and it is the only
/// one; a `Blocked` thread stands in neither place.
pub proof fn lemma_place_tells_status(m: TaskManager)
    requires
        m.wf(),
    ensures
        forall|k: int|
            0 <= k < m.spec_ready().len() ==> m.spec_tasks()[#[trigger] m.spec_ready()[k] as int]
                .task_status == TaskStatus::Ready,
        m.spec_current() matches Some(c) ==> m.spec_tasks()[c as int].task_status
            == TaskStatus::Running,
        forall|t: int|
            0 <= t < m.spec_tasks().len() && (#[trigger] m.spec_tasks()[t]).task_status
                == TaskStatus::Blocked ==> (m.spec_current() matches Some(c) ==> c != t)
                && (forall|k: int|
                0 <= k < m.spec_ready().len() ==> (#[trigger] m.spec_ready()[k] as int) != t),
{
    assert forall|t: int|
        0 <= t < m.spec_tasks().len() && (#[trigger] m.spec_tasks()[t]).task_status
            == TaskStatus::Blocked implies (m.spec_current() matches Some(c) ==> c != t) && (
    forall|k: int|
        0 <= k < m.spec_ready().len() ==> (#[trigger] m.spec_ready()[k] as int) != t) by {
        assert forall|k: int| 0 <= k < m.spec_ready().len() implies (
        #[trigger] m.spec_ready()[k] as int) != t by {
            assert(m.spec_tasks()[m.spec_ready()[k] as int].task_status == TaskStatus::Ready);
        }
    }
}

} // verus!
