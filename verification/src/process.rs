//! Process control blocks and the process lifecycle: creation, fork, exec,
//! wait and exit.
//!
//! Processes live in an arena indexed by pid; a freed slot is reused when
//! its pid is recycled. The address space itself is hardware work; what the
//! lifecycle decides — tables, links, the trap-frame register image, the
//! argument stack layout — is verified here.

use vstd::prelude::*;
use crate::allocators::RecycleAllocator;
use crate::sync::{Condvar, Mutex, Semaphore};

verus! {

/// Pid of the initial process, which adopts orphaned children.
pub const IDLE_PID: usize = 0;

/// Most arguments one exec may pass. Together with `MAX_ARG_LEN` it keeps
/// every address the argument-stack layout computes within the span below
/// the stack top.
pub const MAX_ARGS: usize = 1024;

/// Longest single argument, in bytes; see `MAX_ARGS`.
pub const MAX_ARG_LEN: usize = 4096;

/// Pending fatal signals, one bit each.
#[derive(Clone, Copy, PartialEq, Eq, Structural, Debug)]
pub struct SignalFlags {
    /// The raw bit set.
    pub bits: u32,
}

/// Bit flagging an interrupt signal.
pub const SIGINT: u32 = 4;

/// Bit flagging an illegal instruction.
pub const SIGILL: u32 = 16;

/// Bit flagging an abort.
pub const SIGABRT: u32 = 64;

/// Bit flagging an arithmetic fault.
pub const SIGFPE: u32 = 256;

/// Bit flagging a bad memory access.
pub const SIGSEGV: u32 = 2048;

/// The error code a pending fatal signal maps to: the lowest-numbered
/// pending signal decides, and its code is its negated signal number.
pub open spec fn signal_error_code(bits: u32) -> Option<i32> {
    if bits & SIGINT == SIGINT {
        Some(-2i32)
    } else if bits & SIGILL == SIGILL {
        Some(-4i32)
    } else if bits & SIGABRT == SIGABRT {
        Some(-6i32)
    } else if bits & SIGFPE == SIGFPE {
        Some(-8i32)
    } else if bits & SIGSEGV == SIGSEGV {
        Some(-11i32)
    } else {
        None
    }
}

impl SignalFlags {
    /// No signal pending.
    pub fn empty() -> (r: SignalFlags)
        ensures
            r.bits == 0,
    {
        SignalFlags { bits: 0 }
    }

    /// Raise the signals of `other` as well.
    pub fn insert(&mut self, other: u32)
        ensures
            final(self).bits == old(self).bits | other,
    {
        self.bits = self.bits | other;
    }

    /// Whether every bit of `flag` is raised.
    pub fn contains(&self, flag: u32) -> (r: bool)
        ensures
            r == (self.bits & flag == flag),
    {
        self.bits & flag == flag
    }

    /// The error code a pending fatal signal maps to: the lowest-numbered
    /// pending signal decides, and its code is its negated signal number.
    pub fn check_error(&self) -> (r: Option<i32>)
        ensures
            r == signal_error_code(self.bits),
    {
        if self.bits & SIGINT == SIGINT {
            Some(-2)
        } else if self.bits & SIGILL == SIGILL {
            Some(-4)
        } else if self.bits & SIGABRT == SIGABRT {
            Some(-6)
        } else if self.bits & SIGFPE == SIGFPE {
            Some(-8)
        } else if self.bits & SIGSEGV == SIGSEGV {
            Some(-11)
        } else {
            None
        }
    }
}

/// The register-save record the trampoline reads and writes on every
/// user/kernel transition.
pub struct TrapContext {
    /// General registers x0..x31.
    pub x: Vec<usize>,
    /// Saved supervisor status; its previous-privilege field must say
    /// "user" so that the return lands in user mode.
    pub sstatus: usize,
    /// Where user execution resumes.
    pub sepc: usize,
    /// The kernel address-space token, constant after boot.
    pub kernel_satp: usize,
    /// Top of this thread's kernel stack.
    pub kernel_sp: usize,
    /// Address of the kernel's trap handler.
    pub trap_handler: usize,
}

impl TrapContext {
    /// The register file holds exactly 32 slots.
    pub open spec fn wf(&self) -> bool {
        self.x@.len() == 32
    }

    /// Set the stack pointer register (x2).
    pub fn set_sp(&mut self, sp: usize)
        requires
            old(self).wf(),
        ensures
            final(self).wf(),
            final(self).x@ == old(self).x@.update(2, sp),
            final(self).sstatus == old(self).sstatus,
            final(self).sepc == old(self).sepc,
            final(self).kernel_satp == old(self).kernel_satp,
            final(self).kernel_sp == old(self).kernel_sp,
            final(self).trap_handler == old(self).trap_handler,
    {
        self.x[2] = sp;
    }

    /// Step past the `ecall` instruction that raised the trap, so the
    /// user resumes at the next instruction.
    pub fn step_past_ecall(&mut self)
        requires
            old(self).wf(),
            old(self).sepc + 4 <= usize::MAX,
        ensures
            final(self).wf(),
            final(self).sepc == old(self).sepc + 4,
            final(self).x@ == old(self).x@,
            final(self).sstatus == old(self).sstatus,
            final(self).kernel_satp == old(self).kernel_satp,
            final(self).kernel_sp == old(self).kernel_sp,
            final(self).trap_handler == old(self).trap_handler,
    {
        self.sepc = self.sepc + 4;
    }

    /// Store a system call's result where the user reads it: register
    /// `a0`. After an exec the caller stores into the replaced frame.
    pub fn set_syscall_return(&mut self, value: usize)
        requires
            old(self).wf(),
        ensures
            final(self).wf(),
            final(self).x@ == old(self).x@.update(10, value),
            final(self).sepc == old(self).sepc,
            final(self).sstatus == old(self).sstatus,
            final(self).kernel_satp == old(self).kernel_satp,
            final(self).kernel_sp == old(self).kernel_sp,
            final(self).trap_handler == old(self).trap_handler,
    {
        self.x[10] = value;
    }

    /// The initial trap frame of a fresh user thread: all registers zero
    /// but the stack pointer, resumption at `entry`, and the kernel's
    /// constants wired in. `sstatus` is the supervisor-status value with
    /// its previous-privilege field set to user; reading and editing that
    /// register is hardware work, so the caller passes the value in.
    pub fn app_init_context(
        entry: usize,
        sp: usize,
        kernel_satp: usize,
        kernel_sp: usize,
        trap_handler: usize,
        sstatus: usize,
    ) -> (r: TrapContext)
        ensures
            r.wf(),
            r.sepc == entry,
            r.sstatus == sstatus,
            r.kernel_satp == kernel_satp,
            r.kernel_sp == kernel_sp,
            r.trap_handler == trap_handler,
            r.x@[2] == sp,
            forall|k: int| 0 <= k < 32 && k != 2 ==> #[trigger] r.x@[k] == 0,
    {
        let x: Vec<usize> = vec![0usize; 32];
        let mut cx = TrapContext {
            x,
            sstatus,
            sepc: entry,
            kernel_satp,
            kernel_sp,
            trap_handler,
        };
        cx.set_sp(sp);
        cx
    }
}

/// A slot in the file-descriptor table: a capability to read or write.
#[derive(Clone, Copy, PartialEq, Eq, Structural, Debug)]
pub enum FileDescriptor {
    /// The console input.
    Stdin,
    /// The console output.
    Stdout,
    /// A regular file, by the number of its inode on disk.
    Inode(u32),
}

/// A process control block.
pub struct ProcessControlBlock {
    /// This process's pid; also its slot in the process table.
    pub pid: usize,
    /// Whether the main thread has exited and the block awaits reaping.
    pub is_zombie: bool,
    /// Exit code recorded when the main thread exited.
    pub exit_code: i32,
    /// Pid of the parent, if any.
    pub parent: Option<usize>,
    /// Pids of the children.
    pub children: Vec<usize>,
    /// File-descriptor table; a hole is a closed descriptor.
    pub fd_table: Vec<Option<FileDescriptor>>,
    /// Pending fatal signals.
    pub signals: SignalFlags,
    /// Task ids of this process's threads, by tid; a hole is a reaped
    /// thread.
    pub tasks: Vec<Option<usize>>,
    /// Recycler handing out tids.
    pub task_res_allocator: RecycleAllocator,
    /// This process's mutexes, by mutex id; a hole is a freed slot.
    pub mutex_list: Vec<Option<Mutex>>,
    /// This process's semaphores, by semaphore id.
    pub semaphore_list: Vec<Option<Semaphore>>,
    /// This process's condition variables, by condvar id.
    pub condvar_list: Vec<Option<Condvar>>,
}

impl ProcessControlBlock {
    /// A fresh process: no parent, no children, descriptors 0, 1 and 2
    /// wired to the console, no thread yet.
    pub fn new(pid: usize) -> (r: ProcessControlBlock)
        ensures
            r.pid == pid,
            !r.is_zombie,
            r.exit_code == 0,
            r.parent is None,
            r.children@.len() == 0,
            r.fd_table@ == seq![
                Some(FileDescriptor::Stdin),
                Some(FileDescriptor::Stdout),
                Some(FileDescriptor::Stdout),
            ],
            r.signals.bits == 0,
            r.tasks@.len() == 0,
            r.task_res_allocator.wf(),
            r.task_res_allocator.spec_current() == 0,
            r.task_res_allocator.spec_recycled().len() == 0,
            r.mutex_list@.len() == 0,
            r.semaphore_list@.len() == 0,
            r.condvar_list@.len() == 0,
    {
        let mut fd_table: Vec<Option<FileDescriptor>> = Vec::new();
        fd_table.push(Some(FileDescriptor::Stdin));
        fd_table.push(Some(FileDescriptor::Stdout));
        fd_table.push(Some(FileDescriptor::Stdout));
        proof {
            assert(fd_table@ =~= seq![
                Some(FileDescriptor::Stdin),
                Some(FileDescriptor::Stdout),
                Some(FileDescriptor::Stdout),
            ]);
        }
        ProcessControlBlock {
            pid,
            is_zombie: false,
            exit_code: 0,
            parent: None,
            children: Vec::new(),
            fd_table,
            signals: SignalFlags { bits: 0 },
            tasks: Vec::new(),
            task_res_allocator: RecycleAllocator::new(),
            mutex_list: Vec::new(),
            semaphore_list: Vec::new(),
            condvar_list: Vec::new(),
        }
    }

    /// Store a fresh mutex in the lowest free slot of the mutex table and
    /// hand back its id.
    pub fn mutex_create(&mut self, blocking: bool) -> (id: usize)
        requires
            old(self).mutex_list@.len() < usize::MAX,
        ensures
            id <= old(self).mutex_list@.len(),
            forall|k: int| 0 <= k < id ==> #[trigger] old(self).mutex_list@[k] is Some,
            id < old(self).mutex_list@.len() ==> old(self).mutex_list@[id as int] is None
                && final(self).mutex_list@ == old(self).mutex_list@.update(
                id as int,
                final(self).mutex_list@[id as int],
            ),
            id == old(self).mutex_list@.len() ==> final(self).mutex_list@ == old(
                self,
            ).mutex_list@.push(final(self).mutex_list@[id as int]),
            final(self).mutex_list@[id as int] matches Some(m) && m.blocking == blocking
                && !m.locked && m.wait_queue@.len() == 0,
            same_but_mutexes(*old(self), *final(self)),
    {
        let mut id: usize = 0;
        while id < self.mutex_list.len()
            invariant
                *self == *old(self),
                id <= self.mutex_list@.len(),
                forall|k: int| 0 <= k < id ==> #[trigger] self.mutex_list@[k] is Some,
            decreases self.mutex_list@.len() - id,
        {
            if self.mutex_list[id].is_none() {
                self.mutex_list[id] = Some(Mutex::new(blocking));
                return id;
            }
            id += 1;
        }
        self.mutex_list.push(Some(Mutex::new(blocking)));
        id
    }

    /// Store a fresh semaphore with `count` permits in the lowest free
    /// slot of the semaphore table and hand back its id.
    pub fn semaphore_create(&mut self, count: usize) -> (id: usize)
        requires
            old(self).semaphore_list@.len() < usize::MAX,
        ensures
            id <= old(self).semaphore_list@.len(),
            forall|k: int| 0 <= k < id ==> #[trigger] old(self).semaphore_list@[k] is Some,
            id < old(self).semaphore_list@.len() ==> old(self).semaphore_list@[id as int]
                is None && final(self).semaphore_list@ == old(self).semaphore_list@.update(
                id as int,
                final(self).semaphore_list@[id as int],
            ),
            id == old(self).semaphore_list@.len() ==> final(self).semaphore_list@ == old(
                self,
            ).semaphore_list@.push(final(self).semaphore_list@[id as int]),
            final(self).semaphore_list@[id as int] matches Some(sm) && sm.count == count
                && sm.wait_queue@.len() == 0,
            same_but_semaphores(*old(self), *final(self)),
    {
        let mut id: usize = 0;
        while id < self.semaphore_list.len()
            invariant
                *self == *old(self),
                id <= self.semaphore_list@.len(),
                forall|k: int| 0 <= k < id ==> #[trigger] self.semaphore_list@[k] is Some,
            decreases self.semaphore_list@.len() - id,
        {
            if self.semaphore_list[id].is_none() {
                self.semaphore_list[id] = Some(Semaphore::new(count));
                return id;
            }
            id += 1;
        }
        self.semaphore_list.push(Some(Semaphore::new(count)));
        id
    }

    /// Store a fresh condition variable in the lowest free slot of the
    /// condvar table and hand back its id.
    pub fn condvar_create(&mut self) -> (id: usize)
        requires
            old(self).condvar_list@.len() < usize::MAX,
        ensures
            id <= old(self).condvar_list@.len(),
            forall|k: int| 0 <= k < id ==> #[trigger] old(self).condvar_list@[k] is Some,
            id < old(self).condvar_list@.len() ==> old(self).condvar_list@[id as int] is None
                && final(self).condvar_list@ == old(self).condvar_list@.update(
                id as int,
                final(self).condvar_list@[id as int],
            ),
            id == old(self).condvar_list@.len() ==> final(self).condvar_list@ == old(
                self,
            ).condvar_list@.push(final(self).condvar_list@[id as int]),
            final(self).condvar_list@[id as int] matches Some(cv) && cv.wait_queue@.len() == 0,
            same_but_condvars(*old(self), *final(self)),
    {
        let mut id: usize = 0;
        while id < self.condvar_list.len()
            invariant
                *self == *old(self),
                id <= self.condvar_list@.len(),
                forall|k: int| 0 <= k < id ==> #[trigger] self.condvar_list@[k] is Some,
            decreases self.condvar_list@.len() - id,
        {
            if self.condvar_list[id].is_none() {
                self.condvar_list[id] = Some(Condvar::new());
                return id;
            }
            id += 1;
        }
        self.condvar_list.push(Some(Condvar::new()));
        id
    }

    /// Hand out a tid: the most recently freed one, or a fresh one from
    /// the watermark.
    pub fn alloc_tid(&mut self) -> (tid: usize)
        requires
            old(self).task_res_allocator.wf(),
            old(self).task_res_allocator.spec_current() < usize::MAX,
        ensures
            final(self).task_res_allocator.wf(),
            final(self).task_res_allocator.is_live(tid),
            old(self).task_res_allocator.spec_recycled().len() > 0 ==> {
                &&& tid == old(self).task_res_allocator.spec_recycled().last()
                &&& final(self).task_res_allocator.spec_recycled() == old(
                    self,
                ).task_res_allocator.spec_recycled().drop_last()
                &&& final(self).task_res_allocator.spec_current() == old(
                    self,
                ).task_res_allocator.spec_current()
            },
            old(self).task_res_allocator.spec_recycled().len() == 0 ==> {
                &&& tid == old(self).task_res_allocator.spec_current()
                &&& final(self).task_res_allocator.spec_recycled() == old(
                    self,
                ).task_res_allocator.spec_recycled()
                &&& final(self).task_res_allocator.spec_current() == old(
                    self,
                ).task_res_allocator.spec_current() + 1
            },
            same_but_tid_allocator(*old(self), *final(self)),
    {
        self.task_res_allocator.allocate()
    }

    /// Return a live tid to the free list; it is reused first — tids
    /// recycle last-in-first-out.
    pub fn dealloc_tid(&mut self, tid: usize)
        requires
            old(self).task_res_allocator.wf(),
            old(self).task_res_allocator.is_live(tid),
        ensures
            final(self).task_res_allocator.wf(),
            final(self).task_res_allocator.spec_recycled() == old(
                self,
            ).task_res_allocator.spec_recycled().push(tid),
            final(self).task_res_allocator.spec_current() == old(
                self,
            ).task_res_allocator.spec_current(),
            same_but_tid_allocator(*old(self), *final(self)),
    {
        self.task_res_allocator.dealloc(tid)
    }

    /// How many thread slots the process holds.
    pub fn thread_count(&self) -> (r: usize)
        ensures
            r == self.tasks@.len(),
    {
        self.tasks.len()
    }

    /// The task id of thread `tid`.
    pub fn get_task(&self, tid: usize) -> (r: usize)
        requires
            tid < self.tasks@.len(),
            self.tasks@[tid as int] is Some,
        ensures
            Some(r) == self.tasks@[tid as int],
    {
        self.tasks[tid].unwrap()
    }

    /// This process's pid.
    pub fn getpid(&self) -> (r: usize)
        ensures
            r == self.pid,
    {
        self.pid
    }

    /// Whether the block awaits reaping.
    pub fn is_zombie(&self) -> (r: bool)
        ensures
            r == self.is_zombie,
    {
        self.is_zombie
    }

    /// The lowest closed descriptor slot, extending the table if every
    /// slot is taken. The slot stays reserved for the caller to fill.
    pub fn alloc_fd(&mut self) -> (fd: usize)
        requires
            old(self).fd_table@.len() < usize::MAX,
        ensures
            fd <= old(self).fd_table@.len(),
            fd < old(self).fd_table@.len() ==> {
                &&& old(self).fd_table@[fd as int] is None
                &&& final(self).fd_table@ == old(self).fd_table@
            },
            fd == old(self).fd_table@.len() ==> final(self).fd_table@ == old(
                self,
            ).fd_table@.push(None),
            forall|k: int| 0 <= k < fd ==> #[trigger] old(self).fd_table@[k] is Some,
    {
        let mut fd: usize = 0;
        while fd < self.fd_table.len()
            invariant
                *self == *old(self),
                fd <= self.fd_table@.len(),
                forall|k: int| 0 <= k < fd ==> #[trigger] self.fd_table@[k] is Some,
            decreases self.fd_table@.len() - fd,
        {
            if self.fd_table[fd].is_none() {
                return fd;
            }
            fd += 1;
        }
        self.fd_table.push(None);
        fd
    }
}

/// Where the exec machinery lays out the argument vector on a fresh user
/// stack, per the convention: the pointer array sits highest with a
/// trailing null, each argument's bytes sit below it with a terminating
/// zero, and the final stack pointer is aligned down to 8 bytes.
pub struct ArgStack {
    /// The aligned initial user stack pointer.
    pub user_sp: usize,
    /// Address of the argv pointer array.
    pub argv_base: usize,
    /// The pointer array: one address per argument, then a null.
    pub argv: Vec<usize>,
    /// The bytes to place at each argument's address: the argument and a
    /// terminating zero.
    pub strings: Vec<Vec<u8>>,
}

/// What `waitpid` found.
#[derive(Clone, Copy, PartialEq, Eq, Structural, Debug)]
pub enum WaitResult {
    /// No child matches the request; the syscall returns -1.
    NoChild,
    /// A matching child exists but has not exited; the syscall returns -2.
    NotExited,
    /// A matching zombie child was reaped: its pid and its exit code.
    Reaped(usize, i32),
}

/// The process arena: one slot per pid, reused when the pid is recycled.
pub struct ProcessTable {
    processes: Vec<Option<ProcessControlBlock>>,
    pid_allocator: RecycleAllocator,
}

impl ProcessTable {
    /// The arena, one slot per pid ever handed out.
    pub closed spec fn spec_processes(&self) -> Seq<Option<ProcessControlBlock>> {
        self.processes@
    }

    /// The process stored for `pid`, when the slot is live.
    pub open spec fn proc_of(&self, pid: int) -> ProcessControlBlock
        recommends
            0 <= pid < self.spec_processes().len(),
            self.spec_processes()[pid] is Some,
    {
        self.spec_processes()[pid]->Some_0
    }

    /// Each live slot holds the process with that pid, and each recycled
    /// pid's slot is empty.
    pub closed spec fn wf(&self) -> bool {
        &&& self.pid_allocator.wf()
        &&& self.spec_processes().len() == self.pid_allocator.spec_current()
        &&& forall|p: int|
            0 <= p < self.spec_processes().len() && (#[trigger] self.spec_processes()[p])
                is Some ==> self.spec_processes()[p]->Some_0.pid == p
        &&& forall|k: int|
            0 <= k < self.pid_allocator.spec_recycled().len() ==> self.spec_processes()[(
            #[trigger] self.pid_allocator.spec_recycled()[k]) as int] is None
    }

    /// An empty table.
    pub fn new() -> (r: ProcessTable)
        ensures
            r.wf(),
            r.spec_processes().len() == 0,
    {
        ProcessTable { processes: Vec::new(), pid_allocator: RecycleAllocator::new() }
    }

    /// Whether `pid` names a live process.
    pub fn contains(&self, pid: usize) -> (r: bool)
        ensures
            r == (pid < self.spec_processes().len() && self.spec_processes()[pid as int]
                is Some),
    {
        pid < self.processes.len() && self.processes[pid].is_some()
    }

    /// Create a process in a fresh slot and hand back its pid.
    pub fn insert_new_process(&mut self) -> (pid: usize)
        requires
            old(self).wf(),
            old(self).spec_processes().len() < usize::MAX,
        ensures
            final(self).wf(),
            pid < final(self).spec_processes().len(),
            pid <= old(self).spec_processes().len(),
            old(self).spec_processes().len() <= final(self).spec_processes().len(),
            final(self).spec_processes().len() <= old(self).spec_processes().len() + 1,
            pid < old(self).spec_processes().len() ==> old(self).spec_processes()[pid as int]
                is None,
            final(self).spec_processes()[pid as int] is Some,
            is_fresh(final(self).proc_of(pid as int), pid),
            forall|p: int|
                0 <= p < old(self).spec_processes().len() && p != pid
                    ==> #[trigger] final(self).spec_processes()[p] == old(
                    self,
                ).spec_processes()[p],
    {
        let ghost r0 = self.pid_allocator.spec_recycled();
        let pid = self.pid_allocator.allocate();
        let pcb = ProcessControlBlock::new(pid);
        proof {
            assert(is_fresh(pcb, pid));
        }
        if pid == self.processes.len() {
            self.processes.push(Some(pcb));
        } else {
            proof {
                assert(r0.last() == pid);
                assert(old(self).spec_processes()[pid as int] is None);
            }
            self.processes[pid] = Some(pcb);
        }
        proof {
            assert forall|k: int|
                0 <= k < self.pid_allocator.spec_recycled().len() implies self.spec_processes()[
                (#[trigger] self.pid_allocator.spec_recycled()[k]) as int] is None by {
                old(self).pid_allocator.lemma_wf_bounds();
                assert(r0.len() > 0);
                assert(self.pid_allocator.spec_recycled() == r0.drop_last());
                let rp = self.pid_allocator.spec_recycled()[k];
                assert(rp == r0[k]);
                assert(rp == old(self).pid_allocator.spec_recycled()[k]);
                assert(old(self).spec_processes()[rp as int] is None);
                assert(r0[k] != r0[r0.len() - 1]);
                assert(rp != pid);
                assert((rp as int) < old(self).spec_processes().len());
                assert(self.spec_processes()[rp as int] == old(self).spec_processes()[
                    rp as int]);
            }
        }
        pid
    }

    /// Fork `parent`: the child shares its open files, inherits its
    /// pending signals, and starts with no children of its own. The child
    /// pid is returned and recorded with the parent.
    pub fn fork(&mut self, parent: usize) -> (child: usize)
        requires
            old(self).wf(),
            old(self).spec_processes().len() < usize::MAX,
            parent < old(self).spec_processes().len(),
            old(self).spec_processes()[parent as int] is Some,
        ensures
            final(self).wf(),
            child < final(self).spec_processes().len(),
            old(self).spec_processes().len() <= final(self).spec_processes().len(),
            final(self).spec_processes().len() <= old(self).spec_processes().len() + 1,
            child != parent,
            final(self).spec_processes()[child as int] is Some,
            final(self).spec_processes()[parent as int] is Some,
            // the child block
            final(self).proc_of(child as int).pid == child,
            !final(self).proc_of(child as int).is_zombie,
            final(self).proc_of(child as int).exit_code == 0,
            final(self).proc_of(child as int).parent == Some(parent),
            final(self).proc_of(child as int).children@.len() == 0,
            final(self).proc_of(child as int).fd_table@ == old(self).proc_of(
                parent as int,
            ).fd_table@,
            final(self).proc_of(child as int).signals == old(self).proc_of(parent as int).signals,
            final(self).proc_of(child as int).tasks@.len() == 0,
            final(self).proc_of(child as int).mutex_list@.len() == 0,
            final(self).proc_of(child as int).semaphore_list@.len() == 0,
            final(self).proc_of(child as int).condvar_list@.len() == 0,
            // the parent records the child; nothing else about it moves
            final(self).proc_of(parent as int).children@ == old(self).proc_of(
                parent as int,
            ).children@.push(child),
            final(self).proc_of(parent as int).pid == old(self).proc_of(parent as int).pid,
            final(self).proc_of(parent as int).fd_table@ == old(self).proc_of(
                parent as int,
            ).fd_table@,
            final(self).proc_of(parent as int).is_zombie == old(self).proc_of(
                parent as int,
            ).is_zombie,
            final(self).proc_of(parent as int).tasks@ == old(self).proc_of(parent as int).tasks@,
            // every other process is untouched
            forall|p: int|
                0 <= p < old(self).spec_processes().len() && p != child && p != parent
                    ==> #[trigger] final(self).spec_processes()[p] == old(
                    self,
                ).spec_processes()[p],
    {
        let child = self.insert_new_process();
        proof {
            assert(self.spec_processes()[parent as int] is Some);
        }
        let ghost smid = *self;
        // copy the parent's open-file capabilities and signals
        let mut fd_copy: Vec<Option<FileDescriptor>> = Vec::new();
        let n = self.processes[parent].as_ref().unwrap().fd_table.len();
        let mut k: usize = 0;
        while k < n
            invariant
                *self == smid,
                parent < self.spec_processes().len(),
                self.spec_processes()[parent as int] is Some,
                n == self.proc_of(parent as int).fd_table@.len(),
                k <= n,
                fd_copy@ == self.proc_of(parent as int).fd_table@.take(k as int),
            decreases n - k,
        {
            let entry = self.processes[parent].as_ref().unwrap().fd_table[k];
            fd_copy.push(entry);
            proof {
                assert(fd_copy@ =~= self.proc_of(parent as int).fd_table@.take(k as int + 1));
            }
            k += 1;
        }
        proof {
            assert(self.proc_of(parent as int).fd_table@.take(n as int) =~= self.proc_of(
                parent as int,
            ).fd_table@);
        }
        let signals = self.processes[parent].as_ref().unwrap().signals;
        let cslot: &mut Option<ProcessControlBlock> = &mut self.processes[child];
        let cpcb: &mut ProcessControlBlock = cslot.as_mut().unwrap();
        cpcb.parent = Some(parent);
        cpcb.fd_table = fd_copy;
        cpcb.signals = signals;
        let pslot: &mut Option<ProcessControlBlock> = &mut self.processes[parent];
        let ppcb: &mut ProcessControlBlock = pslot.as_mut().unwrap();
        ppcb.children.push(child);
        proof {
            assert(self.pid_allocator == smid.pid_allocator);
            assert forall|q: int|
                0 <= q < self.pid_allocator.spec_recycled().len() implies self.spec_processes()[
            (#[trigger] self.pid_allocator.spec_recycled()[q]) as int] is None by {
                let rp = self.pid_allocator.spec_recycled()[q];
                smid.pid_allocator.lemma_wf_bounds();
                assert(rp == smid.pid_allocator.spec_recycled()[q]);
                assert(smid.spec_processes()[rp as int] is None);
                assert((rp as int) < smid.spec_processes().len());
                assert(rp != child && rp != parent);
                assert(self.spec_processes()[rp as int] == smid.spec_processes()[rp as int]);
            }
        }
        child
    }

    /// Look for a child of `parent` to reap. A `target` of -1 accepts any
    /// child. Reaping removes the child from the parent's list, frees its
    /// pid and hands back its exit code; a live matching child yields
    /// `NotExited`; no matching child yields `NoChild`.
    pub fn waitpid(&mut self, parent: usize, target: isize) -> (r: WaitResult)
        requires
            old(self).wf(),
            parent < old(self).spec_processes().len(),
            old(self).spec_processes()[parent as int] is Some,
            forall|k: int|
                0 <= k < old(self).proc_of(parent as int).children@.len() ==> {
                    &&& (#[trigger] old(self).proc_of(parent as int).children@[k] as int) < old(
                        self,
                    ).spec_processes().len()
                    &&& old(self).proc_of(parent as int).children@[k] != parent
                    &&& old(self).spec_processes()[old(self).proc_of(
                        parent as int,
                    ).children@[k] as int] is Some
                },
        ensures
            final(self).wf(),
            r == WaitResult::NoChild ==> {
                &&& *final(self) == *old(self)
                &&& forall|k: int|
                    0 <= k < old(self).proc_of(parent as int).children@.len()
                        ==> !child_matches(
                        old(self).proc_of(parent as int).children@[k],
                        target,
                    )
            },
            r == WaitResult::NotExited ==> {
                &&& *final(self) == *old(self)
                &&& exists|k: int|
                    0 <= k < old(self).proc_of(parent as int).children@.len()
                        && child_matches(
                        #[trigger] old(self).proc_of(parent as int).children@[k],
                        target,
                    )
                &&& forall|k: int|
                    0 <= k < old(self).proc_of(parent as int).children@.len()
                        && child_matches(
                        #[trigger] old(self).proc_of(parent as int).children@[k],
                        target,
                    ) ==> !old(self).proc_of(
                        old(self).proc_of(parent as int).children@[k] as int,
                    ).is_zombie
            },
            r matches WaitResult::Reaped(pid, code) ==> {
                &&& exists|k: int|
                    {
                        &&& 0 <= k < old(self).proc_of(parent as int).children@.len()
                        &&& #[trigger] old(self).proc_of(parent as int).children@[k] == pid
                        &&& final(self).proc_of(parent as int).children@ == old(self).proc_of(
                            parent as int,
                        ).children@.remove(k)
                    }
                &&& child_matches(pid, target)
                &&& old(self).spec_processes()[pid as int] is Some
                &&& old(self).proc_of(pid as int).is_zombie
                &&& code == old(self).proc_of(pid as int).exit_code
                &&& final(self).spec_processes()[pid as int] is None
                &&& final(self).spec_processes()[parent as int] is Some
                // the parent loses only that child; everyone else is
                // untouched
                &&& same_but_children(
                    old(self).proc_of(parent as int),
                    final(self).proc_of(parent as int),
                )
                &&& (forall|p: int|
                    0 <= p < old(self).spec_processes().len() && p != parent && p != pid
                        ==> #[trigger] final(self).spec_processes()[p] == old(
                        self,
                    ).spec_processes()[p])
            },
    {
        let nchildren = self.processes[parent].as_ref().unwrap().children.len();
        let mut k: usize = 0;
        let mut found_match = false;
        while k < nchildren
            invariant
                old(self).wf(),
                *self == *old(self),
                parent < self.spec_processes().len(),
                self.spec_processes()[parent as int] is Some,
                nchildren == self.proc_of(parent as int).children@.len(),
                forall|q: int|
                    0 <= q < nchildren ==> {
                        &&& (#[trigger] self.proc_of(parent as int).children@[q] as int)
                            < self.spec_processes().len()
                        &&& self.proc_of(parent as int).children@[q] != parent
                        &&& self.spec_processes()[self.proc_of(parent as int).children@[q] as int]
                            is Some
                    },
                k <= nchildren,
                found_match ==> exists|q: int|
                    0 <= q < nchildren && child_matches(
                        #[trigger] self.proc_of(parent as int).children@[q],
                        target,
                    ),
                forall|q: int|
                    0 <= q < k && child_matches(
                        #[trigger] self.proc_of(parent as int).children@[q],
                        target,
                    ) ==> !self.proc_of(
                        self.proc_of(parent as int).children@[q] as int,
                    ).is_zombie,
                !found_match ==> forall|q: int|
                    0 <= q < k ==> !child_matches(
                        #[trigger] self.proc_of(parent as int).children@[q],
                        target,
                    ),
            decreases nchildren - k,
        {
            let child_pid = self.processes[parent].as_ref().unwrap().children[k];
            let matches_target = target == -1 || child_pid == target as usize && target >= 0;
            proof {
                assert(matches_target == child_matches(child_pid, target));
            }
            if matches_target {
                found_match = true;
                if self.processes[child_pid].as_ref().unwrap().is_zombie {
                    let code = self.processes[child_pid].as_ref().unwrap().exit_code;
                    // unlink from the parent and free the slot and pid
                    let pslot: &mut Option<ProcessControlBlock> = &mut self.processes[parent];
                    let ppcb: &mut ProcessControlBlock = pslot.as_mut().unwrap();
                    ppcb.children.remove(k);
                    self.processes[child_pid] = None;
                    proof {
                        assert(self.pid_allocator.is_live(child_pid)) by {
                            if self.pid_allocator.spec_recycled().contains(child_pid) {
                                let q = choose|q: int|
                                    0 <= q < self.pid_allocator.spec_recycled().len()
                                        && self.pid_allocator.spec_recycled()[q] == child_pid;
                                assert(old(self).spec_processes()[(old(
                                    self,
                                ).pid_allocator.spec_recycled()[q]) as int] is None);
                            }
                        }
                    }
                    self.pid_allocator.dealloc(child_pid);
                    proof {
                        assert forall|q: int|
                            0 <= q < self.pid_allocator.spec_recycled().len() implies self
                            .spec_processes()[(
                        #[trigger] self.pid_allocator.spec_recycled()[q]) as int] is None by {
                            let rp = self.pid_allocator.spec_recycled()[q];
                            old(self).pid_allocator.lemma_wf_bounds();
                            if q < self.pid_allocator.spec_recycled().len() - 1 {
                                assert(rp == old(self).pid_allocator.spec_recycled()[q]);
                                assert(old(self).spec_processes()[rp as int] is None);
                                assert((rp as int) < old(self).spec_processes().len());
                                assert(rp != parent && rp != child_pid);
                                assert(self.spec_processes()[rp as int] == old(
                                    self,
                                ).spec_processes()[rp as int]);
                            } else {
                                assert(rp == child_pid);
                            }
                        }
                        assert(old(self).proc_of(parent as int).children@[k as int]
                            == child_pid);
                        assert(child_matches(child_pid, target));
                        assert(old(self).spec_processes()[child_pid as int] is Some);
                        assert(old(self).proc_of(child_pid as int).is_zombie);
                        assert(code == old(self).proc_of(child_pid as int).exit_code);
                        assert(self.spec_processes()[child_pid as int] is None);
                        assert(self.spec_processes()[parent as int] is Some);
                    }
                    return WaitResult::Reaped(child_pid, code);
                }
            }
            k += 1;
        }
        if found_match {
            WaitResult::NotExited
        } else {
            WaitResult::NoChild
        }
    }

    /// How many thread slots process `pid` holds.
    pub fn thread_count_of(&self, pid: usize) -> (r: usize)
        requires
            self.wf(),
            pid < self.spec_processes().len(),
            self.spec_processes()[pid as int] is Some,
        ensures
            r == self.proc_of(pid as int).tasks@.len(),
    {
        self.processes[pid].as_ref().unwrap().tasks.len()
    }

    /// The task id in thread slot `k` of process `pid`.
    pub fn task_of(&self, pid: usize, k: usize) -> (r: Option<usize>)
        requires
            self.wf(),
            pid < self.spec_processes().len(),
            self.spec_processes()[pid as int] is Some,
            k < self.proc_of(pid as int).tasks@.len(),
        ensures
            r == self.proc_of(pid as int).tasks@[k as int],
    {
        self.processes[pid].as_ref().unwrap().tasks[k]
    }

    /// Record a new thread of process `pid` in the next free slot.
    pub fn attach_thread(&mut self, pid: usize, task_id: usize)
        requires
            old(self).wf(),
            pid < old(self).spec_processes().len(),
            old(self).spec_processes()[pid as int] is Some,
        ensures
            final(self).wf(),
            final(self).spec_processes().len() == old(self).spec_processes().len(),
            final(self).spec_processes()[pid as int] is Some,
            final(self).proc_of(pid as int).tasks@ == old(self).proc_of(pid as int).tasks@.push(
                Some(task_id),
            ),
            final(self).proc_of(pid as int).pid == old(self).proc_of(pid as int).pid,
            final(self).proc_of(pid as int).children@ == old(self).proc_of(
                pid as int,
            ).children@,
            final(self).proc_of(pid as int).fd_table@ == old(self).proc_of(
                pid as int,
            ).fd_table@,
            final(self).proc_of(pid as int).is_zombie == old(self).proc_of(pid as int).is_zombie,
            final(self).proc_of(pid as int).signals == old(self).proc_of(pid as int).signals,
            same_sync_tables(old(self).proc_of(pid as int), final(self).proc_of(pid as int)),
            forall|p: int|
                0 <= p < old(self).spec_processes().len() && p != pid
                    ==> #[trigger] final(self).spec_processes()[p] == old(
                    self,
                ).spec_processes()[p],
    {
        let slot: &mut Option<ProcessControlBlock> = &mut self.processes[pid];
        let pcb: &mut ProcessControlBlock = slot.as_mut().unwrap();
        pcb.tasks.push(Some(task_id));
        proof {
            assert(self.pid_allocator == old(self).pid_allocator);
            assert forall|q: int|
                0 <= q < self.pid_allocator.spec_recycled().len() implies self.spec_processes()[
            (#[trigger] self.pid_allocator.spec_recycled()[q]) as int] is None by {
                let rp = self.pid_allocator.spec_recycled()[q];
                old(self).pid_allocator.lemma_wf_bounds();
                assert(rp == old(self).pid_allocator.spec_recycled()[q]);
                assert(old(self).spec_processes()[rp as int] is None);
                assert((rp as int) < old(self).spec_processes().len());
                assert(rp != pid);
                assert(self.spec_processes()[rp as int] == old(self).spec_processes()[
                    rp as int]);
            }
        }
    }

    /// The parent link of a live process.
    pub fn parent_of(&self, pid: usize) -> (r: Option<usize>)
        requires
            self.wf(),
            pid < self.spec_processes().len(),
            self.spec_processes()[pid as int] is Some,
        ensures
            r == self.proc_of(pid as int).parent,
    {
        self.processes[pid].as_ref().unwrap().parent
    }

    /// Read a process's pending signals.
    pub fn signals_of(&self, pid: usize) -> (r: SignalFlags)
        requires
            self.wf(),
            pid < self.spec_processes().len(),
            self.spec_processes()[pid as int] is Some,
        ensures
            r == self.proc_of(pid as int).signals,
    {
        self.processes[pid].as_ref().unwrap().signals
    }

    /// Raise signals on a process.
    pub fn add_signal(&mut self, pid: usize, signal: u32)
        requires
            old(self).wf(),
            pid < old(self).spec_processes().len(),
            old(self).spec_processes()[pid as int] is Some,
        ensures
            final(self).wf(),
            final(self).spec_processes().len() == old(self).spec_processes().len(),
            final(self).spec_processes()[pid as int] is Some,
            final(self).proc_of(pid as int).signals.bits == old(self).proc_of(
                pid as int,
            ).signals.bits | signal,
            same_but_signals(old(self).proc_of(pid as int), final(self).proc_of(pid as int)),
            forall|p: int|
                0 <= p < old(self).spec_processes().len() && p != pid
                    ==> #[trigger] final(self).spec_processes()[p] == old(
                    self,
                ).spec_processes()[p],
    {
        let slot: &mut Option<ProcessControlBlock> = &mut self.processes[pid];
        let pcb: &mut ProcessControlBlock = slot.as_mut().unwrap();
        pcb.signals.insert(signal);
        proof {
            assert(self.pid_allocator == old(self).pid_allocator);
            assert forall|q: int|
                0 <= q < self.pid_allocator.spec_recycled().len() implies self.spec_processes()[
            (#[trigger] self.pid_allocator.spec_recycled()[q]) as int] is None by {
                let rp = self.pid_allocator.spec_recycled()[q];
                old(self).pid_allocator.lemma_wf_bounds();
                assert(rp == old(self).pid_allocator.spec_recycled()[q]);
                assert(old(self).spec_processes()[rp as int] is None);
                assert((rp as int) < old(self).spec_processes().len());
                assert(rp != pid);
                assert(self.spec_processes()[rp as int] == old(self).spec_processes()[
                    rp as int]);
            }
        }
    }

    /// Turn `pid` into a zombie: record the exit code, hand its children
    /// to the initial process — each orphan's parent link is re-pointed at
    /// it — and drop its file table and thread list. The block stays until
    /// the parent reaps it.
    pub fn zombify(&mut self, pid: usize, code: i32)
        requires
            old(self).wf(),
            pid < old(self).spec_processes().len(),
            pid != IDLE_PID,
            old(self).spec_processes()[pid as int] is Some,
            IDLE_PID < old(self).spec_processes().len(),
            old(self).spec_processes()[IDLE_PID as int] is Some,
            forall|q: int|
                0 <= q < old(self).proc_of(pid as int).children@.len() ==> {
                    &&& (#[trigger] old(self).proc_of(pid as int).children@[q] as int) < old(
                        self,
                    ).spec_processes().len()
                    &&& old(self).proc_of(pid as int).children@[q] != pid
                    &&& old(self).proc_of(pid as int).children@[q] != IDLE_PID
                    &&& old(self).spec_processes()[old(self).proc_of(
                        pid as int,
                    ).children@[q] as int] is Some
                },
        ensures
            final(self).wf(),
            final(self).spec_processes().len() == old(self).spec_processes().len(),
            final(self).spec_processes()[pid as int] is Some,
            final(self).proc_of(pid as int).is_zombie,
            final(self).proc_of(pid as int).exit_code == code,
            final(self).proc_of(pid as int).children@.len() == 0,
            final(self).proc_of(pid as int).fd_table@.len() == 0,
            final(self).proc_of(pid as int).tasks@.len() == 0,
            final(self).proc_of(pid as int).mutex_list@.len() == 0,
            final(self).proc_of(pid as int).semaphore_list@.len() == 0,
            final(self).proc_of(pid as int).condvar_list@.len() == 0,
            final(self).proc_of(pid as int).pid == pid,
            // the initial process adopts the children, in order
            final(self).spec_processes()[IDLE_PID as int] is Some,
            final(self).proc_of(IDLE_PID as int).children@ == old(self).proc_of(
                IDLE_PID as int,
            ).children@ + old(self).proc_of(pid as int).children@,
            // each orphan now names the initial process as its parent and
            // keeps everything else
            forall|q: int|
                0 <= q < old(self).proc_of(pid as int).children@.len() ==> {
                    &&& final(self).spec_processes()[(#[trigger] old(self).proc_of(
                        pid as int,
                    ).children@[q]) as int] is Some
                    &&& adopted(
                        old(self).proc_of(old(self).proc_of(pid as int).children@[q] as int),
                        final(self).proc_of(old(self).proc_of(pid as int).children@[q] as int),
                    )
                },
            // every process that is not the dying one, the initial one or
            // an orphan is untouched
            forall|p: int|
                0 <= p < old(self).spec_processes().len() && p != pid && p != IDLE_PID && !old(
                    self,
                ).proc_of(pid as int).children@.contains(p as usize)
                    ==> #[trigger] final(self).spec_processes()[p] == old(
                    self,
                ).spec_processes()[p],
    {
        let ghost kids = old(self).proc_of(pid as int).children@;
        // move the children over to the initial process
        let norphans = self.processes[pid].as_ref().unwrap().children.len();
        let mut k: usize = 0;
        while k < norphans
            invariant
                old(self).wf(),
                pid < self.spec_processes().len(),
                pid != IDLE_PID,
                IDLE_PID < self.spec_processes().len(),
                self.spec_processes().len() == old(self).spec_processes().len(),
                self.spec_processes()[pid as int] is Some,
                self.spec_processes()[IDLE_PID as int] is Some,
                self.proc_of(pid as int) == old(self).proc_of(pid as int),
                kids == old(self).proc_of(pid as int).children@,
                norphans == kids.len(),
                forall|q: int|
                    0 <= q < kids.len() ==> {
                        &&& (#[trigger] kids[q] as int) < old(self).spec_processes().len()
                        &&& kids[q] != pid
                        &&& kids[q] != IDLE_PID
                        &&& old(self).spec_processes()[kids[q] as int] is Some
                    },
                k <= norphans,
                self.proc_of(IDLE_PID as int).children@ == old(self).proc_of(
                    IDLE_PID as int,
                ).children@ + kids.take(k as int),
                self.proc_of(IDLE_PID as int).pid == IDLE_PID,
                forall|q: int|
                    0 <= q < k ==> self.spec_processes()[(#[trigger] kids[q]) as int] is Some
                        && adopted(
                        old(self).proc_of(kids[q] as int),
                        self.proc_of(kids[q] as int),
                    ),
                forall|p: int|
                    0 <= p < self.spec_processes().len() && p != pid && p != IDLE_PID ==> (
                    #[trigger] self.spec_processes()[p] == old(self).spec_processes()[p] || (
                    kids.contains(p as usize) && old(self).spec_processes()[p] is Some
                        && self.spec_processes()[p] is Some && adopted(
                        old(self).proc_of(p),
                        self.proc_of(p),
                    ))),
                self.pid_allocator == old(self).pid_allocator,
            decreases norphans - k,
        {
            let orphan = self.processes[pid].as_ref().unwrap().children[k];
            let islot: &mut Option<ProcessControlBlock> = &mut self.processes[IDLE_PID];
            let ipcb: &mut ProcessControlBlock = islot.as_mut().unwrap();
            ipcb.children.push(orphan);
            proof {
                assert(self.proc_of(IDLE_PID as int).children@ =~= old(self).proc_of(
                    IDLE_PID as int,
                ).children@ + kids.take(k as int + 1));
                assert(kids.contains(orphan));
            }
            let oslot: &mut Option<ProcessControlBlock> = &mut self.processes[orphan];
            let opcb: &mut ProcessControlBlock = oslot.as_mut().unwrap();
            opcb.parent = Some(IDLE_PID);
            k += 1;
        }
        proof {
            assert(kids.take(norphans as int) =~= kids);
        }
        let ghost smid = *self;
        let slot: &mut Option<ProcessControlBlock> = &mut self.processes[pid];
        let pcb: &mut ProcessControlBlock = slot.as_mut().unwrap();
        pcb.is_zombie = true;
        pcb.exit_code = code;
        pcb.children = Vec::new();
        pcb.fd_table = Vec::new();
        pcb.tasks = Vec::new();
        pcb.mutex_list = Vec::new();
        pcb.semaphore_list = Vec::new();
        pcb.condvar_list = Vec::new();
        proof {
            assert forall|p: int|
                0 <= p < self.spec_processes().len() && (#[trigger] self.spec_processes()[p])
                    is Some implies self.spec_processes()[p]->Some_0.pid == p by {
                if p != pid {
                    assert(self.spec_processes()[p] == smid.spec_processes()[p]);
                    if p != IDLE_PID {
                        if smid.spec_processes()[p] == old(self).spec_processes()[p] {
                            assert(old(self).spec_processes()[p]->Some_0.pid == p);
                        } else {
                            assert(old(self).spec_processes()[p] is Some && adopted(
                                old(self).proc_of(p),
                                smid.proc_of(p),
                            ));
                            assert(old(self).spec_processes()[p]->Some_0.pid == p);
                        }
                    }
                }
            }
            assert(self.pid_allocator == old(self).pid_allocator);
            assert forall|q: int|
                0 <= q < self.pid_allocator.spec_recycled().len() implies self.spec_processes()[
            (#[trigger] self.pid_allocator.spec_recycled()[q]) as int] is None by {
                let rp = self.pid_allocator.spec_recycled()[q];
                old(self).pid_allocator.lemma_wf_bounds();
                assert(rp == old(self).pid_allocator.spec_recycled()[q]);
                assert(old(self).spec_processes()[rp as int] is None);
                assert((rp as int) < old(self).spec_processes().len());
                assert(rp != pid && rp != IDLE_PID);
                assert(!kids.contains(rp)) by {
                    if kids.contains(rp) {
                        let w = choose|w: int| 0 <= w < kids.len() && kids[w] == rp;
                        assert(old(self).spec_processes()[kids[w] as int] is Some);
                    }
                }
                assert(self.spec_processes()[rp as int] == old(self).spec_processes()[
                    rp as int]);
            }
        }
    }
}

/// An orphan after adoption: its parent is the initial process; every
/// other field is as it was.
pub open spec fn adopted(a: ProcessControlBlock, b: ProcessControlBlock) -> bool {
    &&& b.parent == Some(IDLE_PID)
    &&& b.pid == a.pid
    &&& b.is_zombie == a.is_zombie
    &&& b.exit_code == a.exit_code
    &&& b.children@ == a.children@
    &&& b.fd_table@ == a.fd_table@
    &&& b.signals == a.signals
    &&& b.tasks@ == a.tasks@
    &&& same_sync_tables(a, b)
}

/// Whether a child pid satisfies a `waitpid` request: -1 accepts any
/// child; otherwise the pids must agree.
pub open spec fn child_matches(child_pid: usize, target: isize) -> bool {
    target == -1 || (target >= 0 && child_pid == target as usize)
}


/// The two blocks hold the same sync-object tables.
pub open spec fn same_sync_tables(a: ProcessControlBlock, b: ProcessControlBlock) -> bool {
    &&& a.mutex_list@ == b.mutex_list@
    &&& a.semaphore_list@ == b.semaphore_list@
    &&& a.condvar_list@ == b.condvar_list@
}

/// The two blocks agree on every field but the mutex table.
pub open spec fn same_but_mutexes(a: ProcessControlBlock, b: ProcessControlBlock) -> bool {
    &&& a.pid == b.pid
    &&& a.is_zombie == b.is_zombie
    &&& a.exit_code == b.exit_code
    &&& a.parent == b.parent
    &&& a.children@ == b.children@
    &&& a.fd_table@ == b.fd_table@
    &&& a.signals == b.signals
    &&& a.tasks@ == b.tasks@
    &&& a.task_res_allocator == b.task_res_allocator
    &&& a.semaphore_list@ == b.semaphore_list@
    &&& a.condvar_list@ == b.condvar_list@
}

/// The two blocks agree on every field but the semaphore table.
pub open spec fn same_but_semaphores(a: ProcessControlBlock, b: ProcessControlBlock) -> bool {
    &&& a.pid == b.pid
    &&& a.is_zombie == b.is_zombie
    &&& a.exit_code == b.exit_code
    &&& a.parent == b.parent
    &&& a.children@ == b.children@
    &&& a.fd_table@ == b.fd_table@
    &&& a.signals == b.signals
    &&& a.tasks@ == b.tasks@
    &&& a.task_res_allocator == b.task_res_allocator
    &&& a.mutex_list@ == b.mutex_list@
    &&& a.condvar_list@ == b.condvar_list@
}

/// The two blocks agree on every field but the condvar table.
pub open spec fn same_but_condvars(a: ProcessControlBlock, b: ProcessControlBlock) -> bool {
    &&& a.pid == b.pid
    &&& a.is_zombie == b.is_zombie
    &&& a.exit_code == b.exit_code
    &&& a.parent == b.parent
    &&& a.children@ == b.children@
    &&& a.fd_table@ == b.fd_table@
    &&& a.signals == b.signals
    &&& a.tasks@ == b.tasks@
    &&& a.task_res_allocator == b.task_res_allocator
    &&& a.semaphore_list@ == b.semaphore_list@
    &&& a.mutex_list@ == b.mutex_list@
}

/// The two blocks agree on every field but the children list.
pub open spec fn same_but_children(a: ProcessControlBlock, b: ProcessControlBlock) -> bool {
    &&& a.pid == b.pid
    &&& a.is_zombie == b.is_zombie
    &&& a.exit_code == b.exit_code
    &&& a.parent == b.parent
    &&& a.fd_table@ == b.fd_table@
    &&& a.signals == b.signals
    &&& a.tasks@ == b.tasks@
    &&& a.task_res_allocator == b.task_res_allocator
    &&& same_sync_tables(a, b)
}

/// The two blocks agree on every field but the pending signals.
pub open spec fn same_but_signals(a: ProcessControlBlock, b: ProcessControlBlock) -> bool {
    &&& a.pid == b.pid
    &&& a.is_zombie == b.is_zombie
    &&& a.exit_code == b.exit_code
    &&& a.parent == b.parent
    &&& a.children@ == b.children@
    &&& a.fd_table@ == b.fd_table@
    &&& a.tasks@ == b.tasks@
    &&& a.task_res_allocator == b.task_res_allocator
    &&& same_sync_tables(a, b)
}

/// The two blocks agree on every field but the tid recycler.
pub open spec fn same_but_tid_allocator(a: ProcessControlBlock, b: ProcessControlBlock) -> bool {
    &&& a.pid == b.pid
    &&& a.is_zombie == b.is_zombie
    &&& a.exit_code == b.exit_code
    &&& a.parent == b.parent
    &&& a.children@ == b.children@
    &&& a.fd_table@ == b.fd_table@
    &&& a.signals == b.signals
    &&& a.tasks@ == b.tasks@
    &&& same_sync_tables(a, b)
}

/// A process block exactly as `ProcessControlBlock::new` builds it:
/// fresh, with the console on descriptors 0, 1 and 2.
pub open spec fn is_fresh(pcb: ProcessControlBlock, pid: usize) -> bool {
    &&& pcb.pid == pid
    &&& !pcb.is_zombie
    &&& pcb.exit_code == 0
    &&& pcb.parent is None
    &&& pcb.children@.len() == 0
    &&& pcb.fd_table@ == seq![
        Some(FileDescriptor::Stdin),
        Some(FileDescriptor::Stdout),
        Some(FileDescriptor::Stdout),
    ]
    &&& pcb.signals.bits == 0
    &&& pcb.tasks@.len() == 0
    &&& pcb.task_res_allocator.wf()
    &&& pcb.task_res_allocator.spec_current() == 0
    &&& pcb.task_res_allocator.spec_recycled().len() == 0
    &&& pcb.mutex_list@.len() == 0
    &&& pcb.semaphore_list@.len() == 0
    &&& pcb.condvar_list@.len() == 0
}

/// Total bytes the zero-terminated argument strings occupy.
pub open spec fn args_bytes(args: Seq<Seq<u8>>, n: int) -> int
    decreases n,
{
    if n <= 0 {
        0
    } else {
        args_bytes(args, n - 1) + args[n - 1].len() + 1
    }
}

/// Lay the argument vector out on a fresh user stack topped at
/// `ustack_top`: pointers first, then the strings downwards in order.
pub fn build_arg_stack(ustack_top: usize, args: &Vec<Vec<u8>>) -> (r: ArgStack)
    requires
        args@.len() < MAX_ARGS,
        forall|k: int| 0 <= k < args@.len() ==> (#[trigger] args@[k])@.len() < MAX_ARG_LEN,
        ustack_top > 8 * (args@.len() + 1) + args_bytes(
            args@.map_values(|a: Vec<u8>| a@),
            args@.len() as int,
        ) + 8,
    ensures
        r.argv_base == ustack_top - 8 * (args@.len() + 1),
        r.argv@.len() == args@.len() + 1,
        r.argv@[args@.len() as int] == 0,
        r.strings@.len() == args@.len(),
        forall|k: int|
            0 <= k < args@.len() ==> #[trigger] r.argv@[k] == r.argv_base - args_bytes(
                args@.map_values(|a: Vec<u8>| a@),
                k + 1,
            ),
        forall|k: int|
            0 <= k < args@.len() ==> (#[trigger] r.strings@[k])@ == args@[k]@.push(0u8),
        r.user_sp == (r.argv_base - args_bytes(
            args@.map_values(|a: Vec<u8>| a@),
            args@.len() as int,
        )) / 8 * 8,
        r.user_sp <= r.argv_base,
{
    let ghost sargs = args@.map_values(|a: Vec<u8>| a@);
    proof {
        lemma_args_bytes_bounds(sargs, args@.len() as int);
    }
    let argv_base = ustack_top - 8 * (args.len() + 1);
    let mut argv: Vec<usize> = Vec::new();
    let mut strings: Vec<Vec<u8>> = Vec::new();
    let mut sp = argv_base;
    let mut k: usize = 0;
    proof {
        lemma_args_bytes_bounds(sargs, args@.len() as int);
    }
    while k < args.len()
        invariant
            k <= args@.len(),
            args@.len() < MAX_ARGS,
            forall|q: int| 0 <= q < args@.len() ==> (#[trigger] args@[q])@.len() < MAX_ARG_LEN,
            sargs == args@.map_values(|a: Vec<u8>| a@),
            argv_base == ustack_top - 8 * (args@.len() + 1),
            ustack_top > 8 * (args@.len() + 1) + args_bytes(sargs, args@.len() as int) + 8,
            argv@.len() == k,
            strings@.len() == k,
            sp == argv_base - args_bytes(sargs, k as int),
            forall|q: int|
                0 <= q < k ==> #[trigger] argv@[q] == argv_base - args_bytes(sargs, q + 1),
            forall|q: int| 0 <= q < k ==> (#[trigger] strings@[q])@ == args@[q]@.push(0u8),
        decreases args@.len() - k,
    {
        proof {
            lemma_args_bytes_bounds(sargs, args@.len() as int);
            lemma_args_bytes_mono(sargs, k as int + 1, args@.len() as int);
        }
        let mut s: Vec<u8> = Vec::new();
        let mut b: usize = 0;
        while b < args[k].len()
            invariant
                k < args@.len(),
                b <= args@[k as int]@.len(),
                s@ == args@[k as int]@.take(b as int),
            decreases args@[k as int]@.len() - b,
        {
            s.push(args[k][b]);
            proof {
                assert(s@ =~= args@[k as int]@.take(b as int + 1));
            }
            b += 1;
        }
        s.push(0u8);
        proof {
            assert(args@[k as int]@.take(args@[k as int]@.len() as int) =~= args@[k as int]@);
            assert(s@ =~= args@[k as int]@.push(0u8));
            assert(sargs[k as int] == args@[k as int]@);
        }
        sp = sp - (args[k].len() + 1);
        argv.push(sp);
        strings.push(s);
        k += 1;
    }
    argv.push(0);
    let user_sp = sp / 8 * 8;
    proof {
        assert(user_sp <= sp) by (nonlinear_arith)
            requires user_sp == sp / 8 * 8, sp >= 0,
        ;
        assert(argv@[args@.len() as int] == 0);
    }
    ArgStack { user_sp, argv_base, argv, strings }
}


/// Everything `exec` determines, as a relation between its inputs and the
/// trap frame and argument stack it hands back.
pub open spec fn exec_post(
    entry: usize,
    ustack_top: usize,
    args: Seq<Seq<u8>>,
    kernel_satp: usize,
    kstack_top: usize,
    trap_handler: usize,
    sstatus: usize,
    cx: TrapContext,
    st: ArgStack,
) -> bool {
    &&& cx.wf()
    &&& cx.sepc == entry
    &&& cx.sstatus == sstatus
    &&& cx.kernel_satp == kernel_satp
    &&& cx.kernel_sp == kstack_top
    &&& cx.trap_handler == trap_handler
    &&& cx.x@[2] == st.user_sp
    &&& cx.x@[10] == args.len()
    &&& cx.x@[11] == st.argv_base
    &&& (forall|k: int| 0 <= k < 32 && k != 2 && k != 10 && k != 11 ==> #[trigger] cx.x@[k] == 0)
    &&& st.argv_base == ustack_top - 8 * (args.len() + 1)
    &&& st.argv@.len() == args.len() + 1
    &&& st.argv@[args.len() as int] == 0
    &&& (forall|k: int|
        0 <= k < args.len() ==> #[trigger] st.argv@[k] == st.argv_base - args_bytes(args, k + 1))
    &&& st.strings@.len() == args.len()
    &&& (forall|k: int| 0 <= k < args.len() ==> (#[trigger] st.strings@[k])@ == args[k].push(0u8))
    &&& st.user_sp == (st.argv_base - args_bytes(args, args.len() as int)) / 8 * 8
}

/// Replace the main thread's user state with a fresh program image: lay
/// the arguments out on the new user stack and build the initial trap
/// frame, with `a0` holding the argument count and `a1` the argv base.
/// Installing the frame at the thread's trap page is the caller's work.
pub fn exec(
    entry: usize,
    ustack_top: usize,
    args: &Vec<Vec<u8>>,
    kernel_satp: usize,
    kstack_top: usize,
    trap_handler: usize,
    sstatus: usize,
) -> (r: (TrapContext, ArgStack))
    requires
        args@.len() < MAX_ARGS,
        forall|k: int| 0 <= k < args@.len() ==> (#[trigger] args@[k])@.len() < MAX_ARG_LEN,
        ustack_top > 8 * (args@.len() + 1) + args_bytes(
            args@.map_values(|a: Vec<u8>| a@),
            args@.len() as int,
        ) + 8,
    ensures
        exec_post(
            entry,
            ustack_top,
            args@.map_values(|a: Vec<u8>| a@),
            kernel_satp,
            kstack_top,
            trap_handler,
            sstatus,
            r.0,
            r.1,
        ),
{
    let stack = build_arg_stack(ustack_top, args);
    let mut cx = TrapContext::app_init_context(
        entry,
        stack.user_sp,
        kernel_satp,
        kstack_top,
        trap_handler,
        sstatus,
    );
    cx.x[10] = args.len();
    cx.x[11] = stack.argv_base;
    proof {
        assert(args@.map_values(|a: Vec<u8>| a@).len() == args@.len());
        assert forall|k: int|
            0 <= k < args@.len() implies (#[trigger] stack.strings@[k])@ == args@.map_values(
            |a: Vec<u8>| a@,
        )[k].push(0u8) by {
            assert(stack.strings@[k]@ == args@[k]@.push(0u8));
        }
    }
    (cx, stack)
}

/// Law: `exec` erases history. What a program starts with after `exec` is
/// a function of the program image and arguments alone: two threads that
/// exec the same program with the same arguments — one freshly spawned,
/// one forked from any parent — begin from identical trap frames and
/// argument stacks, whatever their pasts held.
pub proof fn lemma_exec_erases_history(
    entry: usize,
    ustack_top: usize,
    args: Seq<Seq<u8>>,
    kernel_satp: usize,
    kstack_top: usize,
    trap_handler: usize,
    sstatus: usize,
    cx1: TrapContext,
    st1: ArgStack,
    cx2: TrapContext,
    st2: ArgStack,
)
    requires
        exec_post(entry, ustack_top, args, kernel_satp, kstack_top, trap_handler, sstatus, cx1, st1),
        exec_post(entry, ustack_top, args, kernel_satp, kstack_top, trap_handler, sstatus, cx2, st2),
    ensures
        cx1.x@ == cx2.x@,
        cx1.sepc == cx2.sepc,
        cx1.sstatus == cx2.sstatus,
        cx1.kernel_satp == cx2.kernel_satp,
        cx1.kernel_sp == cx2.kernel_sp,
        cx1.trap_handler == cx2.trap_handler,
        st1.user_sp == st2.user_sp,
        st1.argv_base == st2.argv_base,
        st1.argv@ == st2.argv@,
        forall|k: int| 0 <= k < args.len() ==> (#[trigger] st1.strings@[k])@ == st2.strings@[k]@,
{
    assert(st1.argv@ =~= st2.argv@);
    assert(cx1.x@ =~= cx2.x@);
}

/// The argument block never has negative size and grows with each
/// argument.
proof fn lemma_args_bytes_bounds(args: Seq<Seq<u8>>, n: int)
    ensures
        args_bytes(args, n) >= 0,
    decreases n,
{
    if n > 0 {
        lemma_args_bytes_bounds(args, n - 1);
    }
}

/// A longer prefix of arguments occupies at least as many bytes.
proof fn lemma_args_bytes_mono(args: Seq<Seq<u8>>, n1: int, n2: int)
    requires
        0 <= n1 <= n2,
    ensures
        args_bytes(args, n1) <= args_bytes(args, n2),
    decreases n2,
{
    if n1 < n2 {
        lemma_args_bytes_mono(args, n1, n2 - 1);
    }
}

} // verus!
