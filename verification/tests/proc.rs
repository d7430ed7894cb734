//! Process lifecycle, synchronization, syscall and trap tests.

use kernel_core::kernel::Kernel;
use kernel_core::process::{
    build_arg_stack, exec, ProcessControlBlock, ProcessTable, SignalFlags, TrapContext,
    WaitResult, SIGILL, SIGSEGV,
};
use kernel_core::sync::{Condvar, Mutex, Semaphore};
use kernel_core::syscall::{is_known_syscall, syscall, SyscallRequest};
use kernel_core::task::{TaskControlBlock, TaskStatus, TaskUserRes};
use kernel_core::trap::{trap_handler, TrapAction, TrapCause};

/// A forked child that exits with 42 is reaped by `waitpid(-1)`, which
/// hands back its pid and that code.
#[test]
fn fork_exit_waitpid() {
    let mut k = Kernel::init();
    let initproc = k.add_initproc();
    assert_eq!(initproc, 0);

    // the initial process gets a main thread and runs
    let t0 = k.tasks.add_task(TaskControlBlock::new(
        initproc,
        1,
        100,
        TaskUserRes { tid: 0, ustack_base: 0x8000 },
    ));
    k.processes.attach_thread(initproc, t0);
    assert_eq!(k.tasks.schedule_next(), Some(t0));

    // fork a child and give it a main thread
    let child = k.processes.fork(initproc);
    assert_ne!(child, initproc);
    let t1 = k.tasks.add_task(TaskControlBlock::new(
        child,
        2,
        101,
        TaskUserRes { tid: 0, ustack_base: 0x8000 },
    ));
    k.processes.attach_thread(child, t1);

    // before the child exits, waitpid would block
    assert_eq!(k.processes.waitpid(initproc, -1), WaitResult::NotExited);
    assert_eq!(k.processes.waitpid(initproc, child as isize), WaitResult::NotExited);
    assert_eq!(k.processes.waitpid(initproc, 999), WaitResult::NoChild);

    // the child runs, exits with 42, and its process dies with it
    k.tasks.suspend_current();
    assert_eq!(k.tasks.schedule_next(), Some(t1));
    let _ = k.exit_current_and_run_next(42);
    assert_eq!(k.tasks.exit_code_of(t1), Some(42));

    // the parent reaps it
    match k.processes.waitpid(initproc, -1) {
        WaitResult::Reaped(pid, code) => {
            assert_eq!(pid, child);
            assert_eq!(code, 42);
        }
        other => panic!("expected a reap, got {:?}", other),
    }
    // nothing is left to wait for
    assert_eq!(k.processes.waitpid(initproc, -1), WaitResult::NoChild);
}

/// A fork shares the parent's open files and inherits its signals.
#[test]
fn fork_shares_files_and_signals() {
    let mut table = ProcessTable::new();
    let parent = table.insert_new_process();
    table.add_signal(parent, SIGILL);
    let child = table.fork(parent);
    assert_eq!(table.signals_of(child).bits, SIGILL);
    assert_eq!(table.signals_of(parent).bits, SIGILL);
    assert!(!table.contains(999));
    assert!(table.contains(child));
}

/// A dying parent's children are adopted by the initial process.
#[test]
fn orphans_go_to_initproc() {
    let mut k = Kernel::init();
    let initproc = k.add_initproc();
    let t0 = k.tasks.add_task(TaskControlBlock::new(
        initproc,
        1,
        100,
        TaskUserRes { tid: 0, ustack_base: 0x8000 },
    ));
    k.processes.attach_thread(initproc, t0);

    let middle = k.processes.fork(initproc);
    let t1 = k.tasks.add_task(TaskControlBlock::new(
        middle,
        2,
        101,
        TaskUserRes { tid: 0, ustack_base: 0x8000 },
    ));
    k.processes.attach_thread(middle, t1);
    let grandchild = k.processes.fork(middle);

    // the middle process runs and dies; its child moves to the initial one
    assert_eq!(k.tasks.schedule_next(), Some(t0));
    k.tasks.suspend_current();
    assert_eq!(k.tasks.schedule_next(), Some(t1));
    let _ = k.exit_current_and_run_next(0);

    // initproc now waits for the grandchild too, and the orphan's parent
    // link points at it
    assert_eq!(k.processes.waitpid(initproc, grandchild as isize), WaitResult::NotExited);
    assert_eq!(k.processes.parent_of(grandchild), Some(initproc));
}

/// The lowest closed descriptor is reused; the console sits on 0..=2.
#[test]
fn fd_table_lowest_free() {
    let mut pcb = ProcessControlBlock::new(5);
    assert_eq!(pcb.fd_table.len(), 3);
    assert_eq!(pcb.alloc_fd(), 3);
    pcb.fd_table[1] = None;
    assert_eq!(pcb.alloc_fd(), 1);
}

/// Tids recycle last-in-first-out within a process.
#[test]
fn tid_recycling() {
    let mut pcb = ProcessControlBlock::new(1);
    assert_eq!(pcb.alloc_tid(), 0);
    assert_eq!(pcb.alloc_tid(), 1);
    pcb.dealloc_tid(0);
    assert_eq!(pcb.alloc_tid(), 0);
}

/// Sync objects live in per-process tables: ids count up from zero and
/// freed slots are reused lowest first.
#[test]
fn sync_object_tables() {
    let mut pcb = ProcessControlBlock::new(3);
    assert_eq!(pcb.mutex_create(true), 0);
    assert_eq!(pcb.mutex_create(false), 1);
    assert_eq!(pcb.semaphore_create(2), 0);
    assert_eq!(pcb.condvar_create(), 0);
    assert!(pcb.mutex_list[1].as_ref().unwrap().blocking == false);
    assert_eq!(pcb.semaphore_list[0].as_ref().unwrap().count, 2);
    pcb.mutex_list[0] = None;
    assert_eq!(pcb.mutex_create(true), 0);
}

/// The trap path steps past the `ecall` and stores the result in `a0`.
#[test]
fn trap_frame_syscall_completion() {
    let mut cx = TrapContext::app_init_context(0x400, 0x7000, 1, 2, 3, 4);
    cx.step_past_ecall();
    assert_eq!(cx.sepc, 0x404);
    cx.set_syscall_return(77);
    assert_eq!(cx.x[10], 77);
    assert_eq!(cx.x[2], 0x7000);
}

/// The pending-signal check maps each fatal signal to its exit code.
#[test]
fn signal_error_codes() {
    let mut s = SignalFlags::empty();
    assert_eq!(s.check_error(), None);
    s.insert(SIGSEGV);
    assert_eq!(s.check_error(), Some(-11));
    s.insert(SIGILL);
    assert_eq!(s.check_error(), Some(-4));
    assert!(s.contains(SIGSEGV));
    assert!(!s.contains(1));
}

/// The argument stack: pointers above, strings below in order, trailing
/// null pointer, stack pointer aligned down to eight bytes.
#[test]
fn arg_stack_layout() {
    let top: usize = 0x1_0000;
    let args = vec![b"prog".to_vec(), b"xy".to_vec()];
    let st = build_arg_stack(top, &args);
    assert_eq!(st.argv_base, top - 8 * 3);
    assert_eq!(st.argv.len(), 3);
    assert_eq!(st.argv[2], 0);
    // strings stack downward in argument order, each zero-terminated
    assert_eq!(st.argv[0], st.argv_base - 5);
    assert_eq!(st.argv[1], st.argv_base - 8);
    assert_eq!(st.strings[0], b"prog\0".to_vec());
    assert_eq!(st.strings[1], b"xy\0".to_vec());
    assert_eq!(st.user_sp % 8, 0);
    assert!(st.user_sp <= st.argv[1]);
}

/// After exec, the trap frame starts the program at its entry with
/// `a0 = argc` and `a1 = argv`, whatever ran before.
#[test]
fn exec_builds_fresh_frame() {
    let args = vec![b"echo".to_vec(), b"hi".to_vec()];
    let (cx, st) = exec(0x1000, 0x1_0000, &args, 0x8000_0000, 0x9000, 0x2000, 0x120);
    assert_eq!(cx.sepc, 0x1000);
    assert_eq!(cx.kernel_satp, 0x8000_0000);
    assert_eq!(cx.kernel_sp, 0x9000);
    assert_eq!(cx.trap_handler, 0x2000);
    assert_eq!(cx.sstatus, 0x120);
    assert_eq!(cx.x[2], st.user_sp);
    assert_eq!(cx.x[10], 2); // argc
    assert_eq!(cx.x[11], st.argv_base); // argv
    for k in 0..32 {
        if k != 2 && k != 10 && k != 11 {
            assert_eq!(cx.x[k], 0);
        }
    }

    // the same program and arguments give the same start state again
    let (cx2, st2) = exec(0x1000, 0x1_0000, &args, 0x8000_0000, 0x9000, 0x2000, 0x120);
    assert_eq!(cx.x, cx2.x);
    assert_eq!(st.user_sp, st2.user_sp);
    assert_eq!(st.argv, st2.argv);
}

/// The initial frame of a fresh thread: zero registers but the stack
/// pointer, resumption at the entry.
#[test]
fn app_init_frame() {
    let cx = TrapContext::app_init_context(0x400, 0x7000, 1, 2, 3, 4);
    assert_eq!(cx.sepc, 0x400);
    assert_eq!(cx.x[2], 0x7000);
    assert_eq!(cx.x[10], 0);
    let mut cx2 = cx;
    cx2.set_sp(0x6000);
    assert_eq!(cx2.x[2], 0x6000);
}

/// One producer and one consumer share a ring buffer guarded by a
/// full/empty semaphore pair: every produced item is consumed, in order.
#[test]
fn producer_consumer_semaphores() {
    const CAP: usize = 4;
    const N: usize = 20;
    let producer = 1usize;
    let consumer = 2usize;
    let mut empty = Semaphore::new(CAP);
    let mut full = Semaphore::new(0);
    let mut ring: Vec<usize> = Vec::new();
    let mut consumed: Vec<usize> = Vec::new();
    let mut produced = 0usize;
    let mut producer_blocked = false;
    let mut consumer_blocked = false;
    // a permit handed over by `up` while its taker slept
    let mut p_permit = false;
    let mut c_permit = false;

    // alternate the two threads until all items pass through
    while consumed.len() < N {
        let mut progressed = false;
        while produced < N && !producer_blocked {
            if !p_permit && !empty.down(producer) {
                producer_blocked = true;
                break;
            }
            p_permit = false;
            ring.push(produced);
            assert!(ring.len() <= CAP);
            produced += 1;
            progressed = true;
            if let Some(w) = full.up() {
                assert_eq!(w, consumer);
                consumer_blocked = false;
                c_permit = true;
            }
        }
        while consumed.len() < N && !consumer_blocked {
            if !c_permit && !full.down(consumer) {
                consumer_blocked = true;
                break;
            }
            c_permit = false;
            let item = ring.remove(0);
            consumed.push(item);
            progressed = true;
            if let Some(w) = empty.up() {
                assert_eq!(w, producer);
                producer_blocked = false;
                p_permit = true;
            }
        }
        if consumed.len() >= N {
            break;
        }
        assert!(progressed, "no thread could make progress");
    }
    assert_eq!(consumed, (0..N).collect::<Vec<usize>>());
}

/// The mutex hands the lock to the first waiter on unlock.
#[test]
fn mutex_hand_off() {
    let mut m = Mutex::new(true);
    assert!(m.lock(1));
    assert!(!m.lock(2));
    assert!(!m.lock(3));
    assert_eq!(m.unlock(), Some(2));
    assert!(m.locked);
    assert_eq!(m.unlock(), Some(3));
    assert_eq!(m.unlock(), None);
    assert!(!m.locked);
}

/// A condition variable wakes waiters first come first served.
#[test]
fn condvar_fifo() {
    let mut cv = Condvar::new();
    assert_eq!(cv.signal(), None);
    cv.wait_enqueue(7);
    cv.wait_enqueue(8);
    assert_eq!(cv.signal(), Some(7));
    assert_eq!(cv.signal(), Some(8));
    assert_eq!(cv.signal(), None);
}

/// The syscall table decodes ids and registers as documented.
#[test]
fn syscall_decoding() {
    assert!(is_known_syscall(64));
    assert!(!is_known_syscall(65));
    assert_eq!(
        syscall(64, (1, 0x5000, 12)),
        SyscallRequest::Write { fd: 1, buf_ptr: 0x5000, len: 12 }
    );
    assert_eq!(syscall(93, (42, 0, 0)), SyscallRequest::Exit { code: 42 });
    assert_eq!(syscall(124, (0, 0, 0)), SyscallRequest::Yield);
    assert_eq!(syscall(220, (0, 0, 0)), SyscallRequest::Fork);
    assert_eq!(
        syscall(260, (usize::MAX, 0x6000, 0)),
        SyscallRequest::WaitPid { pid: -1, exit_code_ptr: 0x6000 }
    );
    assert_eq!(syscall(101, (300, 0, 0)), SyscallRequest::Sleep { ms: 300 });
    assert_eq!(syscall(1010, (1, 0, 0)), SyscallRequest::MutexCreate { blocking: true });
    assert_eq!(syscall(1022, (3, 0, 0)), SyscallRequest::SemaphoreDown { id: 3 });
    assert_eq!(
        syscall(1032, (2, 5, 0)),
        SyscallRequest::CondvarWait { id: 2, mutex_id: 5 }
    );
}

/// Each trap cause maps to its action: syscall, preemption or a fatal
/// signal.
#[test]
fn trap_classification() {
    assert_eq!(trap_handler(TrapCause::UserEnvCall), TrapAction::Syscall);
    assert_eq!(trap_handler(TrapCause::SupervisorTimer), TrapAction::Preempt);
    assert_eq!(trap_handler(TrapCause::StorePageFault), TrapAction::Fatal(SIGSEGV));
    assert_eq!(trap_handler(TrapCause::LoadFault), TrapAction::Fatal(SIGSEGV));
    assert_eq!(trap_handler(TrapCause::IllegalInstruction), TrapAction::Fatal(SIGILL));
}

/// A sleeping kernel thread wakes once its deadline passes and runs
/// again.
#[test]
fn kernel_sleep_and_wake() {
    let mut k = Kernel::init();
    let initproc = k.add_initproc();
    let t0 = k.tasks.add_task(TaskControlBlock::new(
        initproc,
        1,
        100,
        TaskUserRes { tid: 0, ustack_base: 0x8000 },
    ));
    k.processes.attach_thread(initproc, t0);
    assert_eq!(k.tasks.schedule_next(), Some(t0));

    // the thread sleeps; nothing is left to run
    let next = k.sleep_current(250);
    assert_eq!(next, None);
    assert_eq!(k.tasks.status_of(t0), TaskStatus::Blocked);

    // before the deadline the sleeper stays blocked
    k.check_timer(249);
    assert_eq!(k.tasks.status_of(t0), TaskStatus::Blocked);

    // at the deadline it becomes ready and runs again
    k.check_timer(250);
    assert_eq!(k.tasks.status_of(t0), TaskStatus::Ready);
    assert_eq!(k.tasks.schedule_next(), Some(t0));
}

/// A fatal signal raised on the running process is reported with its
/// error code.
#[test]
fn current_signal_check() {
    let mut k = Kernel::init();
    let initproc = k.add_initproc();
    let t0 = k.tasks.add_task(TaskControlBlock::new(
        initproc,
        1,
        100,
        TaskUserRes { tid: 0, ustack_base: 0x8000 },
    ));
    k.processes.attach_thread(initproc, t0);
    assert_eq!(k.tasks.schedule_next(), Some(t0));
    assert_eq!(k.check_signals_of_current(), None);
    k.current_add_signal(SIGSEGV);
    assert_eq!(k.check_signals_of_current(), Some(-11));
}
