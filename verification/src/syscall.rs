//! System-call decoding: from the raw id and argument registers to a
//! structured request. Dispatching to the handlers stays with the trap
//! path; this is the single place that fixes the numbering.

use vstd::prelude::*;

verus! {

pub const SYSCALL_DUP: usize = 24;

pub const SYSCALL_OPEN: usize = 56;

pub const SYSCALL_CLOSE: usize = 57;

pub const SYSCALL_PIPE: usize = 59;

pub const SYSCALL_READ: usize = 63;

pub const SYSCALL_WRITE: usize = 64;

pub const SYSCALL_EXIT: usize = 93;

pub const SYSCALL_SLEEP: usize = 101;

pub const SYSCALL_YIELD: usize = 124;

pub const SYSCALL_KILL: usize = 129;

pub const SYSCALL_GET_TIME: usize = 169;

pub const SYSCALL_GETPID: usize = 172;

pub const SYSCALL_FORK: usize = 220;

pub const SYSCALL_EXEC: usize = 221;

pub const SYSCALL_WAITPID: usize = 260;

pub const SYSCALL_THREAD_CREATE: usize = 1000;

pub const SYSCALL_GETTID: usize = 1001;

pub const SYSCALL_WAITTID: usize = 1002;

pub const SYSCALL_MUTEX_CREATE: usize = 1010;

pub const SYSCALL_MUTEX_LOCK: usize = 1011;

pub const SYSCALL_MUTEX_UNLOCK: usize = 1012;

pub const SYSCALL_SEMAPHORE_CREATE: usize = 1020;

pub const SYSCALL_SEMAPHORE_UP: usize = 1021;

pub const SYSCALL_SEMAPHORE_DOWN: usize = 1022;

pub const SYSCALL_CONDVAR_CREATE: usize = 1030;

pub const SYSCALL_CONDVAR_SIGNAL: usize = 1031;

pub const SYSCALL_CONDVAR_WAIT: usize = 1032;

/// A decoded system call, arguments picked out of `a0..a2`.
#[derive(Clone, Copy, PartialEq, Eq, Structural, Debug)]
pub enum SyscallRequest {
    Dup { fd: usize },
    Open { path_ptr: usize, flags: u32 },
    Close { fd: usize },
    Pipe { fd_ptr: usize },
    Read { fd: usize, buf_ptr: usize, len: usize },
    Write { fd: usize, buf_ptr: usize, len: usize },
    Exit { code: i32 },
    Sleep { ms: usize },
    Yield,
    Kill { pid: usize, signal: u32 },
    GetTime,
    GetPid,
    Fork,
    Exec { path_ptr: usize, argv_ptr: usize },
    WaitPid { pid: isize, exit_code_ptr: usize },
    ThreadCreate { entry: usize, arg: usize },
    GetTid,
    WaitTid { tid: usize },
    MutexCreate { blocking: bool },
    MutexLock { id: usize },
    MutexUnlock { id: usize },
    SemaphoreCreate { count: usize },
    SemaphoreUp { id: usize },
    SemaphoreDown { id: usize },
    CondvarCreate,
    CondvarSignal { id: usize },
    CondvarWait { id: usize, mutex_id: usize },
}

/// Whether an id stands in the system-call table.
pub open spec fn known_syscall(id: usize) -> bool {
    ||| id == SYSCALL_DUP
    ||| id == SYSCALL_OPEN
    ||| id == SYSCALL_CLOSE
    ||| id == SYSCALL_PIPE
    ||| id == SYSCALL_READ
    ||| id == SYSCALL_WRITE
    ||| id == SYSCALL_EXIT
    ||| id == SYSCALL_SLEEP
    ||| id == SYSCALL_YIELD
    ||| id == SYSCALL_KILL
    ||| id == SYSCALL_GET_TIME
    ||| id == SYSCALL_GETPID
    ||| id == SYSCALL_FORK
    ||| id == SYSCALL_EXEC
    ||| id == SYSCALL_WAITPID
    ||| id == SYSCALL_THREAD_CREATE
    ||| id == SYSCALL_GETTID
    ||| id == SYSCALL_WAITTID
    ||| id == SYSCALL_MUTEX_CREATE
    ||| id == SYSCALL_MUTEX_LOCK
    ||| id == SYSCALL_MUTEX_UNLOCK
    ||| id == SYSCALL_SEMAPHORE_CREATE
    ||| id == SYSCALL_SEMAPHORE_UP
    ||| id == SYSCALL_SEMAPHORE_DOWN
    ||| id == SYSCALL_CONDVAR_CREATE
    ||| id == SYSCALL_CONDVAR_SIGNAL
    ||| id == SYSCALL_CONDVAR_WAIT
}

/// What each known id decodes to.
pub open spec fn decoded(id: usize, a0: usize, a1: usize, a2: usize) -> SyscallRequest {
    if id == SYSCALL_DUP {
        SyscallRequest::Dup { fd: a0 }
    } else if id == SYSCALL_OPEN {
        SyscallRequest::Open { path_ptr: a0, flags: a1 as u32 }
    } else if id == SYSCALL_CLOSE {
        SyscallRequest::Close { fd: a0 }
    } else if id == SYSCALL_PIPE {
        SyscallRequest::Pipe { fd_ptr: a0 }
    } else if id == SYSCALL_READ {
        SyscallRequest::Read { fd: a0, buf_ptr: a1, len: a2 }
    } else if id == SYSCALL_WRITE {
        SyscallRequest::Write { fd: a0, buf_ptr: a1, len: a2 }
    } else if id == SYSCALL_EXIT {
        SyscallRequest::Exit { code: a0 as i32 }
    } else if id == SYSCALL_SLEEP {
        SyscallRequest::Sleep { ms: a0 }
    } else if id == SYSCALL_YIELD {
        SyscallRequest::Yield
    } else if id == SYSCALL_KILL {
        SyscallRequest::Kill { pid: a0, signal: a1 as u32 }
    } else if id == SYSCALL_GET_TIME {
        SyscallRequest::GetTime
    } else if id == SYSCALL_GETPID {
        SyscallRequest::GetPid
    } else if id == SYSCALL_FORK {
        SyscallRequest::Fork
    } else if id == SYSCALL_EXEC {
        SyscallRequest::Exec { path_ptr: a0, argv_ptr: a1 }
    } else if id == SYSCALL_WAITPID {
        SyscallRequest::WaitPid { pid: a0 as isize, exit_code_ptr: a1 }
    } else if id == SYSCALL_THREAD_CREATE {
        SyscallRequest::ThreadCreate { entry: a0, arg: a1 }
    } else if id == SYSCALL_GETTID {
        SyscallRequest::GetTid
    } else if id == SYSCALL_WAITTID {
        SyscallRequest::WaitTid { tid: a0 }
    } else if id == SYSCALL_MUTEX_CREATE {
        SyscallRequest::MutexCreate { blocking: a0 == 1 }
    } else if id == SYSCALL_MUTEX_LOCK {
        SyscallRequest::MutexLock { id: a0 }
    } else if id == SYSCALL_MUTEX_UNLOCK {
        SyscallRequest::MutexUnlock { id: a0 }
    } else if id == SYSCALL_SEMAPHORE_CREATE {
        SyscallRequest::SemaphoreCreate { count: a0 }
    } else if id == SYSCALL_SEMAPHORE_UP {
        SyscallRequest::SemaphoreUp { id: a0 }
    } else if id == SYSCALL_SEMAPHORE_DOWN {
        SyscallRequest::SemaphoreDown { id: a0 }
    } else if id == SYSCALL_CONDVAR_CREATE {
        SyscallRequest::CondvarCreate
    } else if id == SYSCALL_CONDVAR_SIGNAL {
        SyscallRequest::CondvarSignal { id: a0 }
    } else {
        SyscallRequest::CondvarWait { id: a0, mutex_id: a1 }
    }
}

/// Decode a system call from its id and the three argument registers.
/// An id outside the table is a kernel bug at this layer and is ruled
/// out by the caller, which checks `is_known_syscall` first.
pub fn syscall(syscall_id: usize, args: (usize, usize, usize)) -> (r: SyscallRequest)
    requires
        known_syscall(syscall_id),
    ensures
        r == decoded(syscall_id, args.0, args.1, args.2),
{
    let (a0, a1, a2) = args;
    if syscall_id == SYSCALL_DUP {
        SyscallRequest::Dup { fd: a0 }
    } else if syscall_id == SYSCALL_OPEN {
        SyscallRequest::Open { path_ptr: a0, flags: a1 as u32 }
    } else if syscall_id == SYSCALL_CLOSE {
        SyscallRequest::Close { fd: a0 }
    } else if syscall_id == SYSCALL_PIPE {
        SyscallRequest::Pipe { fd_ptr: a0 }
    } else if syscall_id == SYSCALL_READ {
        SyscallRequest::Read { fd: a0, buf_ptr: a1, len: a2 }
    } else if syscall_id == SYSCALL_WRITE {
        SyscallRequest::Write { fd: a0, buf_ptr: a1, len: a2 }
    } else if syscall_id == SYSCALL_EXIT {
        SyscallRequest::Exit { code: a0 as i32 }
    } else if syscall_id == SYSCALL_SLEEP {
        SyscallRequest::Sleep { ms: a0 }
    } else if syscall_id == SYSCALL_YIELD {
        SyscallRequest::Yield
    } else if syscall_id == SYSCALL_KILL {
        SyscallRequest::Kill { pid: a0, signal: a1 as u32 }
    } else if syscall_id == SYSCALL_GET_TIME {
        SyscallRequest::GetTime
    } else if syscall_id == SYSCALL_GETPID {
        SyscallRequest::GetPid
    } else if syscall_id == SYSCALL_FORK {
        SyscallRequest::Fork
    } else if syscall_id == SYSCALL_EXEC {
        SyscallRequest::Exec { path_ptr: a0, argv_ptr: a1 }
    } else if syscall_id == SYSCALL_WAITPID {
        SyscallRequest::WaitPid { pid: a0 as isize, exit_code_ptr: a1 }
    } else if syscall_id == SYSCALL_THREAD_CREATE {
        SyscallRequest::ThreadCreate { entry: a0, arg: a1 }
    } else if syscall_id == SYSCALL_GETTID {
        SyscallRequest::GetTid
    } else if syscall_id == SYSCALL_WAITTID {
        SyscallRequest::WaitTid { tid: a0 }
    } else if syscall_id == SYSCALL_MUTEX_CREATE {
        SyscallRequest::MutexCreate { blocking: a0 == 1 }
    } else if syscall_id == SYSCALL_MUTEX_LOCK {
        SyscallRequest::MutexLock { id: a0 }
    } else if syscall_id == SYSCALL_MUTEX_UNLOCK {
        SyscallRequest::MutexUnlock { id: a0 }
    } else if syscall_id == SYSCALL_SEMAPHORE_CREATE {
        SyscallRequest::SemaphoreCreate { count: a0 }
    } else if syscall_id == SYSCALL_SEMAPHORE_UP {
        SyscallRequest::SemaphoreUp { id: a0 }
    } else if syscall_id == SYSCALL_SEMAPHORE_DOWN {
        SyscallRequest::SemaphoreDown { id: a0 }
    } else if syscall_id == SYSCALL_CONDVAR_CREATE {
        SyscallRequest::CondvarCreate
    } else if syscall_id == SYSCALL_CONDVAR_SIGNAL {
        SyscallRequest::CondvarSignal { id: a0 }
    } else {
        SyscallRequest::CondvarWait { id: a0, mutex_id: a1 }
    }
}

/// Whether an id stands in the system-call table.
pub fn is_known_syscall(id: usize) -> (r: bool)
    ensures
        r == known_syscall(id),
{
    id == SYSCALL_DUP || id == SYSCALL_OPEN || id == SYSCALL_CLOSE || id == SYSCALL_PIPE || id
        == SYSCALL_READ || id == SYSCALL_WRITE || id == SYSCALL_EXIT || id == SYSCALL_SLEEP || id
        == SYSCALL_YIELD || id == SYSCALL_KILL || id == SYSCALL_GET_TIME || id == SYSCALL_GETPID
        || id == SYSCALL_FORK || id == SYSCALL_EXEC || id == SYSCALL_WAITPID || id
        == SYSCALL_THREAD_CREATE || id == SYSCALL_GETTID || id == SYSCALL_WAITTID || id
        == SYSCALL_MUTEX_CREATE || id == SYSCALL_MUTEX_LOCK || id == SYSCALL_MUTEX_UNLOCK || id
        == SYSCALL_SEMAPHORE_CREATE || id == SYSCALL_SEMAPHORE_UP || id == SYSCALL_SEMAPHORE_DOWN
        || id == SYSCALL_CONDVAR_CREATE || id == SYSCALL_CONDVAR_SIGNAL || id
        == SYSCALL_CONDVAR_WAIT
}

} // verus!
