//! Scheduler, timer and allocator tests: statuses follow places, sleepers
//! wake in deadline order, and freed resources come back first.

use kernel_core::allocators::{FrameAllocator, RecycleAllocator};
use kernel_core::bitmap::Bitmap;
use kernel_core::task::{TaskControlBlock, TaskManager, TaskStatus, TaskUserRes};
use kernel_core::timer::{set_next_trigger, TimerQueue, CLOCK_FREQ, TICKS_PER_SEC};

fn tcb(pid: usize, tid: usize) -> TaskControlBlock {
    TaskControlBlock::new(pid, 100 + tid, 200 + tid, TaskUserRes { tid, ustack_base: 0x8000 })
}

/// Queued threads are ready, the picked one is running, a blocked one is
/// in neither place.
#[test]
fn statuses_follow_places() {
    let mut tm = TaskManager::new();
    let a = tm.add_task(tcb(0, 0));
    let b = tm.add_task(tcb(0, 1));
    let c = tm.add_task(tcb(1, 0));
    assert_eq!(tm.status_of(a), TaskStatus::Ready);
    assert_eq!(tm.status_of(b), TaskStatus::Ready);
    assert_eq!(tm.status_of(c), TaskStatus::Ready);

    // FIFO: the first added runs first
    let first = tm.schedule_next().unwrap();
    assert_eq!(first, a);
    assert_eq!(tm.status_of(a), TaskStatus::Running);
    assert_eq!(tm.current_task(), Some(a));

    // yielding moves it to the back; the next in line runs
    tm.suspend_current();
    assert_eq!(tm.status_of(a), TaskStatus::Ready);
    let second = tm.schedule_next().unwrap();
    assert_eq!(second, b);

    // blocking leaves the queue alone
    tm.block_current();
    assert_eq!(tm.status_of(b), TaskStatus::Blocked);
    let third = tm.schedule_next().unwrap();
    assert_eq!(third, c);

    // waking the blocked thread puts it at the tail, after the yielded one
    tm.wakeup_task(b);
    assert_eq!(tm.status_of(b), TaskStatus::Ready);
    tm.suspend_current();
    assert_eq!(tm.schedule_next(), Some(a));
    tm.suspend_current();
    assert_eq!(tm.schedule_next(), Some(b));
}

/// Exit records the code, strips the user resources and frees the slot
/// for reaping.
#[test]
fn exit_records_code() {
    let mut tm = TaskManager::new();
    let a = tm.add_task(tcb(0, 0));
    assert_eq!(tm.schedule_next(), Some(a));
    tm.exit_current(42);
    assert_eq!(tm.exit_code_of(a), Some(42));
    assert_eq!(tm.current_task(), None);
    assert_eq!(tm.schedule_next(), None);
}

/// A thread removed from the ready queue no longer runs.
#[test]
fn remove_task_leaves_queue() {
    let mut tm = TaskManager::new();
    let a = tm.add_task(tcb(0, 0));
    let b = tm.add_task(tcb(0, 1));
    tm.remove_task(a);
    assert_eq!(tm.schedule_next(), Some(b));
    tm.suspend_current();
    assert_eq!(tm.schedule_next(), Some(b));
}

/// Sleepers wake in deadline order: sleeps of 300, 100 and 200 wake as
/// the 100, then the 200, then the 300, each no earlier than its due
/// time.
#[test]
fn sleep_ordering() {
    let mut tq = TimerQueue::new();
    let (a, b, c) = (10usize, 11usize, 12usize);
    tq.add_timer(300, a);
    tq.add_timer(100, b);
    tq.add_timer(200, c);

    // nothing is due before the earliest deadline
    assert_eq!(tq.check_timer(99), Vec::<usize>::new());
    // each sleeper wakes only once its deadline has passed
    assert_eq!(tq.check_timer(100), vec![b]);
    assert_eq!(tq.check_timer(199), Vec::<usize>::new());
    assert_eq!(tq.check_timer(200), vec![c]);
    assert_eq!(tq.check_timer(300), vec![a]);
    assert_eq!(tq.len(), 0);

    // one late sweep fires them all at once, still in deadline order
    tq.add_timer(300, a);
    tq.add_timer(100, b);
    tq.add_timer(200, c);
    assert_eq!(tq.check_timer(1000), vec![b, c, a]);
}

/// Equal deadlines wake in posting order.
#[test]
fn equal_deadlines_fifo() {
    let mut tq = TimerQueue::new();
    tq.add_timer(100, 1);
    tq.add_timer(100, 2);
    tq.add_timer(50, 3);
    tq.add_timer(100, 4);
    assert_eq!(tq.check_timer(100), vec![3, 1, 2, 4]);
}

/// Withdrawing a sleeper's timers leaves the others in order.
#[test]
fn remove_timer_keeps_rest() {
    let mut tq = TimerQueue::new();
    tq.add_timer(100, 1);
    tq.add_timer(200, 2);
    tq.add_timer(300, 1);
    tq.remove_timer(1);
    assert_eq!(tq.check_timer(1000), vec![2]);
}

/// The next tick is one quantum past the current counter.
#[test]
fn next_trigger_quantum() {
    assert_eq!(set_next_trigger(0), CLOCK_FREQ / TICKS_PER_SEC);
    assert_eq!(set_next_trigger(7777), 7777 + CLOCK_FREQ / TICKS_PER_SEC);
}

/// Freeing a frame and allocating again returns that frame.
#[test]
fn frame_allocator_lifo() {
    let mut fa = FrameAllocator::new(0x80000, 0x80010);
    let x = fa.allocate().unwrap();
    assert_eq!(x, 0x80000);
    let y = fa.allocate().unwrap();
    assert_eq!(y, 0x80001);
    fa.dealloc(x);
    assert_eq!(fa.allocate(), Some(x));
    // exhaustion returns nothing
    let mut small = FrameAllocator::new(5, 6);
    assert_eq!(small.allocate(), Some(5));
    assert_eq!(small.allocate(), None);
}

/// Freeing an id and allocating again returns that id.
#[test]
fn recycle_allocator_lifo() {
    let mut ra = RecycleAllocator::new();
    assert_eq!(ra.allocate(), 0);
    assert_eq!(ra.allocate(), 1);
    assert_eq!(ra.allocate(), 2);
    ra.dealloc(1);
    assert_eq!(ra.allocate(), 1);
    ra.dealloc(0);
    ra.dealloc(2);
    assert_eq!(ra.allocate(), 2);
    assert_eq!(ra.allocate(), 0);
    assert_eq!(ra.allocate(), 3);
}

/// The bitmap hands out the lowest clear bit; freeing a bit makes it the
/// next one handed out.
#[test]
fn bitmap_lowest_free_bit() {
    let mut bm = Bitmap::new(2);
    assert_eq!(bm.allocate(), Some(0));
    assert_eq!(bm.allocate(), Some(1));
    assert_eq!(bm.allocate(), Some(2));
    bm.dealloc(1);
    assert_eq!(bm.allocate(), Some(1));
    assert_eq!(bm.allocate(), Some(3));
    // fill a whole word: the scan crosses into the second word
    for i in 4..64 {
        assert_eq!(bm.allocate(), Some(i));
    }
    assert_eq!(bm.allocate(), Some(64));
    bm.dealloc(17);
    assert_eq!(bm.allocate(), Some(17));
    // exhaustion reports none
    let mut full = Bitmap::new(1);
    for i in 0..64 {
        assert_eq!(full.allocate(), Some(i));
    }
    assert_eq!(full.allocate(), None);
}
