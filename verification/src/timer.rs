//! Sleep timers: a queue of wake deadlines kept sorted by expiry, stable
//! for equal deadlines, so that wakeups fire in non-decreasing order and
//! first-posted-first among equals.

use vstd::prelude::*;

verus! {

/// Ticks of the hardware clock per second.
pub const CLOCK_FREQ: usize = 12500000;

/// Timer interrupts per second.
pub const TICKS_PER_SEC: usize = 100;

/// Milliseconds per second.
pub const MSEC_PER_SEC: usize = 1000;

/// The tick at which the next timer interrupt is due, one scheduling
/// quantum past the current counter value `now`. Arming the comparator
/// with it is firmware work.
pub fn set_next_trigger(now: usize) -> (r: usize)
    requires
        now + CLOCK_FREQ / TICKS_PER_SEC <= usize::MAX,
    ensures
        r == now + CLOCK_FREQ / TICKS_PER_SEC,
{
    now + CLOCK_FREQ / TICKS_PER_SEC
}

/// One pending wakeup: a deadline in milliseconds and the task to wake.
pub struct TimerCondVar {
    /// The millisecond tick at which the sleeper is due.
    pub expire_ms: usize,
    /// Task id of the sleeping thread.
    pub task: usize,
}

/// The pending wakeups, soonest first.
pub struct TimerQueue {
    timers: Vec<TimerCondVar>,
}

impl TimerQueue {
    /// The pending wakeups in firing order.
    pub closed spec fn spec_timers(&self) -> Seq<TimerCondVar> {
        self.timers@
    }

    /// Deadlines never decrease along the queue.
    pub open spec fn wf(&self) -> bool {
        forall|a: int, b: int|
            0 <= a <= b < self.spec_timers().len() ==> (#[trigger] self.spec_timers()[a])
                .expire_ms <= (#[trigger] self.spec_timers()[b]).expire_ms
    }

    /// An empty timer queue.
    pub fn new() -> (r: TimerQueue)
        ensures
            r.wf(),
            r.spec_timers().len() == 0,
    {
        TimerQueue { timers: Vec::new() }
    }

    /// How many wakeups are pending.
    pub fn len(&self) -> (r: usize)
        ensures
            r == self.spec_timers().len(),
    {
        self.timers.len()
    }

    /// Post a wakeup for `task` at `expire_ms`: it goes in front of every
    /// strictly later deadline and behind every deadline at most its own,
    /// so sleepers with equal deadlines keep their posting order.
    pub fn add_timer(&mut self, expire_ms: usize, task: usize)
        requires
            old(self).wf(),
        ensures
            final(self).wf(),
            exists|p: int|
                {
                    &&& 0 <= p <= old(self).spec_timers().len()
                    &&& (forall|k: int|
                        0 <= k < p ==> (#[trigger] old(self).spec_timers()[k]).expire_ms
                            <= expire_ms)
                    &&& (forall|k: int|
                        p <= k < old(self).spec_timers().len() ==> (#[trigger] old(
                            self,
                        ).spec_timers()[k]).expire_ms > expire_ms)
                    &&& final(self).spec_timers() == old(self).spec_timers().insert(
                        p,
                        TimerCondVar { expire_ms, task },
                    )
                },
    {
        let mut p: usize = 0;
        loop
            invariant
                *self == *old(self),
                p <= self.timers@.len(),
                forall|k: int|
                    0 <= k < p ==> (#[trigger] self.timers@[k]).expire_ms <= expire_ms,
            ensures
                *self == *old(self),
                p <= self.timers@.len(),
                forall|k: int|
                    0 <= k < p ==> (#[trigger] self.timers@[k]).expire_ms <= expire_ms,
                p < self.timers@.len() ==> self.timers@[p as int].expire_ms > expire_ms,
            decreases self.timers@.len() - p,
        {
            if p >= self.timers.len() {
                break ;
            }
            if self.timers[p].expire_ms > expire_ms {
                break ;
            }
            p += 1;
        }
        proof {
            assert forall|k: int| p <= k < self.spec_timers().len() implies (
            #[trigger] self.spec_timers()[k]).expire_ms > expire_ms by {
                assert(self.spec_timers()[p as int].expire_ms > expire_ms);
                assert(self.spec_timers()[p as int].expire_ms <= self.spec_timers()[k].expire_ms);
            }
        }
        let ghost q0 = self.timers@;
        let ghost pp = p as int;
        let nv = TimerCondVar { expire_ms, task };
        self.timers.insert(p, nv);
        proof {
            let cur = self.spec_timers();
            q0.insert_ensures(pp, nv);
            assert forall|a: int, b: int| 0 <= a <= b < cur.len() implies (
            #[trigger] cur[a]).expire_ms <= (#[trigger] cur[b]).expire_ms by {
                assert(cur[a] == if a < pp {
                    q0[a]
                } else if a == pp {
                    nv
                } else {
                    q0[a - 1]
                });
                assert(cur[b] == if b < pp {
                    q0[b]
                } else if b == pp {
                    nv
                } else {
                    q0[b - 1]
                });
                assert(forall|x: int, y: int|
                    0 <= x <= y < q0.len() ==> (#[trigger] q0[x]).expire_ms
                        <= (#[trigger] q0[y]).expire_ms);
            }
            assert(0 <= pp <= q0.len());
        }
    }

    /// Fire every wakeup due at or before `now`: remove them from the
    /// front and hand back their task ids, soonest-posted deadline first.
    /// Everything still pending is due strictly later than `now`.
    pub fn check_timer(&mut self, now: usize) -> (woken: Vec<usize>)
        requires
            old(self).wf(),
        ensures
            final(self).wf(),
            woken@.len() <= old(self).spec_timers().len(),
            final(self).spec_timers() == old(self).spec_timers().skip(woken@.len() as int),
            forall|k: int|
                0 <= k < woken@.len() ==> #[trigger] woken@[k] == old(self).spec_timers()[k].task
                    && old(self).spec_timers()[k].expire_ms <= now,
            forall|k: int|
                0 <= k < final(self).spec_timers().len()
                    ==> (#[trigger] final(self).spec_timers()[k]).expire_ms > now,
    {
        let mut woken: Vec<usize> = Vec::new();
        let ghost q0 = self.timers@;
        let mut done = false;
        while !done
            invariant
                old(self).wf(),
                q0 == old(self).spec_timers(),
                self.wf(),
                woken@.len() <= q0.len(),
                self.timers@ == q0.skip(woken@.len() as int),
                forall|k: int|
                    0 <= k < woken@.len() ==> #[trigger] woken@[k] == q0[k].task && q0[k]
                        .expire_ms <= now,
                done ==> self.timers@.len() == 0 || self.timers@[0].expire_ms > now,
            decreases self.timers@.len(), (if done {
                0int
            } else {
                1int
            }),
        {
            if self.timers.len() == 0 {
                done = true;
            } else if self.timers[0].expire_ms > now {
                done = true;
            } else {
                let t = self.timers.remove(0);
                woken.push(t.task);
                proof {
                    assert(q0.skip(woken@.len() as int - 1)[0] == q0[woken@.len() - 1]);
                    assert(self.timers@ =~= q0.skip(woken@.len() as int));
                    let w = woken@.len() as int;
                    assert forall|a: int, b: int|
                        0 <= a <= b < self.spec_timers().len() implies (
                    #[trigger] self.spec_timers()[a]).expire_ms <= (
                    #[trigger] self.spec_timers()[b]).expire_ms by {
                        assert(self.spec_timers()[a] == q0[a + w]);
                        assert(self.spec_timers()[b] == q0[b + w]);
                        assert(old(self).spec_timers()[a + w].expire_ms <= old(
                            self,
                        ).spec_timers()[b + w].expire_ms);
                    }
                }
            }
        }
        proof {
            assert forall|k: int| 0 <= k < self.spec_timers().len() implies (
            #[trigger] self.spec_timers()[k]).expire_ms > now by {
                if self.spec_timers().len() > 0 {
                    assert(self.spec_timers()[0].expire_ms > now);
                }
            }
        }
        woken
    }

    /// Withdraw every wakeup posted for `task`; used when its thread exits
    /// while still sleeping. The rest keep their order.
    pub fn remove_timer(&mut self, task: usize)
        requires
            old(self).wf(),
        ensures
            final(self).wf(),
            final(self).spec_timers() == old(self).spec_timers().filter(
                (|t: TimerCondVar| t.task != task),
            ),
            forall|k: int|
                0 <= k < final(self).spec_timers().len()
                    ==> (#[trigger] final(self).spec_timers()[k]).task != task,
            forall|k: int|
                0 <= k < final(self).spec_timers().len() ==> old(self).spec_timers().contains(
                    #[trigger] final(self).spec_timers()[k],
                ),
    {
        let mut kept: Vec<TimerCondVar> = Vec::new();
        let mut k: usize = 0;
        while k < self.timers.len()
            invariant
                *self == *old(self),
                k <= self.timers@.len(),
                kept@ == self.timers@.take(k as int).filter((|t: TimerCondVar| t.task != task)),
            decreases self.timers@.len() - k,
        {
            let t = TimerCondVar {
                expire_ms: self.timers[k].expire_ms,
                task: self.timers[k].task,
            };
            proof {
                let prefix = self.timers@.take(k as int);
                assert(self.timers@.take(k as int + 1).drop_last() =~= prefix);
                assert(self.timers@.take(k as int + 1).last() == self.timers@[k as int]);
                assert(t == self.timers@[k as int]);
                reveal_with_fuel(Seq::filter, 2);
            }
            if t.task != task {
                kept.push(t);
            }
            k += 1;
        }
        proof {
            assert(self.timers@.take(self.timers@.len() as int) =~= self.timers@);
            assert forall|a: int, b: int| 0 <= a <= b < self.timers@.len() implies (
            #[trigger] self.timers@[a]).expire_ms <= (#[trigger] self.timers@[b]).expire_ms by {
                assert(self.spec_timers()[a].expire_ms <= self.spec_timers()[b].expire_ms);
            }
            lemma_filter_sorted(self.timers@, (|t: TimerCondVar| t.task != task));
            lemma_filter_members(self.timers@, (|t: TimerCondVar| t.task != task));
            let f = self.timers@.filter((|t: TimerCondVar| t.task != task));
            self.timers@.filter_lemma((|t: TimerCondVar| t.task != task));
            assert forall|k: int| 0 <= k < f.len() implies (#[trigger] f[k]).task != task by {}
            assert forall|k: int| 0 <= k < f.len() implies self.timers@.contains(
                #[trigger] f[k],
            ) by {}
        }
        self.timers = kept;
    }
}

/// Every element a filter keeps stands somewhere in the sequence.
proof fn lemma_filter_members(s: Seq<TimerCondVar>, p: spec_fn(TimerCondVar) -> bool)
    ensures
        forall|a: int| 0 <= a < s.filter(p).len() ==> s.contains(#[trigger] s.filter(p)[a]),
    decreases s.len(),
{
    reveal(Seq::filter);
    if s.len() > 0 {
        let pre = s.drop_last();
        lemma_filter_members(pre, p);
        assert forall|a: int| 0 <= a < s.filter(p).len() implies s.contains(
            #[trigger] s.filter(p)[a],
        ) by {
            let f = s.filter(p);
            if p(s.last()) && a == f.len() - 1 {
                assert(f[a] == s[s.len() - 1]);
            } else {
                assert(pre.filter(p)[a] == f[a]);
                assert(pre.contains(f[a]));
                let i = choose|i: int| 0 <= i < pre.len() && pre[i] == f[a];
                assert(s[i] == f[a]);
            }
        }
    }
}

/// A filter of a deadline-sorted sequence stays deadline-sorted.
proof fn lemma_filter_sorted(s: Seq<TimerCondVar>, p: spec_fn(TimerCondVar) -> bool)
    requires
        forall|a: int, b: int|
            0 <= a <= b < s.len() ==> (#[trigger] s[a]).expire_ms <= (#[trigger] s[b]).expire_ms,
    ensures
        forall|a: int, b: int|
            0 <= a <= b < s.filter(p).len() ==> (#[trigger] s.filter(p)[a]).expire_ms <= (
            #[trigger] s.filter(p)[b]).expire_ms,
    decreases s.len(),
{
    reveal(Seq::filter);
    s.filter_lemma(p);
    if s.len() > 0 {
        let pre = s.drop_last();
        lemma_filter_sorted(pre, p);
        pre.filter_lemma(p);
        let f = s.filter(p);
        assert forall|a: int, b: int| 0 <= a <= b < f.len() implies (
        #[trigger] f[a]).expire_ms <= (#[trigger] f[b]).expire_ms by {
            if p(s.last()) {
                assert(f == pre.filter(p).push(s.last()));
                if b < f.len() - 1 {
                    assert(pre.filter(p)[a] == f[a] && pre.filter(p)[b] == f[b]);
                } else if a < f.len() - 1 {
                    assert(pre.filter(p)[a] == f[a]);
                    lemma_filter_members(pre, p);
                    assert(pre.contains(f[a]));
                    let i = choose|i: int| 0 <= i < pre.len() && pre[i] == f[a];
                    assert(s[i] == f[a]);
                    assert(s[i].expire_ms <= s[s.len() - 1].expire_ms);
                }
            } else {
                assert(f == pre.filter(p));
            }
        }
    }
}

/// Law: wakeups fire in deadline order. What one sweep of the queue wakes
/// is sorted by deadline, every woken sleeper was due by `now`, and every
/// sleeper still pending is due later — so no sleeper is ever woken after
/// one with a strictly larger deadline.
pub proof fn lemma_wake_order(q: TimerQueue, woken: Seq<usize>, now: usize)
    requires
        q.wf(),
        // what `check_timer(now)` ensured when it returned `woken`
        woken.len() <= q.spec_timers().len(),
        forall|k: int|
            0 <= k < woken.len() ==> #[trigger] woken[k] == q.spec_timers()[k].task && q
                .spec_timers()[k].expire_ms <= now,
    ensures
        forall|a: int, b: int|
            0 <= a <= b < woken.len() ==> (#[trigger] q.spec_timers()[a]).expire_ms <= (
            #[trigger] q.spec_timers()[b]).expire_ms,
{
}

} // verus!
