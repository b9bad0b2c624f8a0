//! A queue of countdown timers ordered by deadline, advanced one tick at a
//! time by the timer interrupt.
use vstd::prelude::*;

use crate::distinct::lemma_distinct_short;

verus! {

/// Number of timer slots.
pub const MAX_TIMER_COUNT: usize = 500;

/// The state of a timer slot.
#[derive(Debug, Clone, Copy, PartialEq, Eq, Structural)]
pub enum TimerState {
    /// Free to be handed out.
    Available,
    /// Handed out and not counting down.
    InUse,
    /// Counting down in the queue.
    Running,
}

/// One timer slot: its deadline, its state, and what it delivers when it
/// fires: the byte `data` to the queue identified by `fifo_addr`.
#[derive(Debug, Clone, Copy, PartialEq, Eq, Structural)]
pub struct Timer {
    pub timeout: u32,
    pub flag: TimerState,
    pub fifo_addr: usize,
    pub data: u8,
}

impl Timer {
    /// The state of a timer that was never set.
    pub open spec fn blank() -> Timer {
        Timer { timeout: 0, flag: TimerState::Available, fifo_addr: 0, data: 0 }
    }

    /// An available timer with nothing set.
    pub fn new() -> (r: Timer)
        ensures
            r == Timer::blank(),
    {
        Timer { timeout: 0, flag: TimerState::Available, fifo_addr: 0, data: 0 }
    }
}

/// The timer slots, the tick count, and the running timers in order of
/// deadline.
pub struct TimerCtl {
    count: u32,
    next: u32,
    counting: u32,
    /// The running timers' ids, earliest deadline first; entries
    /// `0..counting` are meaningful.
    timers: Vec<usize>,
    timers_data: Vec<Timer>,
}

impl TimerCtl {
    /// Ticks counted so far.
    pub closed spec fn spec_count(&self) -> u32 {
        self.count
    }

    /// The earliest deadline of a running timer, as last computed.
    pub closed spec fn spec_next(&self) -> u32 {
        self.next
    }

    /// The running timers, earliest deadline first.
    pub closed spec fn queue(&self) -> Seq<usize> {
        self.timers@.subrange(0, self.counting as int)
    }

    /// The timer with id `id`.
    pub closed spec fn slot(&self, id: int) -> Timer {
        self.timers_data@[id]
    }

    /// The queue holds each running timer exactly once, in order of
    /// deadline, and `next` is the first deadline when any timer runs.
    pub closed spec fn wf(&self) -> bool {
        &&& self.timers@.len() == MAX_TIMER_COUNT
        &&& self.timers_data@.len() == MAX_TIMER_COUNT
        &&& self.counting <= MAX_TIMER_COUNT
        &&& forall|k: int|
            0 <= k < self.counting ==> #[trigger] self.timers@[k] < MAX_TIMER_COUNT
                && self.timers_data@[self.timers@[k] as int].flag == TimerState::Running
        &&& forall|i: int, j: int|
            0 <= i < j < self.counting ==> #[trigger] self.timers@[i] != #[trigger] self.timers@[j]
        &&& forall|i: int, j: int|
            0 <= i < j < self.counting ==> self.timers_data@[#[trigger] self.timers@[i] as int].timeout
                <= self.timers_data@[#[trigger] self.timers@[j] as int].timeout
        &&& forall|id: int|
            0 <= id < MAX_TIMER_COUNT && (#[trigger] self.timers_data@[id]).flag == TimerState::Running
                ==> self.queue().contains(id as usize)
        &&& self.counting > 0 ==> self.next == self.timers_data@[self.timers@[0] as int].timeout
    }

    /// No tick counted, every timer available, none running.
    pub fn new() -> (r: TimerCtl)
        ensures
            r.wf(),
            r.spec_count() == 0,
            r.spec_next() == 0,
            r.queue().len() == 0,
            forall|id: int| 0 <= id < MAX_TIMER_COUNT ==> #[trigger] r.slot(id) == Timer::blank(),
    {
        let mut timers_data: Vec<Timer> = Vec::new();
        let mut i: usize = 0;
        while i < MAX_TIMER_COUNT
            invariant
                i <= MAX_TIMER_COUNT,
                timers_data@.len() == i,
                forall|id: int| 0 <= id < i ==> #[trigger] timers_data@[id] == Timer::blank(),
            decreases MAX_TIMER_COUNT - i,
        {
            timers_data.push(Timer::new());
            i += 1;
        }
        TimerCtl { count: 0, next: 0, counting: 0, timers: vec![0usize; MAX_TIMER_COUNT], timers_data }
    }

    /// Marks the first available timer in use and returns its id; fails
    /// when none is available.
    pub fn allocate(&mut self) -> (r: Result<usize, &'static str>)
        requires
            old(self).wf(),
        ensures
            final(self).wf(),
            final(self).spec_count() == old(self).spec_count(),
            final(self).spec_next() == old(self).spec_next(),
            final(self).queue() == old(self).queue(),
            match r {
                Err(e) => {
                    &&& e@ == "No available timer"@
                    &&& forall|id: int| 0 <= id < MAX_TIMER_COUNT ==> (#[trigger] old(self).slot(id)).flag != TimerState::Available
                    &&& forall|id: int| 0 <= id < MAX_TIMER_COUNT ==> #[trigger] final(self).slot(id) == old(self).slot(id)
                },
                Ok(i) => {
                    &&& i < MAX_TIMER_COUNT
                    &&& old(self).slot(i as int).flag == TimerState::Available
                    &&& forall|id: int| 0 <= id < i ==> (#[trigger] old(self).slot(id)).flag != TimerState::Available
                    &&& final(self).slot(i as int) == (Timer { flag: TimerState::InUse, ..old(self).slot(i as int) })
                    &&& forall|id: int| 0 <= id < MAX_TIMER_COUNT && id != i ==> #[trigger] final(self).slot(id) == old(self).slot(id)
                },
            },
    {
        match self.first_available() {
            None => Err("No available timer"),
            Some(i) => {
                let ghost before = *self;
                self.timers_data[i].flag = TimerState::InUse;
                proof {
                    assert(self.queue() == before.queue());
                    assert forall|k: int| 0 <= k < self.counting implies #[trigger] self.timers@[k] < MAX_TIMER_COUNT
                        && self.timers_data@[self.timers@[k] as int].flag == TimerState::Running by {
                        assert(before.timers@[k] < MAX_TIMER_COUNT);
                    }
                    assert forall|a: int, b: int| 0 <= a < b < self.counting implies self.timers_data@[#[trigger] self.timers@[a] as int].timeout
                        <= self.timers_data@[#[trigger] self.timers@[b] as int].timeout by {
                        assert(before.timers@[a] < MAX_TIMER_COUNT);
                        assert(before.timers@[b] < MAX_TIMER_COUNT);
                    }
                    assert forall|id: int| 0 <= id < MAX_TIMER_COUNT && (#[trigger] self.timers_data@[id]).flag == TimerState::Running
                        implies self.queue().contains(id as usize) by {
                        assert(before.timers_data@[id].flag == TimerState::Running);
                    }
                    if self.counting > 0 {
                        assert(before.timers@[0] < MAX_TIMER_COUNT);
                    }
                }
                Ok(i)
            },
        }
    }

    /// The id of the first available timer, if any.
    fn first_available(&self) -> (r: Option<usize>)
        requires
            self.timers_data@.len() == MAX_TIMER_COUNT,
        ensures
            match r {
                None => forall|id: int| 0 <= id < MAX_TIMER_COUNT ==> (#[trigger] self.slot(id)).flag != TimerState::Available,
                Some(i) => {
                    &&& i < MAX_TIMER_COUNT
                    &&& self.slot(i as int).flag == TimerState::Available
                    &&& forall|id: int| 0 <= id < i ==> (#[trigger] self.slot(id)).flag != TimerState::Available
                },
            },
    {
        let mut i: usize = 0;
        while i < MAX_TIMER_COUNT
            invariant
                i <= MAX_TIMER_COUNT,
                self.timers_data@.len() == MAX_TIMER_COUNT,
                forall|id: int| 0 <= id < i ==> (#[trigger] self.timers_data@[id]).flag != TimerState::Available,
            decreases MAX_TIMER_COUNT - i,
        {
            if self.timers_data[i].flag == TimerState::Available {
                return Some(i);
            }
            i += 1;
        }
        None
    }

    /// Starts the timer `timer_id` counting down `timeout` ticks from now:
    /// its deadline becomes the current tick count plus `timeout`, and it is
    /// put in the queue after every running timer with an earlier deadline
    /// and before the others.
    #[verifier::rlimit(60)]
    pub fn set_time(&mut self, timer_id: usize, timeout: u32)
        requires
            old(self).wf(),
            timer_id < MAX_TIMER_COUNT,
            old(self).slot(timer_id as int).flag != TimerState::Running,
            old(self).spec_count() + timeout <= u32::MAX,
        ensures
            final(self).wf(),
            final(self).spec_count() == old(self).spec_count(),
            final(self).slot(timer_id as int) == (Timer {
                timeout: (old(self).spec_count() + timeout) as u32,
                flag: TimerState::Running,
                ..old(self).slot(timer_id as int)
            }),
            forall|id: int| 0 <= id < MAX_TIMER_COUNT && id != timer_id ==> #[trigger] final(self).slot(id) == old(self).slot(id),
            exists|pos: int|
                0 <= pos <= old(self).queue().len()
                    && final(self).queue() == #[trigger] old(self).queue().insert(pos, timer_id)
                    && (forall|i: int| 0 <= i < pos ==> #[trigger] old(self).slot(old(self).queue()[i] as int).timeout < old(self).spec_count() + timeout)
                    && (forall|i: int| pos <= i < old(self).queue().len() ==> #[trigger] old(self).slot(old(self).queue()[i] as int).timeout >= old(self).spec_count() + timeout),
            final(self).spec_next() == final(self).slot(final(self).queue()[0] as int).timeout,
    {
        let deadline: u32 = self.count + timeout;
        let c: usize = self.counting as usize;
        let ghost q = old(self).queue();
        proof {
            assert forall|k: int| 0 <= k < q.len() implies #[trigger] q[k] < MAX_TIMER_COUNT && q[k] != timer_id by {
                assert(q[k] == self.timers@[k]);
            }
            assert(q.no_duplicates()) by {
                assert forall|i: int, j: int| 0 <= i < q.len() && 0 <= j < q.len() && i != j implies q[i] != q[j] by {
                    if i < j {
                        assert(self.timers@[i] != self.timers@[j]);
                    } else {
                        assert(self.timers@[j] != self.timers@[i]);
                    }
                }
            }
            lemma_distinct_short(q, timer_id, MAX_TIMER_COUNT as int);
        }
        let mut pos: usize = 0;
        while pos < c && self.timers_data[self.timers[pos]].timeout < deadline
            invariant
                pos <= c,
                c == old(self).counting,
                q == old(self).queue(),
                *self == *old(self),
                old(self).wf(),
                forall|i: int| 0 <= i < pos ==> #[trigger] old(self).slot(q[i] as int).timeout < deadline,
            decreases c - pos,
        {
            pos += 1;
        }
        proof {
            assert forall|i: int| pos <= i < q.len() implies #[trigger] old(self).slot(q[i] as int).timeout >= deadline by {
                if i > pos {
                    assert(self.timers@[pos as int] != self.timers@[i]);
                    assert(q[pos as int] == self.timers@[pos as int]);
                }
            }
        }
        self.timers_data[timer_id].timeout = deadline;
        self.timers_data[timer_id].flag = TimerState::Running;
        let ghost data1 = self.timers_data@;
        assert forall|id: int| 0 <= id < MAX_TIMER_COUNT && id != timer_id implies #[trigger] data1[id] == old(self).timers_data@[id] by {}
        let mut j: usize = c;
        while j > pos
            invariant
                self.timers_data@ == data1,
                pos <= j <= c,
                c < MAX_TIMER_COUNT,
                c == old(self).counting,
                q == old(self).queue(),
                self.timers@.len() == MAX_TIMER_COUNT,
                self.counting == old(self).counting,
                self.count == old(self).count,
                self.timers_data@.len() == MAX_TIMER_COUNT,
                forall|k: int| 0 <= k <= j && k < c ==> #[trigger] self.timers@[k] == q[k],
                forall|k: int| j < k <= c ==> #[trigger] self.timers@[k] == q[k - 1],
            decreases j - pos,
        {
            let v = self.timers[j - 1];
            self.timers.set(j, v);
            j -= 1;
        }
        self.timers.set(pos, timer_id);
        self.counting = self.counting + 1;
        self.next = self.timers_data[self.timers[0]].timeout;
        proof {
            let nq = q.insert(pos as int, timer_id);
            assert(self.queue() =~= nq);
            assert forall|id: int| 0 <= id < MAX_TIMER_COUNT && id != timer_id implies #[trigger] self.slot(id) == old(self).slot(id) by {}
            assert forall|k: int| 0 <= k < self.counting implies #[trigger] self.timers@[k] < MAX_TIMER_COUNT
                && self.timers_data@[self.timers@[k] as int].flag == TimerState::Running by {
                assert(self.timers@[k] == nq[k]);
                if k < pos {
                    assert(nq[k] == q[k]);
                    assert(old(self).timers@[k] < MAX_TIMER_COUNT);
                } else if k > pos {
                    assert(nq[k] == q[k - 1]);
                    assert(old(self).timers@[k - 1] < MAX_TIMER_COUNT);
                }
            }
            assert forall|a: int, b: int| 0 <= a < b < self.counting implies #[trigger] self.timers@[a] != #[trigger] self.timers@[b] by {
                assert(self.timers@[a] == nq[a]);
                assert(self.timers@[b] == nq[b]);
                let aa = if a < pos { a } else { a - 1 };
                let bb = if b < pos { b } else { b - 1 };
                if a != pos && b != pos {
                    assert(old(self).timers@[aa] != old(self).timers@[bb]);
                }
            }
            assert forall|a: int, b: int| 0 <= a < b < self.counting implies self.timers_data@[#[trigger] self.timers@[a] as int].timeout
                <= self.timers_data@[#[trigger] self.timers@[b] as int].timeout by {
                assert(self.timers@[a] == nq[a]);
                assert(self.timers@[b] == nq[b]);
                let aa = if a < pos { a } else { a - 1 };
                let bb = if b < pos { b } else { b - 1 };
                if a != pos && b != pos {
                    assert(old(self).timers_data@[old(self).timers@[aa] as int].timeout
                        <= old(self).timers_data@[old(self).timers@[bb] as int].timeout);
                } else if a == pos {
                    assert(old(self).slot(q[bb] as int).timeout >= deadline);
                } else {
                    assert(old(self).slot(q[aa] as int).timeout < deadline);
                }
            }
            assert forall|id: int| 0 <= id < MAX_TIMER_COUNT && (#[trigger] self.timers_data@[id]).flag == TimerState::Running
                implies self.queue().contains(id as usize) by {
                if id == timer_id {
                    assert(self.queue()[pos as int] == timer_id);
                } else {
                    assert(old(self).timers_data@[id].flag == TimerState::Running);
                    assert(old(self).queue().contains(id as usize));
                    let k = choose|k: int| 0 <= k < q.len() && q[k] == id;
                    if k < pos {
                        assert(self.queue()[k] == id);
                    } else {
                        assert(self.queue()[k + 1] == id);
                    }
                }
            }
            assert(self.timers@[0] == self.queue()[0]);
        }
    }

    /// Sets the state of the timer `timer_id`; a timer neither enters nor
    /// leaves the queue this way.
    pub fn set_flag(&mut self, timer_id: usize, flag: TimerState)
        requires
            old(self).wf(),
            timer_id < MAX_TIMER_COUNT,
            old(self).slot(timer_id as int).flag != TimerState::Running,
            flag != TimerState::Running,
        ensures
            final(self).wf(),
            final(self).spec_count() == old(self).spec_count(),
            final(self).spec_next() == old(self).spec_next(),
            final(self).queue() == old(self).queue(),
            final(self).slot(timer_id as int) == (Timer { flag, ..old(self).slot(timer_id as int) }),
            forall|id: int| 0 <= id < MAX_TIMER_COUNT && id != timer_id ==> #[trigger] final(self).slot(id) == old(self).slot(id),
    {
        let ghost before = *self;
        self.timers_data[timer_id].flag = flag;
        proof {
            self.lemma_unqueued_update(&before, timer_id as int);
        }
    }

    /// Sets what the timer `timer_id` delivers when it fires: the byte
    /// `data` to the queue identified by `fifo_addr`.
    pub fn init_timer(&mut self, timer_id: usize, fifo_addr: usize, data: u8)
        requires
            old(self).wf(),
            timer_id < MAX_TIMER_COUNT,
        ensures
            final(self).wf(),
            final(self).spec_count() == old(self).spec_count(),
            final(self).spec_next() == old(self).spec_next(),
            final(self).queue() == old(self).queue(),
            final(self).slot(timer_id as int) == (Timer { fifo_addr, data, ..old(self).slot(timer_id as int) }),
            forall|id: int| 0 <= id < MAX_TIMER_COUNT && id != timer_id ==> #[trigger] final(self).slot(id) == old(self).slot(id),
    {
        let ghost before = *self;
        self.timers_data[timer_id].fifo_addr = fifo_addr;
        self.timers_data[timer_id].data = data;
        proof {
            assert(self.queue() == before.queue());
            assert forall|k: int| 0 <= k < self.counting implies #[trigger] self.timers@[k] < MAX_TIMER_COUNT
                && self.timers_data@[self.timers@[k] as int].flag == TimerState::Running by {
                assert(before.timers@[k] < MAX_TIMER_COUNT);
            }
            assert forall|a: int, b: int| 0 <= a < b < self.counting implies self.timers_data@[#[trigger] self.timers@[a] as int].timeout
                <= self.timers_data@[#[trigger] self.timers@[b] as int].timeout by {
                assert(before.timers@[a] < MAX_TIMER_COUNT);
                assert(before.timers@[b] < MAX_TIMER_COUNT);
            }
            assert forall|id: int| 0 <= id < MAX_TIMER_COUNT && (#[trigger] self.timers_data@[id]).flag == TimerState::Running
                implies self.queue().contains(id as usize) by {
                assert(before.timers_data@[id].flag == TimerState::Running);
            }
            if self.counting > 0 {
                assert(before.timers@[0] < MAX_TIMER_COUNT);
            }
        }
    }

    /// Makes the timer `timer_id` available again.
    pub fn free(&mut self, timer_id: usize)
        requires
            old(self).wf(),
            timer_id < MAX_TIMER_COUNT,
            old(self).slot(timer_id as int).flag != TimerState::Running,
        ensures
            final(self).wf(),
            final(self).spec_count() == old(self).spec_count(),
            final(self).spec_next() == old(self).spec_next(),
            final(self).queue() == old(self).queue(),
            final(self).slot(timer_id as int) == (Timer { flag: TimerState::Available, ..old(self).slot(timer_id as int) }),
            forall|id: int| 0 <= id < MAX_TIMER_COUNT && id != timer_id ==> #[trigger] final(self).slot(id) == old(self).slot(id),
    {
        let ghost before = *self;
        self.timers_data[timer_id].flag = TimerState::Available;
        proof {
            self.lemma_unqueued_update(&before, timer_id as int);
        }
    }

    /// Changing the state of a timer that is not running, to a state other
    /// than running, keeps the queue well formed.
    proof fn lemma_unqueued_update(&self, before: &TimerCtl, id: int)
        requires
            before.wf(),
            0 <= id < MAX_TIMER_COUNT,
            before.timers_data@[id].flag != TimerState::Running,
            self.timers_data@[id].flag != TimerState::Running,
            self.timers_data@[id].timeout == before.timers_data@[id].timeout,
            self.count == before.count,
            self.next == before.next,
            self.counting == before.counting,
            self.timers@ == before.timers@,
            self.timers_data@.len() == MAX_TIMER_COUNT,
            forall|i: int| 0 <= i < MAX_TIMER_COUNT && i != id ==> #[trigger] self.timers_data@[i] == before.timers_data@[i],
        ensures
            self.wf(),
            self.queue() == before.queue(),
    {
        assert(self.queue() == before.queue());
        assert forall|k: int| 0 <= k < self.counting implies #[trigger] self.timers@[k] < MAX_TIMER_COUNT
            && self.timers_data@[self.timers@[k] as int].flag == TimerState::Running by {
            assert(before.timers@[k] < MAX_TIMER_COUNT);
        }
        assert forall|a: int, b: int| 0 <= a < b < self.counting implies self.timers_data@[#[trigger] self.timers@[a] as int].timeout
            <= self.timers_data@[#[trigger] self.timers@[b] as int].timeout by {
            assert(before.timers@[a] < MAX_TIMER_COUNT);
            assert(before.timers@[b] < MAX_TIMER_COUNT);
        }
        assert forall|i: int| 0 <= i < MAX_TIMER_COUNT && (#[trigger] self.timers_data@[i]).flag == TimerState::Running
            implies self.queue().contains(i as usize) by {
            assert(before.timers_data@[i].flag == TimerState::Running);
        }
        if self.counting > 0 {
            assert(before.timers@[0] < MAX_TIMER_COUNT);
        }
    }

    /// Counts one tick and fires the running timers whose deadline has come:
    /// they leave the queue, become available, and are returned as they
    /// were, earliest first.
    #[verifier::rlimit(60)]
    pub fn tick(&mut self) -> (r: Vec<Timer>)
        requires
            old(self).wf(),
            old(self).spec_count() < u32::MAX,
        ensures
            final(self).wf(),
            final(self).spec_count() == old(self).spec_count() + 1,
            r@.len() <= old(self).queue().len(),
            old(self).spec_next() > final(self).spec_count() ==> r@.len() == 0,
            forall|i: int|
                0 <= i < r@.len() ==> #[trigger] r@[i] == old(self).slot(old(self).queue()[i] as int)
                    && r@[i].timeout <= final(self).spec_count(),
            r@.len() < old(self).queue().len() ==> old(self).slot(old(self).queue()[r@.len() as int] as int).timeout > final(self).spec_count(),
            final(self).queue() == old(self).queue().subrange(r@.len() as int, old(self).queue().len() as int),
            forall|i: int|
                0 <= i < r@.len() ==> #[trigger] final(self).slot(old(self).queue()[i] as int) == (Timer {
                    flag: TimerState::Available,
                    ..old(self).slot(old(self).queue()[i] as int)
                }),
            forall|id: int|
                0 <= id < MAX_TIMER_COUNT && (forall|i: int| 0 <= i < r@.len() ==> old(self).queue()[i] != id)
                    ==> #[trigger] final(self).slot(id) == old(self).slot(id),
            final(self).spec_next() == if final(self).queue().len() > 0 {
                final(self).slot(final(self).queue()[0] as int).timeout
            } else if old(self).spec_next() > final(self).spec_count() {
                old(self).spec_next()
            } else {
                u32::MAX
            },
    {
        let ghost q = old(self).queue();
        self.count = self.count + 1;
        if self.next > self.count {
            proof {
                if q.len() > 0 {
                    assert(q[0] == old(self).timers@[0]);
                }
                assert(q.subrange(0, q.len() as int) =~= q);
            }
            return Vec::new();
        }
        let c: usize = self.counting as usize;
        let mut fired: Vec<Timer> = Vec::new();
        let mut n: usize = 0;
        while n < c && self.timers_data[self.timers[n]].timeout <= self.count
            invariant
                n <= c,
                c == old(self).counting,
                q == old(self).queue(),
                old(self).wf(),
                self.count == old(self).count + 1,
                self.next == old(self).next,
                self.counting == old(self).counting,
                self.timers@ == old(self).timers@,
                self.timers_data@.len() == MAX_TIMER_COUNT,
                fired@.len() == n,
                forall|i: int|
                    0 <= i < n ==> #[trigger] fired@[i] == old(self).slot(q[i] as int) && fired@[i].timeout <= self.count,
                forall|i: int|
                    0 <= i < n ==> #[trigger] self.timers_data@[q[i] as int] == (Timer {
                        flag: TimerState::Available,
                        ..old(self).slot(q[i] as int)
                    }),
                forall|id: int|
                    0 <= id < MAX_TIMER_COUNT && (forall|i: int| 0 <= i < n ==> q[i] != id)
                        ==> #[trigger] self.timers_data@[id] == old(self).timers_data@[id],
            decreases c - n,
        {
            let id = self.timers[n];
            proof {
                assert(q[n as int] == id);
                assert(id < MAX_TIMER_COUNT);
                assert forall|i: int| 0 <= i < n implies #[trigger] q[i] != id by {
                    assert(old(self).timers@[i] != old(self).timers@[n as int]);
                }
            }
            fired.push(self.timers_data[id]);
            self.timers_data[id].flag = TimerState::Available;
            proof {
                assert forall|i: int| 0 <= i < n + 1 implies #[trigger] self.timers_data@[q[i] as int] == (Timer {
                    flag: TimerState::Available,
                    ..old(self).slot(q[i] as int)
                }) by {
                    if i < n {
                        assert(old(self).timers@[i] != old(self).timers@[n as int]);
                    }
                }
            }
            n += 1;
        }
        let ghost before_shift = self.timers@;
        let ghost data1 = self.timers_data@;
        let mut i: usize = 0;
        while i + n < c
            invariant
                self.timers_data@ == data1,
                self.count == old(self).count + 1,
                self.next == old(self).next,
                self.counting == old(self).counting,
                n <= c,
                i + n <= c,
                c == old(self).counting,
                c <= MAX_TIMER_COUNT,
                self.timers@.len() == MAX_TIMER_COUNT,
                before_shift == old(self).timers@,
                forall|k: int| 0 <= k < i ==> #[trigger] self.timers@[k] == before_shift[k + n],
                forall|k: int| i <= k < c ==> #[trigger] self.timers@[k] == before_shift[k],
            decreases c - i,
        {
            let v = self.timers[i + n];
            self.timers.set(i, v);
            i += 1;
        }
        self.counting = (c - n) as u32;
        if self.counting > 0 {
            self.next = self.timers_data[self.timers[0]].timeout;
        } else {
            self.next = u32::MAX;
        }
        proof {
            let nq = q.subrange(n as int, c as int);
            assert(self.queue() =~= nq);
            assert forall|k: int| 0 <= k < self.counting implies #[trigger] self.timers@[k] < MAX_TIMER_COUNT
                && self.timers_data@[self.timers@[k] as int].flag == TimerState::Running by {
                assert(self.timers@[k] == q[k + n]);
                assert(old(self).timers@[k + n] < MAX_TIMER_COUNT);
                assert forall|j: int| 0 <= j < n implies #[trigger] q[j] != q[k + n] by {
                    assert(old(self).timers@[j] != old(self).timers@[k + n]);
                }
            }
            assert forall|a: int, b: int| 0 <= a < b < self.counting implies #[trigger] self.timers@[a] != #[trigger] self.timers@[b] by {
                assert(old(self).timers@[a + n] != old(self).timers@[b + n]);
            }
            assert forall|a: int, b: int| 0 <= a < b < self.counting implies self.timers_data@[#[trigger] self.timers@[a] as int].timeout
                <= self.timers_data@[#[trigger] self.timers@[b] as int].timeout by {
                assert(self.timers@[a] == q[a + n]);
                assert(self.timers@[b] == q[b + n]);
                assert(old(self).timers_data@[old(self).timers@[a + n] as int].timeout
                    <= old(self).timers_data@[old(self).timers@[b + n] as int].timeout);
                assert(old(self).timers@[a + n] < MAX_TIMER_COUNT);
                assert(old(self).timers@[b + n] < MAX_TIMER_COUNT);
                assert forall|j: int| 0 <= j < n implies #[trigger] q[j] != q[a + n] by {
                    assert(old(self).timers@[j] != old(self).timers@[a + n]);
                }
                assert forall|j: int| 0 <= j < n implies #[trigger] q[j] != q[b + n] by {
                    assert(old(self).timers@[j] != old(self).timers@[b + n]);
                }
            }
            assert forall|id: int| 0 <= id < MAX_TIMER_COUNT && (#[trigger] self.timers_data@[id]).flag == TimerState::Running
                implies self.queue().contains(id as usize) by {
                if exists|j: int| 0 <= j < n && q[j] == id {
                    let j = choose|j: int| 0 <= j < n && q[j] == id;
                    assert(self.timers_data@[q[j] as int].flag == TimerState::Available);
                } else {
                    assert(old(self).timers_data@[id].flag == TimerState::Running);
                    assert(old(self).queue().contains(id as usize));
                    let k = choose|k: int| 0 <= k < q.len() && q[k] == id;
                    assert(k >= n);
                    assert(self.queue()[k - n] == id);
                }
            }
            if n < c {
                assert(old(self).timers@[n as int] < MAX_TIMER_COUNT);
                assert forall|j: int| 0 <= j < n implies #[trigger] q[j] != q[n as int] by {
                    assert(old(self).timers@[j] != old(self).timers@[n as int]);
                }
            }
            if self.counting > 0 {
                assert(self.timers@[0] == q[n as int]);
            }
        }
        fired
    }

    /// Ticks counted so far.
    pub fn count(&self) -> (r: u32)
        ensures
            r == self.spec_count(),
    {
        self.count
    }

    /// The earliest deadline of a running timer, as last computed.
    pub fn next(&self) -> (r: u32)
        ensures
            r == self.spec_next(),
    {
        self.next
    }

    /// Number of running timers.
    pub fn counting(&self) -> (r: u32)
        requires
            self.wf(),
        ensures
            r == self.queue().len(),
    {
        self.counting
    }

    /// The timer with id `timer_id`.
    pub fn timer(&self, timer_id: usize) -> (r: Timer)
        requires
            self.wf(),
            timer_id < MAX_TIMER_COUNT,
        ensures
            r == self.slot(timer_id as int),
    {
        self.timers_data[timer_id]
    }

    /// The id of the running timer at place `i` of the queue.
    pub fn timer_at(&self, i: usize) -> (r: usize)
        requires
            self.wf(),
            i < self.queue().len(),
        ensures
            r == self.queue()[i as int],
    {
        self.timers[i]
    }

    /// Under the invariant, the queue holds running timers, earliest
    /// deadline first, and `next` is the first deadline when any runs.
    pub proof fn lemma_queue_order(&self)
        requires
            self.wf(),
        ensures
            self.queue().len() <= MAX_TIMER_COUNT,
            self.queue().len() > 0 ==> self.spec_next() == self.slot(self.queue()[0] as int).timeout,
            forall|k: int|
                0 <= k < self.queue().len() ==> #[trigger] self.queue()[k] < MAX_TIMER_COUNT
                    && self.slot(self.queue()[k] as int).flag == TimerState::Running,
            forall|i: int, j: int|
                0 <= i < j < self.queue().len() ==> self.slot((#[trigger] self.queue()[i]) as int).timeout
                    <= self.slot((#[trigger] self.queue()[j]) as int).timeout,
    {
        assert forall|i: int, j: int| 0 <= i < j < self.queue().len() implies self.slot((#[trigger] self.queue()[i]) as int).timeout
            <= self.slot((#[trigger] self.queue()[j]) as int).timeout by {
            assert(self.queue()[i] == self.timers@[i]);
            assert(self.queue()[j] == self.timers@[j]);
        }
        assert forall|k: int| 0 <= k < self.queue().len() implies #[trigger] self.queue()[k] < MAX_TIMER_COUNT
            && self.slot(self.queue()[k] as int).flag == TimerState::Running by {
            assert(self.queue()[k] == self.timers@[k]);
        }
    }
}

} // verus!
