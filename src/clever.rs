use vstd::prelude::*;
use vstd::multiset::Multiset;
use crate::task::{Task, TaskOrder};
use crate::heap::TaskHeap;
use crate::schedule::{
    Scheduler, advance, clamp_time, clock_after, dispatch_ids, finish, is_eligible, is_next,
    lemma_clamp_after, lemma_dispatch_step, lemma_next_at_clamp, lemma_next_from_admitted,
};
use crate::sorted::{descending, lemma_drop_last_contents, lemma_insert_contents};

verus! {

broadcast use vstd::seq_lib::group_to_multiset_ensures;

/// Number of leading tasks of `v`, descending by arrival, that arrive after
/// `time`; the tasks from there on have all arrived by `time`.
pub fn arrived_partition_point(v: &Vec<Task>, time: u32) -> (p: usize)
    requires
        descending(v@, TaskOrder::ByArrival),
    ensures
        p <= v@.len(),
        forall|i: int| 0 <= i < p ==> !is_eligible(#[trigger] v@[i], time as int),
        forall|i: int| p <= i < v@.len() ==> is_eligible(#[trigger] v@[i], time as int),
{
    let mut lo: usize = 0;
    let mut hi: usize = v.len();
    while lo < hi
        invariant
            lo <= hi <= v@.len(),
            descending(v@, TaskOrder::ByArrival),
            forall|i: int| 0 <= i < lo ==> !is_eligible(#[trigger] v@[i], time as int),
            forall|i: int| hi <= i < v@.len() ==> is_eligible(#[trigger] v@[i], time as int),
        decreases hi - lo,
    {
        let mid = lo + (hi - lo) / 2;
        if v[mid].queued_at <= time {
            assert forall|i: int| mid <= i < v@.len() implies is_eligible(#[trigger] v@[i], time as int) by {
                if i > mid {
                    assert(TaskOrder::ByArrival.le(v@[i], v@[mid as int]));
                }
            }
            hi = mid;
        } else {
            assert forall|i: int| 0 <= i <= mid implies !is_eligible(#[trigger] v@[i], time as int) by {
                if i < mid {
                    assert(TaskOrder::ByArrival.le(v@[mid as int], v@[i]));
                }
            }
            lo = mid + 1;
        }
    }
    lo
}

/// The tasks of `tasks`, latest arrival first: a heap by arrival is filled
/// and emptied, then its output is laid out backwards.
pub fn arrivals_latest_first(tasks: &[Task]) -> (v: Vec<Task>)
    ensures
        descending(v@, TaskOrder::ByArrival),
        v@.to_multiset() == tasks@.to_multiset(),
{
    let mut heap = TaskHeap::new(TaskOrder::ByArrival);
    let mut i: usize = 0;
    while i < tasks.len()
        invariant
            0 <= i <= tasks@.len(),
            heap.well_formed(),
            heap.order() == TaskOrder::ByArrival,
            heap.contents() == tasks@.subrange(0, i as int).to_multiset(),
        decreases tasks@.len() - i,
    {
        heap.push(tasks[i]);
        proof {
            assert(tasks@.subrange(0, i + 1) =~= tasks@.subrange(0, i as int).push(tasks@[i as int]));
        }
        i += 1;
    }
    proof {
        assert(tasks@.subrange(0, i as int) =~= tasks@);
    }
    let mut earliest_first: Vec<Task> = Vec::new();
    while heap.len() > 0
        invariant
            heap.well_formed(),
            heap.order() == TaskOrder::ByArrival,
            earliest_first@.to_multiset().add(heap.contents()) == tasks@.to_multiset(),
            forall|i: int, j: int| 0 <= i < j < earliest_first@.len() ==>
                #[trigger] TaskOrder::ByArrival.le(earliest_first@[i], earliest_first@[j]),
            forall|i: int, u: Task| 0 <= i < earliest_first@.len() && #[trigger] heap.contents().contains(u) ==>
                TaskOrder::ByArrival.le(#[trigger] earliest_first@[i], u),
        decreases heap.contents().len(),
    {
        let ghost before = heap.contents();
        let t = heap.pop().unwrap();
        earliest_first.push(t);
        proof {
            assert forall|u: Task| #[trigger] heap.contents().contains(u) implies before.contains(u) by {
                assert(heap.contents().count(u) > 0);
            }
            assert(earliest_first@.to_multiset().add(heap.contents()) =~= tasks@.to_multiset());
        }
    }
    proof {
        vstd::multiset::lemma_multiset_empty_len(heap.contents());
        assert(earliest_first@.to_multiset() =~= tasks@.to_multiset());
    }
    let mut v: Vec<Task> = Vec::new();
    let n = earliest_first.len();
    let mut k: usize = n;
    while k > 0
        invariant
            k <= n,
            n == earliest_first@.len(),
            v@ =~= earliest_first@.subrange(k as int, n as int).reverse(),
        decreases k,
    {
        k -= 1;
        v.push(earliest_first[k]);
    }
    proof {
        assert(earliest_first@.subrange(0, n as int) =~= earliest_first@);
        earliest_first@.lemma_reverse_to_multiset();
    }
    v
}

/// The optimized strategy: waiting tasks are sorted once by arrival, so the
/// arrived ones are found by binary search and taken off the end; admitted
/// tasks are kept in a heap by duration.
pub struct CleverScheduler {
    /// The clock, stopped at `u32::MAX`.
    pub current_time: u32,
    /// The clock.
    pub clock: Ghost<int>,
    /// Tasks not yet admitted, latest arrival first.
    pub unqueued_tasks: Vec<Task>,
    /// Tasks admitted and not yet dispatched.
    pub current_queue: TaskHeap,
}

impl CleverScheduler {
    /// Every task that has arrived by now is admitted.
    pub open spec fn released(&self) -> bool {
        forall|i: int| 0 <= i < self.unqueued_tasks@.len() ==>
            !is_eligible(#[trigger] self.unqueued_tasks@[i], self.current_time as int)
    }

    pub fn unfinished(&self) -> (r: bool)
        ensures
            r == (self.pending().len() > 0),
    {
        self.unqueued_tasks.len() > 0 || self.current_queue.len() > 0
    }

    /// Admits every waiting task that has arrived by `time`: the arrived ones
    /// form the end of the waiting list, which is cut off and moved to the heap.
    pub fn queue_tasks_submitted_before(&mut self, time: u32)
        requires
            old(self).well_formed(),
        ensures
            final(self).current_time == old(self).current_time,
            final(self).clock == old(self).clock,
            final(self).pending() == old(self).pending(),
            final(self).unqueued_tasks@.len() <= old(self).unqueued_tasks@.len(),
            final(self).unqueued_tasks@
                == old(self).unqueued_tasks@.subrange(0, final(self).unqueued_tasks@.len() as int),
            final(self).current_queue.contents() == old(self).current_queue.contents().add(
                old(self).unqueued_tasks@.subrange(
                    final(self).unqueued_tasks@.len() as int,
                    old(self).unqueued_tasks@.len() as int,
                ).to_multiset(),
            ),
            forall|i: int| final(self).unqueued_tasks@.len() <= i < old(self).unqueued_tasks@.len() ==>
                is_eligible(#[trigger] old(self).unqueued_tasks@[i], time as int),
            forall|i: int| 0 <= i < final(self).unqueued_tasks@.len() ==>
                !is_eligible(#[trigger] final(self).unqueued_tasks@[i], time as int),
            descending(final(self).unqueued_tasks@, TaskOrder::ByArrival),
            final(self).current_queue.well_formed(),
            final(self).current_queue.order() == TaskOrder::ByDuration,
            forall|u: Task| #[trigger] final(self).current_queue.contents().contains(u) ==>
                is_eligible(u, if old(self).current_time < time { time as int } else { old(self).current_time as int }),
    {
        let ghost horizon: int = if self.current_time < time { time as int } else { self.current_time as int };
        let ghost n = self.unqueued_tasks@.len() as int;
        let num_later_tasks = arrived_partition_point(&self.unqueued_tasks, time);
        while self.unqueued_tasks.len() > num_later_tasks
            invariant
                num_later_tasks <= self.unqueued_tasks@.len() <= n,
                n == old(self).unqueued_tasks@.len(),
                horizon == if old(self).current_time < time { time as int } else { old(self).current_time as int },
                self.current_time == old(self).current_time,
                self.clock == old(self).clock,
                self.pending() == old(self).pending(),
                self.unqueued_tasks@ == old(self).unqueued_tasks@.subrange(0, self.unqueued_tasks@.len() as int),
                self.current_queue.contents() == old(self).current_queue.contents().add(
                    old(self).unqueued_tasks@.subrange(self.unqueued_tasks@.len() as int, n).to_multiset(),
                ),
                descending(self.unqueued_tasks@, TaskOrder::ByArrival),
                self.current_queue.well_formed(),
                self.current_queue.order() == TaskOrder::ByDuration,
                forall|u: Task| #[trigger] self.current_queue.contents().contains(u) ==>
                    is_eligible(u, horizon),
                forall|i: int| 0 <= i < num_later_tasks ==>
                    !is_eligible(#[trigger] self.unqueued_tasks@[i], time as int),
                forall|i: int| num_later_tasks <= i < n ==>
                    is_eligible(#[trigger] old(self).unqueued_tasks@[i], time as int),
            decreases self.unqueued_tasks@.len(),
        {
            let ghost before = *self;
            let task = self.unqueued_tasks.pop().unwrap();
            proof {
                let k = before.unqueued_tasks@.len() as int;
                lemma_drop_last_contents(before.unqueued_tasks@);
                assert(task == old(self).unqueued_tasks@[k - 1]);
                assert(self.unqueued_tasks@ =~= old(self).unqueued_tasks@.subrange(0, k - 1));
                assert(old(self).unqueued_tasks@.subrange(k - 1, n)
                    =~= old(self).unqueued_tasks@.subrange(k, n).insert(0, task));
                lemma_insert_contents(old(self).unqueued_tasks@.subrange(k, n), 0, task);
            }
            self.current_queue.push(task);
            proof {
                let k = before.unqueued_tasks@.len() as int;
                assert forall|u: Task| #[trigger] self.current_queue.contents().contains(u) implies
                    is_eligible(u, horizon) by {
                    if u != task {
                        assert(self.current_queue.contents().count(u) > 0);
                        assert(before.current_queue.contents().count(u) > 0);
                        assert(before.current_queue.contents().contains(u));
                    } else {
                        assert(is_eligible(old(self).unqueued_tasks@[k - 1], time as int));
                    }
                }
                assert(self.current_queue.contents() =~= old(self).current_queue.contents().add(
                    old(self).unqueued_tasks@.subrange(k - 1, n).to_multiset()));
                assert(self.pending() =~= before.pending());
            }
        }
    }

    /// Dispatches the next task and advances the clock past it; `None` once
    /// nothing is pending.
    pub fn get_next_task(&mut self) -> (r: Option<Task>)
        requires
            old(self).well_formed(),
            old(self).released(),
        ensures
            final(self).well_formed(),
            match r {
                None => {
                    &&& old(self).pending().len() == 0
                    &&& final(self).pending().len() == 0
                    &&& final(self).now() == old(self).now()
                },
                Some(t) => {
                    &&& is_next(old(self).pending(), old(self).now(), t)
                    &&& final(self).pending() == old(self).pending().remove(t)
                    &&& final(self).now() == clock_after(old(self).now(), t)
                    &&& old(self).current_queue.contents().len() > 0 ==> {
                        // taken from the heap; the waiting tasks stay as they were
                        &&& final(self).current_queue.contents() == old(self).current_queue.contents().remove(t)
                        &&& final(self).unqueued_tasks@ == old(self).unqueued_tasks@
                    }
                    &&& old(self).current_queue.contents().len() == 0 ==> {
                        // the server idled: taken off the end of the waiting list
                        &&& final(self).current_queue.contents() == old(self).current_queue.contents()
                        &&& t == old(self).unqueued_tasks@.last()
                        &&& final(self).unqueued_tasks@ == old(self).unqueued_tasks@.drop_last()
                    }
                },
            },
    {
        let ghost ready = self.current_queue.contents();
        if let Some(task) = self.current_queue.pop() {
            proof {
                lemma_next_from_admitted(ready, old(self).unqueued_tasks@, old(self).current_time as int, task);
            }
            self.current_time = advance(self.current_time, &task);
            self.clock = Ghost(clock_after(self.clock@, task));
            proof {
                lemma_clamp_after(old(self).clock@, task);
                lemma_next_at_clamp(old(self).pending(), old(self).clock@, task);
            }
            proof {
                assert forall|u: Task| #[trigger] self.current_queue.contents().contains(u) implies
                    is_eligible(u, self.current_time as int) by {
                    assert(self.current_queue.contents().count(u) > 0);
                    assert(ready.count(u) > 0);
                    assert(ready.contains(u));
                    assert(is_eligible(u, old(self).current_time as int));
                }
                assert(self.pending() =~= old(self).pending().remove(task));
            }
            Some(task)
        } else if let Some(task) = self.unqueued_tasks.pop() {
            proof {
                let w = old(self).unqueued_tasks@;
                lemma_drop_last_contents(w);
                assert forall|i: int| 0 <= i < w.len() implies
                    TaskOrder::ByArrival.le(task, #[trigger] w[i]) by {
                    if i < w.len() - 1 {
                        assert(TaskOrder::ByArrival.le(w[w.len() - 1], w[i]));
                    }
                }
                assert(w.contains(task));
                lemma_next_from_admitted(ready, w, old(self).current_time as int, task);
            }
            self.current_time = advance(self.current_time, &task);
            self.clock = Ghost(clock_after(self.clock@, task));
            proof {
                lemma_clamp_after(old(self).clock@, task);
                lemma_next_at_clamp(old(self).pending(), old(self).clock@, task);
            }
            proof {
                assert(self.pending() =~= old(self).pending().remove(task));
            }
            Some(task)
        } else {
            proof {
                assert(self.pending() =~= Multiset::empty());
            }
            None
        }
    }

    /// Admits every waiting task that has arrived by now.
    pub fn update_queue(&mut self)
        requires
            old(self).well_formed(),
        ensures
            final(self).well_formed(),
            final(self).released(),
            final(self).pending() == old(self).pending(),
            final(self).now() == old(self).now(),
            final(self).current_time == old(self).current_time,
            final(self).unqueued_tasks@.len() <= old(self).unqueued_tasks@.len(),
            final(self).unqueued_tasks@
                == old(self).unqueued_tasks@.subrange(0, final(self).unqueued_tasks@.len() as int),
            final(self).current_queue.contents() == old(self).current_queue.contents().add(
                old(self).unqueued_tasks@.subrange(
                    final(self).unqueued_tasks@.len() as int,
                    old(self).unqueued_tasks@.len() as int,
                ).to_multiset(),
            ),
    {
        self.queue_tasks_submitted_before(self.current_time);
    }
}

impl Scheduler for CleverScheduler {
    open spec fn pending(&self) -> Multiset<Task> {
        self.current_queue.contents().add(self.unqueued_tasks@.to_multiset())
    }

    open spec fn now(&self) -> int {
        self.clock@
    }

    open spec fn admitted(&self) -> Multiset<Task> {
        self.current_queue.contents()
    }

    open spec fn well_formed(&self) -> bool {
        &&& self.current_time as int == clamp_time(self.clock@)
        &&& descending(self.unqueued_tasks@, TaskOrder::ByArrival)
        &&& self.current_queue.well_formed()
        &&& self.current_queue.order() == TaskOrder::ByDuration
        &&& forall|u: Task| #[trigger] self.current_queue.contents().contains(u) ==>
            is_eligible(u, self.current_time as int)
    }

    fn new(tasks: &[Task]) -> (s: Self) {
        let unqueued_tasks = arrivals_latest_first(tasks);
        let current_queue = TaskHeap::new(TaskOrder::ByDuration);
        let s = CleverScheduler { current_time: 0, clock: Ghost(0), unqueued_tasks, current_queue };
        proof {
            assert(s.pending() =~= tasks@.to_multiset());
        }
        s
    }

    fn execution_order(&mut self) -> (r: Vec<u64>) {
        let mut executed_ids: Vec<u64> = Vec::new();
        while self.unfinished()
            invariant
                self.well_formed(),
                executed_ids@ + dispatch_ids(self.pending(), self.now())
                    == dispatch_ids(old(self).pending(), old(self).now()),
                finish(self.pending(), self.now()) == finish(old(self).pending(), old(self).now()),
            decreases self.pending().len(),
        {
            self.update_queue();
            let ghost before = *self;
            match self.get_next_task() {
                Some(next_task) => {
                    proof {
                        lemma_dispatch_step(before.pending(), before.now(), next_task);
                        assert(executed_ids@.push(next_task.id) + dispatch_ids(self.pending(), self.now())
                            =~= executed_ids@ + dispatch_ids(before.pending(), before.now()));
                    }
                    executed_ids.push(next_task.id);
                },
                None => {},
            }
        }
        proof {
            assert(self.pending() =~= Multiset::empty());
            assert(dispatch_ids(self.pending(), self.now()) =~= Seq::empty());
            assert(executed_ids@ =~= executed_ids@ + Seq::<u64>::empty());
        }
        executed_ids
    }
}

} // verus!
