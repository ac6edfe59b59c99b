use vstd::prelude::*;
use vstd::multiset::Multiset;
use crate::task::{Task, TaskOrder};
use crate::schedule::{
    Scheduler, advance, arrived_by, clamp_time, to_arrive_after, clock_after, dispatch_ids, finish, is_eligible, is_least, is_next,
    is_split, lemma_clamp_after, lemma_dispatch_step, lemma_next_at_clamp, lemma_next_from_split,
};

verus! {

broadcast use vstd::seq_lib::group_to_multiset_ensures;

/// Index of the least task of `tasks` in `order`; the first such when several
/// are equal. Scans the whole sequence.
pub fn index_of_least(tasks: &Vec<Task>, order: TaskOrder) -> (r: Option<usize>)
    ensures
        r is None <==> tasks@.len() == 0,
        r matches Some(i) ==> i < tasks@.len() && is_least(tasks@, order, tasks@[i as int]),
{
    if tasks.len() == 0 {
        return None;
    }
    let mut min_ind: usize = 0;
    let mut i: usize = 1;
    while i < tasks.len()
        invariant
            1 <= i <= tasks@.len(),
            min_ind < i,
            forall|j: int| 0 <= j < i ==> order.le(tasks@[min_ind as int], #[trigger] tasks@[j]),
        decreases tasks@.len() - i,
    {
        if !order.precedes(&tasks[min_ind], &tasks[i]) {
            min_ind = i;
        }
        i += 1;
    }
    assert(tasks@.contains(tasks@[min_ind as int]));
    Some(min_ind)
}

/// Index of the shortest task of `tasks` (see `TaskOrder::ByDuration` for ties).
pub fn get_shortest_task_ind(tasks: &Vec<Task>) -> (r: Option<usize>)
    ensures
        r is None <==> tasks@.len() == 0,
        r matches Some(i) ==> i < tasks@.len() && is_least(tasks@, TaskOrder::ByDuration, tasks@[i as int]),
{
    index_of_least(tasks, TaskOrder::ByDuration)
}

/// The baseline strategy: both the admitted tasks and the waiting ones are
/// kept unordered, and each step scans them.
pub struct NaiveScheduler {
    /// The clock, stopped at `u32::MAX`.
    pub current_time: u32,
    /// The clock.
    pub clock: Ghost<int>,
    /// Tasks admitted so far and not yet dispatched.
    pub current_queue: Vec<Task>,
    /// Tasks not yet admitted.
    pub unqueued_tasks: Vec<Task>,
}

impl NaiveScheduler {
    /// Every task that has arrived by now is admitted.
    pub open spec fn released(&self) -> bool {
        is_split(self.current_queue@, self.unqueued_tasks@, self.current_time as int)
    }

    pub fn unfinished(&self) -> (r: bool)
        ensures
            r == (self.pending().len() > 0),
    {
        self.unqueued_tasks.len() > 0 || self.current_queue.len() > 0
    }

    /// Dispatches the next task and advances the clock past it; `None` once
    /// nothing is pending.
    pub fn get_next_task(&mut self) -> (r: Option<Task>)
        requires
            old(self).well_formed(),
            old(self).released(),
        ensures
            final(self).well_formed(),
            match r {
                None => {
                    &&& old(self).pending().len() == 0
                    &&& final(self).pending().len() == 0
                    &&& final(self).now() == old(self).now()
                },
                Some(t) => {
                    &&& is_next(old(self).pending(), old(self).now(), t)
                    &&& final(self).pending() == old(self).pending().remove(t)
                    &&& final(self).now() == clock_after(old(self).now(), t)
                    &&& old(self).current_queue@.len() > 0 ==> {
                        // taken from the admitted tasks; the waiting ones stay as they were
                        &&& final(self).unqueued_tasks@ == old(self).unqueued_tasks@
                        &&& exists|i: int|
                            0 <= i < old(self).current_queue@.len()
                                && #[trigger] old(self).current_queue@[i] == t
                                && final(self).current_queue@ == old(self).current_queue@.remove(i)
                    }
                    &&& old(self).current_queue@.len() == 0 ==> {
                        // the server idled: taken from the waiting tasks
                        &&& final(self).current_queue@ == old(self).current_queue@
                        &&& exists|i: int|
                            0 <= i < old(self).unqueued_tasks@.len()
                                && #[trigger] old(self).unqueued_tasks@[i] == t
                                && final(self).unqueued_tasks@ == old(self).unqueued_tasks@.remove(i)
                    }
                },
            },
    {
        if let Some(next_task_ind) = get_shortest_task_ind(&self.current_queue) {
            proof {
                lemma_next_from_split(self.current_queue@, self.unqueued_tasks@,
                    self.current_time as int, self.current_queue@[next_task_ind as int]);
            }
            let next_task = self.current_queue.remove(next_task_ind);
            self.current_time = advance(self.current_time, &next_task);
            self.clock = Ghost(clock_after(self.clock@, next_task));
            proof {
                lemma_clamp_after(old(self).clock@, next_task);
                lemma_next_at_clamp(old(self).pending(), old(self).clock@, next_task);
            }
            proof {
                assert(old(self).current_queue@.remove(next_task_ind as int).to_multiset()
                    == old(self).current_queue@.to_multiset().remove(next_task));
                assert(self.pending() =~= old(self).pending().remove(next_task));
                assert(old(self).current_queue@[next_task_ind as int] == next_task);
            }
            Some(next_task)
        } else if let Some(ind) = index_of_least(&self.unqueued_tasks, TaskOrder::ByArrival) {
            proof {
                lemma_next_from_split(self.current_queue@, self.unqueued_tasks@,
                    self.current_time as int, self.unqueued_tasks@[ind as int]);
            }
            let next_task = self.unqueued_tasks.remove(ind);
            self.current_time = advance(self.current_time, &next_task);
            self.clock = Ghost(clock_after(self.clock@, next_task));
            proof {
                lemma_clamp_after(old(self).clock@, next_task);
                lemma_next_at_clamp(old(self).pending(), old(self).clock@, next_task);
            }
            proof {
                assert(old(self).unqueued_tasks@.remove(ind as int).to_multiset()
                    == old(self).unqueued_tasks@.to_multiset().remove(next_task));
                assert(self.pending() =~= old(self).pending().remove(next_task));
                assert(old(self).unqueued_tasks@[ind as int] == next_task);
            }
            Some(next_task)
        } else {
            proof {
                assert(self.pending() =~= Multiset::empty());
            }
            None
        }
    }

    /// Takes out of the waiting tasks every one that has arrived by now.
    pub fn get_new_tasks(&mut self) -> (r: Vec<Task>)
        ensures
            final(self).current_time == old(self).current_time,
            final(self).clock == old(self).clock,
            final(self).current_queue == old(self).current_queue,
            r@.to_multiset().add(final(self).unqueued_tasks@.to_multiset())
                == old(self).unqueued_tasks@.to_multiset(),
            is_split(r@, final(self).unqueued_tasks@, old(self).current_time as int),
            r@ == arrived_by(old(self).unqueued_tasks@, old(self).current_time as int),
            final(self).unqueued_tasks@ == to_arrive_after(old(self).unqueued_tasks@, old(self).current_time as int),
    {
        let mut new_tasks: Vec<Task> = Vec::new();
        let mut kept: Vec<Task> = Vec::new();
        let mut i: usize = 0;
        proof {
            reveal(Seq::filter);
            assert(self.unqueued_tasks@.subrange(0, 0) =~= Seq::<Task>::empty());
        }
        while i < self.unqueued_tasks.len()
            invariant
                0 <= i <= self.unqueued_tasks@.len(),
                new_tasks@.to_multiset().add(kept@.to_multiset())
                    == self.unqueued_tasks@.subrange(0, i as int).to_multiset(),
                is_split(new_tasks@, kept@, self.current_time as int),
                new_tasks@ == arrived_by(self.unqueued_tasks@.subrange(0, i as int), self.current_time as int),
                kept@ == to_arrive_after(self.unqueued_tasks@.subrange(0, i as int), self.current_time as int),
            decreases self.unqueued_tasks@.len() - i,
        {
            let task = self.unqueued_tasks[i];
            proof {
                let next = self.unqueued_tasks@.subrange(0, i + 1);
                assert(next =~= self.unqueued_tasks@.subrange(0, i as int).push(task));
                assert(next.drop_last() =~= self.unqueued_tasks@.subrange(0, i as int));
                reveal(Seq::filter);
            }
            if task.queued_at <= self.current_time {
                new_tasks.push(task);
            } else {
                kept.push(task);
            }
            proof {
                assert(new_tasks@.to_multiset().add(kept@.to_multiset())
                    =~= self.unqueued_tasks@.subrange(0, i + 1).to_multiset());
            }
            i += 1;
        }
        proof {
            assert(self.unqueued_tasks@.subrange(0, i as int) =~= self.unqueued_tasks@);
        }
        self.unqueued_tasks = kept;
        new_tasks
    }

    /// Admits every waiting task that has arrived by now.
    pub fn update_queue(&mut self)
        requires
            old(self).well_formed(),
        ensures
            final(self).well_formed(),
            final(self).released(),
            final(self).pending() == old(self).pending(),
            final(self).now() == old(self).now(),
            final(self).current_time == old(self).current_time,
            final(self).current_queue@
                == old(self).current_queue@ + arrived_by(old(self).unqueued_tasks@, old(self).current_time as int),
            final(self).unqueued_tasks@ == to_arrive_after(old(self).unqueued_tasks@, old(self).current_time as int),
    {
        let mut new_tasks = self.get_new_tasks();
        let ghost admitted = new_tasks@;
        self.current_queue.append(&mut new_tasks);
        proof {
            let q = self.current_queue@;
            let q0 = old(self).current_queue@;
            assert(q =~= q0 + admitted);
            vstd::seq_lib::lemma_multiset_commutative(q0, admitted);
            assert(self.pending() =~= old(self).pending());
        }
    }
}

impl Scheduler for NaiveScheduler {
    open spec fn pending(&self) -> Multiset<Task> {
        self.current_queue@.to_multiset().add(self.unqueued_tasks@.to_multiset())
    }

    open spec fn now(&self) -> int {
        self.clock@
    }

    open spec fn admitted(&self) -> Multiset<Task> {
        self.current_queue@.to_multiset()
    }

    open spec fn well_formed(&self) -> bool {
        &&& self.current_time as int == clamp_time(self.clock@)
        &&& forall|i: int|
            0 <= i < self.current_queue@.len() ==> is_eligible(
                #[trigger] self.current_queue@[i],
                self.current_time as int,
            )
    }

    fn new(tasks: &[Task]) -> (s: Self) {
        let mut unqueued_tasks: Vec<Task> = Vec::new();
        let mut i: usize = 0;
        while i < tasks.len()
            invariant
                0 <= i <= tasks@.len(),
                unqueued_tasks@ == tasks@.subrange(0, i as int),
            decreases tasks@.len() - i,
        {
            unqueued_tasks.push(tasks[i]);
            proof {
                assert(unqueued_tasks@ =~= tasks@.subrange(0, i + 1));
            }
            i += 1;
        }
        proof {
            assert(unqueued_tasks@ =~= tasks@);
            assert(Seq::<Task>::empty().to_multiset().add(tasks@.to_multiset()) =~= tasks@.to_multiset());
        }
        NaiveScheduler { current_time: 0, clock: Ghost(0), current_queue: Vec::new(), unqueued_tasks }
    }

    fn execution_order(&mut self) -> (r: Vec<u64>) {
        let mut executed_ids: Vec<u64> = Vec::new();
        while self.unfinished()
            invariant
                self.well_formed(),
                executed_ids@ + dispatch_ids(self.pending(), self.now())
                    == dispatch_ids(old(self).pending(), old(self).now()),
                finish(self.pending(), self.now()) == finish(old(self).pending(), old(self).now()),
            decreases self.pending().len(),
        {
            self.update_queue();
            let ghost before = *self;
            match self.get_next_task() {
                Some(next_task) => {
                    proof {
                        lemma_dispatch_step(before.pending(), before.now(), next_task);
                        assert(executed_ids@.push(next_task.id) + dispatch_ids(self.pending(), self.now())
                            =~= executed_ids@ + dispatch_ids(before.pending(), before.now()));
                    }
                    executed_ids.push(next_task.id);
                },
                None => {},
            }
        }
        proof {
            assert(self.pending() =~= Multiset::empty());
            assert(dispatch_ids(self.pending(), self.now()) =~= Seq::empty());
            assert(executed_ids@ =~= executed_ids@ + Seq::<u64>::empty());
        }
        executed_ids
    }
}

} // verus!
