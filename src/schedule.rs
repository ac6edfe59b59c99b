use vstd::prelude::*;
use vstd::multiset::Multiset;
use crate::task::{Task, TaskOrder, lemma_order_antisymmetric};

verus! {

/// A task is eligible once the clock has reached its arrival time.
pub open spec fn is_eligible(t: Task, clock: int) -> bool {
    t.queued_at <= clock
}

pub open spec fn any_eligible(pending: Multiset<Task>, clock: int) -> bool {
    exists|t: Task| pending.contains(t) && is_eligible(t, clock)
}

/// `t` is the task dispatched next from `pending` at time `clock`: the
/// shortest eligible one if any task is eligible, else the earliest to arrive
/// (the server idles until it arrives).
pub open spec fn is_next(pending: Multiset<Task>, clock: int, t: Task) -> bool {
    &&& pending.contains(t)
    &&& if any_eligible(pending, clock) {
        &&& is_eligible(t, clock)
        &&& forall|u: Task|
            pending.contains(u) && is_eligible(u, clock) ==> #[trigger] TaskOrder::ByDuration.le(t, u)
    } else {
        forall|u: Task| pending.contains(u) ==> #[trigger] TaskOrder::ByArrival.le(t, u)
    }
}

pub open spec fn next_task(pending: Multiset<Task>, clock: int) -> Task {
    choose|t: Task| is_next(pending, clock, t)
}

/// The clock once `t` has run: it starts no earlier than its arrival.
pub open spec fn clock_after(clock: int, t: Task) -> int {
    (if clock < t.queued_at { t.queued_at as int } else { clock }) + t.execution_duration
}

/// The time as a `u32` holds it: the clock, stopped at `u32::MAX`. No arrival
/// time lies beyond that, so the stopped clock admits the same tasks.
pub open spec fn clamp_time(clock: int) -> int {
    if clock > u32::MAX { u32::MAX as int } else { clock }
}

/// The stopped clock of `now` after `t` runs.
pub fn advance(now: u32, t: &Task) -> (r: u32)
    ensures
        r == clamp_time(clock_after(now as int, *t)),
{
    let start = if now < t.queued_at { t.queued_at } else { now };
    start.saturating_add(t.execution_duration)
}

/// Running a task from the stopped clock stops where the clock does.
pub proof fn lemma_clamp_after(clock: int, t: Task)
    ensures
        clamp_time(clock_after(clamp_time(clock), t)) == clamp_time(clock_after(clock, t)),
{
}

/// The stopped clock has the same next task as the clock.
pub proof fn lemma_next_at_clamp(pending: Multiset<Task>, clock: int, t: Task)
    requires
        is_next(pending, clamp_time(clock), t),
    ensures
        is_next(pending, clock, t),
{
    assert forall|u: Task| is_eligible(u, clamp_time(clock)) == is_eligible(u, clock) by {}
    if any_eligible(pending, clamp_time(clock)) {
        let w = choose|w: Task| pending.contains(w) && is_eligible(w, clamp_time(clock));
        assert(is_eligible(w, clock));
    } else {
        assert(!any_eligible(pending, clock));
    }
}

/// The tasks of `pending` in the order the server runs them, from time `clock`.
pub open spec fn dispatch(pending: Multiset<Task>, clock: int) -> Seq<Task>
    decreases pending.len(),
{
    if pending.len() == 0 {
        Seq::empty()
    } else {
        let t = next_task(pending, clock);
        if pending.contains(t) {
            seq![t] + dispatch(pending.remove(t), clock_after(clock, t))
        } else {
            Seq::empty()
        }
    }
}

/// The clock once every task of `pending` has run, from time `clock`: the
/// completion time of the last task dispatched.
pub open spec fn finish(pending: Multiset<Task>, clock: int) -> int
    decreases pending.len(),
{
    if pending.len() == 0 {
        clock
    } else {
        let t = next_task(pending, clock);
        if pending.contains(t) {
            finish(pending.remove(t), clock_after(clock, t))
        } else {
            clock
        }
    }
}

/// The identifiers of the tasks of `pending` in dispatch order.
pub open spec fn dispatch_ids(pending: Multiset<Task>, clock: int) -> Seq<u64> {
    dispatch(pending, clock).map_values(|t: Task| t.id)
}

/// At most one task is next.
pub proof fn lemma_next_unique(pending: Multiset<Task>, clock: int, a: Task, b: Task)
    requires
        is_next(pending, clock, a),
        is_next(pending, clock, b),
    ensures
        a == b,
{
    if any_eligible(pending, clock) {
        assert(TaskOrder::ByDuration.le(a, b));
        assert(TaskOrder::ByDuration.le(b, a));
        lemma_order_antisymmetric(TaskOrder::ByDuration, a, b);
    } else {
        assert(TaskOrder::ByArrival.le(a, b));
        assert(TaskOrder::ByArrival.le(b, a));
        lemma_order_antisymmetric(TaskOrder::ByArrival, a, b);
    }
}

/// Once the next task is known, the dispatch order unfolds by one step.
pub proof fn lemma_dispatch_step(pending: Multiset<Task>, clock: int, t: Task)
    requires
        is_next(pending, clock, t),
    ensures
        dispatch(pending, clock) == seq![t] + dispatch(pending.remove(t), clock_after(clock, t)),
        dispatch_ids(pending, clock) == seq![t.id] + dispatch_ids(pending.remove(t), clock_after(clock, t)),
        finish(pending, clock) == finish(pending.remove(t), clock_after(clock, t)),
{
    lemma_next_unique(pending, clock, t, next_task(pending, clock));
    assert(pending.len() > 0);
    let rest = dispatch(pending.remove(t), clock_after(clock, t));
    assert((seq![t] + rest).map_values(|x: Task| x.id) =~= seq![t.id] + rest.map_values(|x: Task| x.id));
}

/// The tasks not yet dispatched, split into those already admitted, each of
/// them eligible, and those still waiting, none of them eligible.
pub open spec fn is_split(ready: Seq<Task>, waiting: Seq<Task>, clock: int) -> bool {
    &&& forall|i: int| 0 <= i < ready.len() ==> is_eligible(#[trigger] ready[i], clock)
    &&& forall|i: int| 0 <= i < waiting.len() ==> !is_eligible(#[trigger] waiting[i], clock)
}

/// The tasks of `s` that have arrived by `clock`, in their order in `s`.
pub open spec fn arrived_by(s: Seq<Task>, clock: int) -> Seq<Task> {
    s.filter(|t: Task| is_eligible(t, clock))
}

/// The tasks of `s` still to arrive after `clock`, in their order in `s`.
pub open spec fn to_arrive_after(s: Seq<Task>, clock: int) -> Seq<Task> {
    s.filter(|t: Task| !is_eligible(t, clock))
}

/// The least of `s` in `order`.
pub open spec fn is_least(s: Seq<Task>, order: TaskOrder, t: Task) -> bool {
    &&& s.contains(t)
    &&& forall|i: int| 0 <= i < s.len() ==> order.le(t, #[trigger] s[i])
}

/// The next task, when the admitted tasks `ready` have all arrived and the
/// waiting ones have not: the first admitted task by duration, or, when none
/// is admitted, the first waiting task by arrival.
pub proof fn lemma_next_from_admitted(ready: Multiset<Task>, waiting: Seq<Task>, clock: int, t: Task)
    requires
        forall|u: Task| #[trigger] ready.contains(u) ==> is_eligible(u, clock),
        forall|i: int| 0 <= i < waiting.len() ==> !is_eligible(#[trigger] waiting[i], clock),
        ready.len() > 0 ==> ready.contains(t) && forall|u: Task|
            #[trigger] ready.contains(u) ==> TaskOrder::ByDuration.le(t, u),
        ready.len() == 0 ==> is_least(waiting, TaskOrder::ByArrival, t),
    ensures
        is_next(ready.add(waiting.to_multiset()), clock, t),
{
    broadcast use vstd::seq_lib::group_to_multiset_ensures;
    let pending = ready.add(waiting.to_multiset());
    assert forall|u: Task| pending.contains(u) <==> ready.contains(u) || waiting.contains(u) by {}
    if ready.len() > 0 {
        assert(pending.contains(t) && is_eligible(t, clock));
        assert forall|u: Task| pending.contains(u) && is_eligible(u, clock) implies
            #[trigger] TaskOrder::ByDuration.le(t, u) by {
            if !ready.contains(u) {
                let j = choose|j: int| 0 <= j < waiting.len() && waiting[j] == u;
                assert(!is_eligible(waiting[j], clock));
            }
        }
    } else {
        assert(ready =~= Multiset::empty()) by {
            vstd::multiset::lemma_multiset_empty_len(ready);
        }
        assert(!any_eligible(pending, clock)) by {
            assert forall|u: Task| pending.contains(u) implies !is_eligible(u, clock) by {
                let j = choose|j: int| 0 <= j < waiting.len() && waiting[j] == u;
                assert(!is_eligible(waiting[j], clock));
            }
        }
    }
}

/// Over a split, the next task is the shortest admitted task, or the earliest
/// waiting one when none is admitted.
pub proof fn lemma_next_from_split(ready: Seq<Task>, waiting: Seq<Task>, clock: int, t: Task)
    requires
        is_split(ready, waiting, clock),
        ready.len() > 0 ==> is_least(ready, TaskOrder::ByDuration, t),
        ready.len() == 0 ==> is_least(waiting, TaskOrder::ByArrival, t),
    ensures
        is_next(ready.to_multiset().add(waiting.to_multiset()), clock, t),
{
    broadcast use vstd::seq_lib::group_to_multiset_ensures;
    let m = ready.to_multiset();
    assert forall|u: Task| #[trigger] m.contains(u) implies is_eligible(u, clock) by {
        let j = choose|j: int| 0 <= j < ready.len() && ready[j] == u;
        assert(is_eligible(ready[j], clock));
    }
    assert forall|u: Task| #[trigger] m.contains(u) implies TaskOrder::ByDuration.le(t, u) by {
        let j = choose|j: int| 0 <= j < ready.len() && ready[j] == u;
        assert(TaskOrder::ByDuration.le(t, ready[j]));
    }
    lemma_next_from_admitted(m, waiting, clock, t);
}

/// A strategy for running the tasks: it admits arrivals, picks the next task,
/// and advances the clock, so that its run follows `dispatch`.
pub trait Scheduler: Sized {
    /// The tasks not yet dispatched.
    spec fn pending(&self) -> Multiset<Task>;

    /// The current time.
    spec fn now(&self) -> int;

    /// The pending tasks already admitted, which the next dispatch chooses from.
    spec fn admitted(&self) -> Multiset<Task>;

    /// The internal bookkeeping is consistent.
    spec fn well_formed(&self) -> bool;

    fn new(tasks: &[Task]) -> (s: Self)
        ensures
            s.well_formed(),
            s.pending() == tasks@.to_multiset(),
            s.admitted() == Multiset::<Task>::empty(),
            s.now() == 0,
    ;

    /// Runs every pending task and returns their identifiers in dispatch
    /// order; the clock ends at the completion time of the last of them.
    fn execution_order(&mut self) -> (r: Vec<u64>)
        requires
            old(self).well_formed(),
        ensures
            r@ == dispatch_ids(old(self).pending(), old(self).now()),
            final(self).now() == finish(old(self).pending(), old(self).now()),
            final(self).well_formed(),
            final(self).pending().len() == 0,
    ;
}

} // verus!
