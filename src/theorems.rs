use vstd::prelude::*;
use vstd::multiset::Multiset;
use crate::task::{Task, TaskOrder};
use crate::schedule::{
    any_eligible, clock_after, dispatch, dispatch_ids, is_eligible, is_next, lemma_dispatch_step,
    lemma_next_unique, next_task,
};
use crate::sorted::lemma_insert_contents;

verus! {

broadcast use vstd::seq_lib::group_to_multiset_ensures;

/// Among the tasks of `s` that arrive by `limit`, if there are any, one comes
/// first in `order`.
proof fn lemma_least_exists(s: Seq<Task>, order: TaskOrder, limit: int) -> (t: Task)
    requires
        exists|i: int| 0 <= i < s.len() && is_eligible(#[trigger] s[i], limit),
    ensures
        s.contains(t),
        is_eligible(t, limit),
        forall|i: int| 0 <= i < s.len() && is_eligible(#[trigger] s[i], limit) ==> order.le(t, s[i]),
    decreases s.len(),
{
    let last = s.last();
    let init = s.drop_last();
    if exists|i: int| 0 <= i < init.len() && is_eligible(#[trigger] init[i], limit) {
        let u = lemma_least_exists(init, order, limit);
        assert(init.contains(u));
        let k = choose|k: int| 0 <= k < init.len() && init[k] == u;
        assert(s[k] == u);
        if is_eligible(last, limit) && order.le(last, u) {
            assert forall|i: int| 0 <= i < s.len() && is_eligible(#[trigger] s[i], limit) implies
                order.le(last, s[i]) by {
                if i < s.len() - 1 {
                    assert(init[i] == s[i]);
                }
            }
            assert(s[s.len() - 1] == last);
            last
        } else {
            assert forall|i: int| 0 <= i < s.len() && is_eligible(#[trigger] s[i], limit) implies
                order.le(u, s[i]) by {
                if i < s.len() - 1 {
                    assert(init[i] == s[i]);
                }
            }
            u
        }
    } else {
        assert forall|i: int| 0 <= i < s.len() && is_eligible(#[trigger] s[i], limit) implies
            order.le(last, s[i]) by {
            if i < s.len() - 1 {
                assert(init[i] == s[i]);
            }
        }
        let j = choose|j: int| 0 <= j < s.len() && is_eligible(#[trigger] s[j], limit);
        if j < s.len() - 1 {
            assert(init[j] == s[j]);
        }
        assert(s[s.len() - 1] == last);
        last
    }
}

/// Whenever tasks are pending, the next one exists.
proof fn lemma_next_exists(s: Seq<Task>, clock: int)
    requires
        s.len() > 0,
    ensures
        is_next(s.to_multiset(), clock, next_task(s.to_multiset(), clock)),
{
    let m = s.to_multiset();
    assert forall|u: Task| m.contains(u) implies exists|i: int| 0 <= i < s.len() && s[i] == u by {
        assert(s.contains(u));
    }
    if any_eligible(m, clock) {
        let w = choose|w: Task| m.contains(w) && is_eligible(w, clock);
        assert(s.contains(w));
        let t = lemma_least_exists(s, TaskOrder::ByDuration, clock);
        assert forall|u: Task| m.contains(u) && is_eligible(u, clock) implies
            #[trigger] TaskOrder::ByDuration.le(t, u) by {
            let i = choose|i: int| 0 <= i < s.len() && s[i] == u;
        }
        assert(is_next(m, clock, t));
    } else {
        assert(is_eligible(s[0], u32::MAX as int));
        let t = lemma_least_exists(s, TaskOrder::ByArrival, u32::MAX as int);
        assert forall|u: Task| m.contains(u) implies #[trigger] TaskOrder::ByArrival.le(t, u) by {
            let i = choose|i: int| 0 <= i < s.len() && s[i] == u;
            assert(is_eligible(s[i], u32::MAX as int));
        }
        assert(is_next(m, clock, t));
    }
}

/// Dispatching a task from the tasks of `s` leaves the tasks of `s` without it.
proof fn lemma_remove_next(s: Seq<Task>, t: Task) -> (rest: Seq<Task>)
    requires
        s.to_multiset().contains(t),
    ensures
        rest.to_multiset() == s.to_multiset().remove(t),
        rest.len() == s.len() - 1,
{
    assert(s.contains(t));
    let i = choose|i: int| 0 <= i < s.len() && s[i] == t;
    s.remove(i)
}

/// Every task is dispatched exactly once: the dispatch order holds the same
/// tasks as the input, and its identifiers are those of the input.
pub proof fn lemma_dispatch_permutes(tasks: Seq<Task>, clock: int)
    ensures
        dispatch(tasks.to_multiset(), clock).to_multiset() == tasks.to_multiset(),
        dispatch(tasks.to_multiset(), clock).len() == tasks.len(),
        dispatch_ids(tasks.to_multiset(), clock).to_multiset()
            == tasks.map_values(|t: Task| t.id).to_multiset(),
    decreases tasks.len(),
{
    let m = tasks.to_multiset();
    let d = dispatch(m, clock);
    if tasks.len() == 0 {
        assert(d =~= Seq::empty());
        assert(d.to_multiset().len() == 0);
        assert(m.len() == 0);
        vstd::multiset::lemma_multiset_empty_len(m);
        vstd::multiset::lemma_multiset_empty_len(d.to_multiset());
    } else {
        lemma_next_exists(tasks, clock);
        let t = next_task(m, clock);
        lemma_dispatch_step(m, clock, t);
        let rest = lemma_remove_next(tasks, t);
        lemma_dispatch_permutes(rest, clock_after(clock, t));
        let tail = dispatch(m.remove(t), clock_after(clock, t));
        assert(d =~= tail.insert(0, t));
        lemma_insert_contents(tail, 0, t);
        assert(d.to_multiset() =~= m);
    }
    lemma_ids_permute(d, tasks);
}

/// Two sequences holding the same tasks hold the same identifiers.
pub proof fn lemma_ids_permute(a: Seq<Task>, b: Seq<Task>)
    requires
        a.to_multiset() == b.to_multiset(),
    ensures
        a.map_values(|t: Task| t.id).to_multiset() == b.map_values(|t: Task| t.id).to_multiset(),
    decreases a.len(),
{
    let ids = |t: Task| t.id;
    if a.len() == 0 {
        a.to_multiset_ensures();
        b.to_multiset_ensures();
        assert(b.len() == 0);
        assert(a.map_values(ids) =~= Seq::empty());
        assert(b.map_values(ids) =~= Seq::empty());
    } else {
        let x = a.last();
        assert(a.contains(x));
        assert(a.to_multiset().count(x) > 0);
        assert(b.to_multiset().count(x) > 0);
        assert(b.contains(x));
        let j = choose|j: int| 0 <= j < b.len() && b[j] == x;
        assert(a.drop_last() =~= a.remove(a.len() - 1));
        assert(a.drop_last().to_multiset() == b.remove(j).to_multiset());
        lemma_ids_permute(a.drop_last(), b.remove(j));
        assert(a.map_values(ids) =~= a.drop_last().map_values(ids).push(x.id));
        assert(b.map_values(ids).remove(j) =~= b.remove(j).map_values(ids));
        assert(b.map_values(ids)[j] == x.id);
        assert(b.map_values(ids).contains(x.id));
        assert(b.map_values(ids).to_multiset() =~= a.map_values(ids).to_multiset());
    }
}

/// `order` follows the dispatch rule from `pending` at `clock`: each task in
/// it is the next one at its turn, and it ends when nothing is pending.
pub open spec fn is_run(pending: Multiset<Task>, clock: int, order: Seq<Task>) -> bool
    decreases order.len(),
{
    if order.len() == 0 {
        pending.len() == 0
    } else {
        &&& is_next(pending, clock, order[0])
        &&& is_run(pending.remove(order[0]), clock_after(clock, order[0]), order.drop_first())
    }
}

/// The dispatch rule leaves no choice: two runs from the same tasks and the
/// same time are the same, whatever structures produced them.
pub proof fn lemma_run_unique(pending: Multiset<Task>, clock: int, a: Seq<Task>, b: Seq<Task>)
    requires
        is_run(pending, clock, a),
        is_run(pending, clock, b),
    ensures
        a == b,
    decreases a.len(),
{
    if a.len() == 0 {
        if b.len() > 0 {
            assert(pending.count(b[0]) <= pending.len());
        }
        assert(a =~= b);
    } else {
        if b.len() == 0 {
            assert(pending.count(a[0]) <= pending.len());
        }
        lemma_next_unique(pending, clock, a[0], b[0]);
        lemma_run_unique(pending.remove(a[0]), clock_after(clock, a[0]), a.drop_first(), b.drop_first());
        assert(a =~= seq![a[0]] + a.drop_first());
        assert(b =~= seq![b[0]] + b.drop_first());
    }
}

/// The dispatch order of a set of tasks is a run of the dispatch rule, so it
/// is the only one.
pub proof fn lemma_dispatch_is_run(tasks: Seq<Task>, clock: int)
    ensures
        is_run(tasks.to_multiset(), clock, dispatch(tasks.to_multiset(), clock)),
        forall|r: Seq<Task>| #[trigger] is_run(tasks.to_multiset(), clock, r)
            ==> r == dispatch(tasks.to_multiset(), clock),
    decreases tasks.len(),
{
    let m = tasks.to_multiset();
    let d = dispatch(m, clock);
    if tasks.len() == 0 {
        assert(m.len() == 0);
    } else {
        lemma_next_exists(tasks, clock);
        let t = next_task(m, clock);
        lemma_dispatch_step(m, clock, t);
        let rest = lemma_remove_next(tasks, t);
        lemma_dispatch_is_run(rest, clock_after(clock, t));
        assert(d[0] == t);
        assert(d.drop_first() =~= dispatch(m.remove(t), clock_after(clock, t)));
    }
    assert forall|r: Seq<Task>| #[trigger] is_run(m, clock, r) implies r == d by {
        lemma_run_unique(m, clock, r, d);
    }
}

/// When every task arrives at time zero, the tasks run from the shortest to
/// the longest (ties by the rest of `TaskOrder::ByDuration`).
pub proof fn lemma_zero_arrivals_by_duration(tasks: Seq<Task>, clock: int)
    requires
        clock >= 0,
        forall|i: int| 0 <= i < tasks.len() ==> (#[trigger] tasks[i]).queued_at == 0,
    ensures
        forall|i: int, j: int| 0 <= i < j < tasks.len() ==>
            #[trigger] TaskOrder::ByDuration.le(dispatch(tasks.to_multiset(), clock)[i],
                #[trigger] dispatch(tasks.to_multiset(), clock)[j]),
        forall|i: int, j: int| 0 <= i < j < tasks.len() ==>
            (#[trigger] dispatch(tasks.to_multiset(), clock)[i]).execution_duration
                <= (#[trigger] dispatch(tasks.to_multiset(), clock)[j]).execution_duration,
    decreases tasks.len(),
{
    let m = tasks.to_multiset();
    let d = dispatch(m, clock);
    lemma_dispatch_permutes(tasks, clock);
    if tasks.len() > 0 {
        lemma_next_exists(tasks, clock);
        let t = next_task(m, clock);
        lemma_dispatch_step(m, clock, t);
        let rest = lemma_remove_next(tasks, t);
        assert forall|i: int| 0 <= i < rest.len() implies (#[trigger] rest[i]).queued_at == 0 by {
            assert(rest.contains(rest[i]));
            assert(rest.to_multiset().count(rest[i]) > 0);
            assert(m.remove(t).count(rest[i]) > 0);
            assert(m.contains(rest[i]));
            assert(tasks.contains(rest[i]));
        }
        let c2 = clock_after(clock, t);
        lemma_zero_arrivals_by_duration(rest, c2);
        lemma_dispatch_permutes(rest, c2);
        let tail = dispatch(m.remove(t), c2);
        assert(tasks.contains(tasks[0]));
        assert(m.contains(tasks[0]) && is_eligible(tasks[0], clock));
        assert forall|k: int| 0 <= k < tail.len() implies
            TaskOrder::ByDuration.le(t, #[trigger] tail[k]) by {
            assert(tail.contains(tail[k]));
            assert(m.remove(t).contains(tail[k]));
            assert(m.contains(tail[k]));
            assert(tasks.contains(tail[k]));
        }
        assert forall|i: int, j: int| 0 <= i < j < tasks.len() implies
            #[trigger] TaskOrder::ByDuration.le(d[i], #[trigger] d[j]) by {
            if i == 0 {
                assert(d[j] == tail[j - 1]);
            } else {
                assert(d[i] == tail[i - 1] && d[j] == tail[j - 1]);
            }
        }
    }
    assert forall|i: int, j: int| 0 <= i < j < tasks.len() implies
        (#[trigger] d[i]).execution_duration <= (#[trigger] d[j]).execution_duration by {
        assert(TaskOrder::ByDuration.le(d[i], d[j]));
    }
}

} // verus!
