//! Dispatch order of tasks on a single non-preemptive server under
//! shortest-processing-time-next, with tasks admitted at their arrival time.

pub mod task;
pub mod schedule;
pub mod sorted;
pub mod heap;
pub mod naive;
pub mod clever;
pub mod theorems;

pub use task::{Task, TaskOrder};
pub use schedule::Scheduler;
pub use naive::{NaiveScheduler, get_shortest_task_ind};
pub use clever::CleverScheduler;

use vstd::prelude::*;
use schedule::dispatch_ids;

verus! {

/// The identifiers of `tasks` in the order a single server runs them, taking
/// the shortest arrived task each time and idling until the next arrival when
/// none has arrived.
pub fn compute_execution_order(tasks: &[Task]) -> (r: Vec<u64>)
    ensures
        r@ == dispatch_ids(tasks@.to_multiset(), 0),
{
    let mut scheduler = CleverScheduler::new(tasks);
    scheduler.execution_order()
}

} // verus!
