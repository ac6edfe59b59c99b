use vstd::prelude::*;

verus! {

/// A unit of work: its identity, the instant it arrives, and how long it runs.
#[derive(Clone, Copy, Debug, PartialEq, Eq, Structural)]
pub struct Task {
    pub id: u64,
    pub queued_at: u32,
    pub execution_duration: u32,
}

/// Lexicographic `<=` on triples of integers.
pub open spec fn lex_le(a0: int, a1: int, a2: int, b0: int, b1: int, b2: int) -> bool {
    a0 < b0 || (a0 == b0 && (a1 < b1 || (a1 == b1 && a2 <= b2)))
}

/// An ordering policy on tasks. Both orders are total, and two tasks that
/// each come first relative to the other are the same task.
#[derive(Clone, Copy, Debug, PartialEq, Eq, Structural)]
pub enum TaskOrder {
    /// Shortest duration first; ties go to the earlier arrival, then the lower id.
    ByDuration,
    /// Earliest arrival first; ties go to the shorter duration, then the lower id.
    ByArrival,
}

impl TaskOrder {
    /// `a` may come before `b` in this order.
    pub open spec fn le(self, a: Task, b: Task) -> bool {
        match self {
            TaskOrder::ByDuration => lex_le(
                a.execution_duration as int, a.queued_at as int, a.id as int,
                b.execution_duration as int, b.queued_at as int, b.id as int,
            ),
            TaskOrder::ByArrival => lex_le(
                a.queued_at as int, a.execution_duration as int, a.id as int,
                b.queued_at as int, b.execution_duration as int, b.id as int,
            ),
        }
    }

    pub fn precedes(self, a: &Task, b: &Task) -> (r: bool)
        ensures
            r == self.le(*a, *b),
    {
        let (a0, a1, b0, b1) = match self {
            TaskOrder::ByDuration => (a.execution_duration, a.queued_at, b.execution_duration, b.queued_at),
            TaskOrder::ByArrival => (a.queued_at, a.execution_duration, b.queued_at, b.execution_duration),
        };
        a0 < b0 || (a0 == b0 && (a1 < b1 || (a1 == b1 && a.id <= b.id)))
    }
}

/// The order is antisymmetric: it tells every two distinct tasks apart.
pub proof fn lemma_order_antisymmetric(order: TaskOrder, a: Task, b: Task)
    requires
        order.le(a, b),
        order.le(b, a),
    ensures
        a == b,
{
}

} // verus!
