use vstd::prelude::*;
use crate::task::{Task, TaskOrder};

verus! {

broadcast use vstd::seq_lib::group_to_multiset_ensures;

/// `s` runs from the last task in `order` down to the first, so the first
/// task in `order` sits at the end, where it is cheap to take.
pub open spec fn descending(s: Seq<Task>, order: TaskOrder) -> bool {
    forall|i: int, j: int| 0 <= i < j < s.len() ==> #[trigger] order.le(s[j], s[i])
}

/// Inserting into a sequence adds one copy of the task to its contents.
pub proof fn lemma_insert_contents(s: Seq<Task>, i: int, t: Task)
    requires
        0 <= i <= s.len(),
    ensures
        s.insert(i, t).to_multiset() == s.to_multiset().insert(t),
{
    let s2 = s.insert(i, t);
    assert(s2.remove(i) =~= s);
    assert(s2.to_multiset().count(t) > 0) by {
        assert(s2[i] == t);
        assert(s2.contains(t));
    }
    assert(s2.to_multiset() =~= s.to_multiset().insert(t));
}

/// Taking the last task off a sequence takes one copy of it from its contents.
pub proof fn lemma_drop_last_contents(s: Seq<Task>)
    requires
        s.len() > 0,
    ensures
        s.drop_last().to_multiset() == s.to_multiset().remove(s.last()),
        s.to_multiset() == s.drop_last().to_multiset().insert(s.last()),
{
    assert(s.drop_last() =~= s.remove(s.len() - 1));
    assert(s.drop_last().push(s.last()) =~= s);
}

} // verus!
