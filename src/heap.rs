use vstd::prelude::*;
use vstd::multiset::Multiset;
use crate::task::{Task, TaskOrder};
use crate::sorted::{lemma_drop_last_contents, lemma_insert_contents};

verus! {

broadcast use vstd::seq_lib::group_to_multiset_ensures;

pub open spec fn parent(i: int) -> int {
    (i - 1) / 2
}

/// Each task of `s` but the first comes no earlier in `order` than its parent.
pub open spec fn heap_ordered(s: Seq<Task>, order: TaskOrder) -> bool {
    forall|i: int| 0 < i < s.len() ==> order.le(s[parent(i)], #[trigger] s[i])
}

/// Replacing one task of a sequence replaces one copy in its contents.
proof fn lemma_update_contents(s: Seq<Task>, i: int, t: Task)
    requires
        0 <= i < s.len(),
    ensures
        s.update(i, t).to_multiset() == s.to_multiset().remove(s[i]).insert(t),
{
    assert(s.update(i, t) =~= s.remove(i).insert(i, t));
    lemma_insert_contents(s.remove(i), i, t);
}

/// Exchanges two tasks of `v`, which keeps its contents.
fn swap_items(v: &mut Vec<Task>, i: usize, j: usize)
    requires
        i < old(v)@.len(),
        j < old(v)@.len(),
    ensures
        final(v)@ == old(v)@.update(i as int, old(v)@[j as int]).update(j as int, old(v)@[i as int]),
        final(v)@.to_multiset() == old(v)@.to_multiset(),
{
    let a = v[i];
    let b = v[j];
    v[i] = b;
    v[j] = a;
    proof {
        let s = old(v)@;
        let s1 = s.update(i as int, b);
        lemma_update_contents(s, i as int, b);
        lemma_update_contents(s1, j as int, a);
        assert(s.contains(a));
        assert(v@.to_multiset() =~= s.to_multiset());
    }
}

/// The root of a heap comes first in its order.
proof fn lemma_root_first(s: Seq<Task>, order: TaskOrder, i: int)
    requires
        heap_ordered(s, order),
        0 <= i < s.len(),
    ensures
        order.le(s[0], s[i]),
    decreases i,
{
    if i > 0 {
        lemma_root_first(s, order, parent(i));
        assert(order.le(s[parent(i)], s[i]));
    }
}

/// A binary heap of tasks: the first task in its order is always at the root.
pub struct TaskHeap {
    order: TaskOrder,
    items: Vec<Task>,
}

impl TaskHeap {
    /// The tasks held.
    pub closed spec fn contents(&self) -> Multiset<Task> {
        self.items@.to_multiset()
    }

    pub closed spec fn order(&self) -> TaskOrder {
        self.order
    }

    pub closed spec fn well_formed(&self) -> bool {
        heap_ordered(self.items@, self.order)
    }

    pub fn new(order: TaskOrder) -> (h: TaskHeap)
        ensures
            h.well_formed(),
            h.order() == order,
            h.contents() == Multiset::<Task>::empty(),
    {
        let h = TaskHeap { order, items: Vec::new() };
        proof {
            assert(h.items@.to_multiset().len() == 0);
            vstd::multiset::lemma_multiset_empty_len(h.items@.to_multiset());
        }
        h
    }

    pub fn len(&self) -> (n: usize)
        ensures
            n == self.contents().len(),
    {
        self.items.len()
    }

    /// Adds `t`, moving it up past every ancestor that comes after it.
    pub fn push(&mut self, t: Task)
        requires
            old(self).well_formed(),
        ensures
            final(self).well_formed(),
            final(self).order() == old(self).order(),
            final(self).contents() == old(self).contents().insert(t),
    {
        let order = self.order;
        self.items.push(t);
        let ghost start = self.items@;
        let mut i: usize = self.items.len() - 1;
        while i > 0
            invariant
                order == self.order,
                i < self.items@.len(),
                self.items@.len() == start.len(),
                self.items@.to_multiset() == start.to_multiset(),
                forall|j: int| 0 < j < self.items@.len() && j != i ==>
                    order.le(self.items@[parent(j)], #[trigger] self.items@[j]),
                i > 0 ==> forall|j: int| 0 < j < self.items@.len() && parent(j) == i ==>
                    order.le(self.items@[parent(i as int)], #[trigger] self.items@[j]),
            ensures
                self.items@.len() == start.len(),
                self.items@.to_multiset() == start.to_multiset(),
                heap_ordered(self.items@, order),
            decreases i,
        {
            let p = (i - 1) / 2;
            if order.precedes(&self.items[p], &self.items[i]) {
                break;
            }
            let ghost s = self.items@;
            swap_items(&mut self.items, p, i);
            proof {
                let s2 = self.items@;
                assert forall|j: int| 0 < j < s2.len() && j != p implies
                    order.le(s2[parent(j)], #[trigger] s2[j]) by {
                    if j == i {
                        assert(order.le(s[i as int], s[p as int]));
                    } else if parent(j) == i {
                        assert(order.le(s[p as int], s[j]));
                    } else if parent(j) == p {
                        assert(order.le(s[p as int], s[j]));
                        assert(order.le(s[i as int], s[p as int]));
                    } else if p > 0 && j == p {
                    } else {
                        assert(s2[j] == s[j]);
                    }
                }
                if p > 0 {
                    assert forall|j: int| 0 < j < s2.len() && parent(j) == p implies
                        order.le(s2[parent(p as int)], #[trigger] s2[j]) by {
                        assert(order.le(s[parent(p as int)], s[p as int]));
                        if j != i {
                            assert(order.le(s[p as int], s[j]));
                        }
                    }
                }
            }
            i = p;
        }
        proof {
            lemma_insert_contents(old(self).items@, old(self).items@.len() as int, t);
            assert(old(self).items@.insert(old(self).items@.len() as int, t) =~= start);
        }
    }

    /// Takes out the root, the first task in the heap's order; `None` when empty.
    pub fn pop(&mut self) -> (r: Option<Task>)
        requires
            old(self).well_formed(),
        ensures
            final(self).well_formed(),
            final(self).order() == old(self).order(),
            match r {
                None => old(self).contents().len() == 0 && final(self).contents().len() == 0,
                Some(t) => {
                    &&& old(self).contents().contains(t)
                    &&& forall|u: Task| old(self).contents().contains(u) ==> #[trigger] old(self).order().le(t, u)
                    &&& final(self).contents() == old(self).contents().remove(t)
                },
            },
    {
        let order = self.order;
        let ghost s0 = self.items@;
        proof {
            assert forall|u: Task| s0.to_multiset().contains(u) implies #[trigger] order.le(s0[0], u) by {
                assert(s0.contains(u));
                let k = choose|k: int| 0 <= k < s0.len() && s0[k] == u;
                lemma_root_first(s0, order, k);
            }
        }
        let last = match self.items.pop() {
            None => {
                return None;
            },
            Some(last) => last,
        };
        proof {
            lemma_drop_last_contents(s0);
        }
        if self.items.len() == 0 {
            proof {
                assert(s0.contains(last));
            }
            return Some(last);
        }
        let top = self.items[0];
        self.items[0] = last;
        proof {
            lemma_update_contents(s0.drop_last(), 0, last);
            assert(s0.contains(top));
            assert(self.items@.to_multiset() =~= s0.to_multiset().remove(top));
        }
        let ghost start = self.items@;
        let mut i: usize = 0;
        let n = self.items.len();
        while i < n / 2
            invariant
                order == self.order,
                n == self.items@.len(),
                n <= s0.len(),
                i < n,
                self.items@.to_multiset() == start.to_multiset(),
                forall|j: int| 0 < j < n && parent(j) != i ==>
                    order.le(self.items@[parent(j)], #[trigger] self.items@[j]),
                i > 0 ==> forall|j: int| 0 < j < n && parent(j) == i ==>
                    order.le(self.items@[parent(i as int)], #[trigger] self.items@[j]),
            ensures
                n == self.items@.len(),
                self.items@.to_multiset() == start.to_multiset(),
                heap_ordered(self.items@, order),
            decreases n - i,
        {
            let l = 2 * i + 1;
            let r = l + 1;
            let m = if r < n && !order.precedes(&self.items[l], &self.items[r]) { r } else { l };
            if order.precedes(&self.items[i], &self.items[m]) {
                proof {
                    let s = self.items@;
                    assert forall|j: int| 0 < j < n implies order.le(s[parent(j)], #[trigger] s[j]) by {
                        if parent(j) == i {
                            assert(j == l || j == r);
                            if j != m {
                                assert(order.le(s[m as int], s[j]));
                            }
                        }
                    }
                }
                break;
            }
            let ghost s = self.items@;
            swap_items(&mut self.items, i, m);
            proof {
                let s2 = self.items@;
                assert(order.le(s[m as int], s[i as int]));
                assert forall|j: int| 0 < j < n && parent(j) != m implies
                    order.le(s2[parent(j)], #[trigger] s2[j]) by {
                    if j == m {
                    } else if parent(j) == i {
                        assert(j == l || j == r);
                        assert(order.le(s[m as int], s[j]));
                    } else if j == i {
                        assert(order.le(s[parent(i as int)], s[m as int]));
                    } else {
                        assert(s2[j] == s[j]);
                    }
                }
                assert forall|j: int| 0 < j < n && parent(j) == m implies
                    order.le(s2[parent(m as int)], #[trigger] s2[j]) by {
                    assert(order.le(s[m as int], s[j]));
                }
            }
            i = m;
        }
        Some(top)
    }
}

} // verus!
