//! The frontier of a shortest-path search: a binary min-heap of states
//! ordered by cost.

use crate::grid::Point;
use vstd::multiset::{lemma_multiset_empty_len, Multiset};
use vstd::prelude::*;
use vstd::seq_lib::{to_multiset_build, to_multiset_contains, to_multiset_len, to_multiset_update};

verus! {

/// A node together with the cost at which the search found it.
#[derive(Copy, Clone, Debug, PartialEq, Eq, Structural)]
pub struct State {
    pub cost: usize,
    pub node: Point,
}

/// A min-oriented priority queue of states, keyed by cost. Equal states may
/// be held more than once.
pub struct Frontier {
    items: Vec<State>,
}

/// The position above `i` in the heap.
pub open spec fn parent(i: int) -> int {
    (i - 1) / 2
}

/// The state at `j` costs no less than the one above it.
pub open spec fn le_parent(s: Seq<State>, j: int) -> bool {
    s[parent(j)].cost <= s[j].cost
}

/// Every state but the first costs no less than the one above it.
pub open spec fn heap_ordered(s: Seq<State>) -> bool {
    forall|j: int| 0 < j < s.len() ==> #[trigger] le_parent(s, j)
}

/// `s` is heap ordered but for the state at `hole`, which may cost less than
/// the one above it; the states below `hole` cost no less than the one above it.
pub open spec fn ordered_but_up(s: Seq<State>, hole: int) -> bool {
    &&& forall|j: int| 0 < j < s.len() && j != hole ==> #[trigger] le_parent(s, j)
    &&& forall|j: int|
        0 < j < s.len() && parent(j) == hole && hole > 0 ==> s[parent(hole)].cost <= (
        #[trigger] s[j]).cost
}

/// `s` is heap ordered but for the state at `hole`, which may cost more than
/// those below it; the states below `hole` cost no less than the one above it.
pub open spec fn ordered_but_down(s: Seq<State>, hole: int) -> bool {
    &&& forall|j: int| 0 < j < s.len() && parent(j) != hole ==> #[trigger] le_parent(s, j)
    &&& forall|j: int|
        0 < j < s.len() && parent(j) == hole && hole > 0 ==> s[parent(hole)].cost <= (
        #[trigger] s[j]).cost
}

/// In a heap-ordered sequence no state costs less than the first.
pub proof fn lemma_first_is_least(s: Seq<State>, i: int)
    requires
        heap_ordered(s),
        0 <= i < s.len(),
    ensures
        s[0].cost <= s[i].cost,
    decreases i,
{
    if i > 0 {
        assert(le_parent(s, i));
        lemma_first_is_least(s, parent(i));
    }
}

/// Exchanges the states at `i` and `j`.
fn swap(items: &mut Vec<State>, i: usize, j: usize)
    requires
        i < old(items).len(),
        j < old(items).len(),
    ensures
        final(items)@ == old(items)@.update(i as int, old(items)@[j as int]).update(
            j as int,
            old(items)@[i as int],
        ),
        final(items)@.to_multiset() == old(items)@.to_multiset(),
{
    let a = items[i];
    let b = items[j];
    items[i] = b;
    items[j] = a;
    proof {
        let s0 = old(items)@;
        let s1 = s0.update(i as int, s0[j as int]);
        to_multiset_update(s0, i as int, s0[j as int]);
        to_multiset_update(s1, j as int, s0[i as int]);
        to_multiset_contains(s0, s0[i as int]);
        to_multiset_contains(s0, s0[j as int]);
        assert(s0.contains(s0[i as int]));
        assert(s0.contains(s0[j as int]));
        assert(s1.update(j as int, s0[i as int]).to_multiset() =~= s0.to_multiset());
    }
}

impl View for Frontier {
    type V = Multiset<State>;

    /// The states held, each with the number of times it is held.
    closed spec fn view(&self) -> Multiset<State> {
        self.items@.to_multiset()
    }
}

impl Frontier {
    /// The states are laid out as a heap.
    pub closed spec fn wf(&self) -> bool {
        heap_ordered(self.items@)
    }

    /// An empty frontier.
    pub fn new() -> (f: Self)
        ensures
            f.wf(),
            f@ == Multiset::<State>::empty(),
    {
        let f = Frontier { items: Vec::new() };
        proof {
            to_multiset_len(f.items@);
            lemma_multiset_empty_len(f.items@.to_multiset());
        }
        f
    }

    /// The number of states held, counting repetitions.
    pub fn len(&self) -> (n: usize)
        ensures
            n == self@.len(),
    {
        proof {
            to_multiset_len(self.items@);
        }
        self.items.len()
    }

    /// Adds `state` to the frontier.
    pub fn push(&mut self, state: State)
        requires
            old(self).wf(),
        ensures
            final(self).wf(),
            final(self)@ == old(self)@.insert(state),
    {
        self.items.push(state);
        proof {
            to_multiset_build(old(self).items@, state);
            assert forall|j: int|
                0 < j < self.items@.len() && j != self.items@.len() - 1 implies #[trigger] le_parent(
                self.items@,
                j,
            ) by {
                assert(le_parent(old(self).items@, j));
            }
        }
        let mut i: usize = self.items.len() - 1;
        while i > 0 && self.items[i].cost < self.items[(i - 1) / 2].cost
            invariant
                i < self.items.len(),
                ordered_but_up(self.items@, i as int),
                self.items@.to_multiset() == old(self)@.insert(state),
            decreases i,
        {
            let up: usize = (i - 1) / 2;
            {
                let ghost before = self.items@;
                swap(&mut self.items, i, up);
                proof {
                    let after = self.items@;
                    assert forall|j: int| 0 < j < after.len() && j != up implies #[trigger] le_parent(
                        after,
                        j,
                    ) by {
                        if j == i {
                        } else if parent(j) == i {
                            assert(before[parent(i as int)].cost <= before[j].cost);
                        } else if parent(j) == up {
                            assert(le_parent(before, j));
                        } else {
                            assert(le_parent(before, j));
                        }
                    }
                    assert forall|j: int|
                        0 < j < after.len() && parent(j) == up && up > 0 implies after[parent(
                        up as int,
                    )].cost <= (#[trigger] after[j]).cost by {
                        assert(le_parent(before, up as int));
                        if j != i {
                            assert(le_parent(before, j));
                        }
                    }
                }
                i = up;
            }
        }
    }

    /// Takes a state of least cost out of the frontier; `None` where it is empty.
    pub fn pop(&mut self) -> (r: Option<State>)
        requires
            old(self).wf(),
        ensures
            final(self).wf(),
            match r {
                Some(least) => {
                    &&& old(self)@.count(least) > 0
                    &&& final(self)@ == old(self)@.remove(least)
                    &&& forall|other: State| #[trigger]
                        old(self)@.count(other) > 0 ==> least.cost <= other.cost
                },
                None => old(self)@.len() == 0 && final(self)@ == old(self)@,
            },
    {
        let n = self.items.len();
        proof {
            to_multiset_len(self.items@);
        }
        if n == 0 {
            return None;
        }
        let least = self.items[0];
        let ghost s0 = self.items@;
        proof {
            to_multiset_contains(s0, least);
            assert(s0.contains(least));
            assert forall|other: State| #[trigger] s0.to_multiset().count(other) > 0 implies least.cost
                <= other.cost by {
                to_multiset_contains(s0, other);
                let k = choose|k: int| 0 <= k < s0.len() && s0[k] == other;
                lemma_first_is_least(s0, k);
            }
        }
        swap(&mut self.items, 0, n - 1);
        let ghost s1 = self.items@;
        let taken = self.items.pop();
        proof {
            assert(self.items@ =~= s1.drop_last());
            assert(s1 =~= self.items@.push(least));
            to_multiset_build(self.items@, least);
            assert(self.items@.to_multiset() =~= s0.to_multiset().remove(least));
            assert forall|j: int| 0 < j < self.items@.len() && parent(j) != 0 implies #[trigger] le_parent(
                self.items@,
                j,
            ) by {
                assert(le_parent(s0, j));
            }
        }
        let m = self.items.len();
        let mut i: usize = 0;
        let mut sinking = true;
        while sinking && i < m / 2
            invariant
                m == self.items.len(),
                i <= m,
                sinking ==> ordered_but_down(self.items@, i as int),
                !sinking ==> heap_ordered(self.items@),
                self.items@.to_multiset() == s0.to_multiset().remove(least),
            decreases m - i, (if sinking { 1int } else { 0int }),
        {
            let left: usize = 2 * i + 1;
            let right: usize = 2 * i + 2;
            let child: usize = if right < m && self.items[right].cost < self.items[left].cost {
                right
            } else {
                left
            };
            if self.items[child].cost < self.items[i].cost {
                let ghost before = self.items@;
                swap(&mut self.items, i, child);
                proof {
                    let after = self.items@;
                    assert forall|j: int|
                        0 < j < after.len() && parent(j) != child implies #[trigger] le_parent(
                        after,
                        j,
                    ) by {
                        if j == child {
                        } else if parent(j) == i {
                            assert(j == left || j == right);
                        } else if j == i {
                            assert(before[parent(i as int)].cost <= before[child as int].cost);
                        } else {
                            assert(le_parent(before, j));
                        }
                    }
                    assert forall|j: int|
                        0 < j < after.len() && parent(j) == child && child > 0 implies after[parent(
                        child as int,
                    )].cost <= (#[trigger] after[j]).cost by {
                        assert(le_parent(before, j));
                    }
                }
                i = child;
            } else {
                proof {
                    let s = self.items@;
                    assert forall|j: int| 0 < j < s.len() implies #[trigger] le_parent(s, j) by {
                        if parent(j) == i {
                            assert(j == left || j == right);
                        }
                    }
                }
                sinking = false;
            }
        }
        proof {
            let s = self.items@;
            assert forall|j: int| 0 < j < s.len() implies #[trigger] le_parent(s, j) by {
                if sinking && parent(j) == i {
                    assert(j >= 2 * i + 1);
                }
            }
        }
        Some(least)
    }
}

} // verus!
