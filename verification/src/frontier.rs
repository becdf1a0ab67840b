//! The frontier of the search: the states that wait to be expanded.
//!
//! The states are kept in a binary heap, laid out in a vector: the entry at
//! index `i` has its parent at index `(i - 1) / 2`, and no entry is to be
//! expanded before its parent. To the outside the frontier is the multiset of
//! the states it holds.

use crate::a_star::{State, StateView};
use std::cmp::Ordering;
use vstd::multiset::Multiset;
use vstd::prelude::*;
use vstd::seq_lib::{
    to_multiset_build,
    to_multiset_contains,
    to_multiset_len,
    to_multiset_remove,
    to_multiset_update,
};

verus! {

/// A priority queue of well-formed states. [`Frontier::pop`] hands out a state
/// that none of the others precedes.
pub struct Frontier {
    heap: Vec<State>,
}

/// The index of the parent of the entry at index `i`.
pub open spec fn parent(i: int) -> int {
    (i - 1) / 2
}

/// The states of a sequence, each as what it stands for.
spec fn views(s: Seq<State>) -> Seq<StateView> {
    s.map_values(|x: State| x@)
}

/// Whether every state of the sequence is well-formed.
spec fn all_wellformed(s: Seq<State>) -> bool {
    forall|i: int| 0 <= i < s.len() ==> (#[trigger] s[i])@.is_wellformed()
}

/// Whether the entry at index `i` is in order with its parent.
spec fn settled(s: Seq<State>, i: int) -> bool {
    !s[i]@.precedes(s[parent(i)]@)
}

/// Whether every entry is in order with its parent, but for the entry at
/// index `skip`, of which nothing is asked.
spec fn ordered_but(s: Seq<State>, skip: int) -> bool {
    forall|i: int| 0 < i < s.len() && i != skip ==> #[trigger] settled(s, i)
}

/// Whether every entry is in order with its parent, but for the children of
/// the entry at index `skip`, of which nothing is asked.
spec fn ordered_below(s: Seq<State>, skip: int) -> bool {
    forall|i: int| 0 < i < s.len() && parent(i) != skip ==> #[trigger] settled(s, i)
}

/// Whether the children of the entry at index `i` are in order with the
/// parent of that entry.
spec fn bridged(s: Seq<State>, i: int) -> bool {
    i > 0 ==> forall|j: int|
        0 < j < s.len() && parent(j) == i ==> !(#[trigger] s[j])@.precedes(s[parent(i)]@)
}

/// The sequence in which the entries at `i` and `j` have changed places.
spec fn exchanged(s: Seq<State>, i: int, j: int) -> Seq<State> {
    s.update(i, s[j]).update(j, s[i])
}

/// Exchanging two entries does not change which states a sequence holds.
proof fn lemma_exchanged(s: Seq<State>, i: int, j: int)
    requires
        0 <= i < s.len(),
        0 <= j < s.len(),
        i != j,
    ensures
        views(exchanged(s, i, j)).to_multiset() == views(s).to_multiset(),
{
    let v = views(s);
    let first = v.update(i, v[j]);
    assert(views(exchanged(s, i, j)) =~= first.update(j, v[i]));
    to_multiset_update(v, i, v[j]);
    to_multiset_update(first, j, v[i]);
    to_multiset_contains(v, v[i]);
    to_multiset_contains(v, v[j]);
    assert(v.contains(v[i]) && v.contains(v[j]));
    assert(v.to_multiset().insert(v[j]).remove(v[i]).insert(v[i]).remove(v[j])
        =~= v.to_multiset());
}

/// In a heap no entry precedes the first.
proof fn lemma_root_first(s: Seq<State>, i: int)
    requires
        ordered_but(s, 0),
        0 <= i < s.len(),
    ensures
        !s[i]@.precedes(s[0]@),
    decreases i,
{
    if i > 0 {
        assert(settled(s, i));
        lemma_root_first(s, parent(i));
    }
}

/// Whether `a` may stand above `b` in the heap: `b` does not precede it.
fn may_stand_above(a: &State, b: &State) -> (yes: bool)
    requires
        a@.is_wellformed(),
        b@.is_wellformed(),
    ensures
        yes == !b@.precedes(a@),
{
    proof {
        a@.lemma_wellformed_is_scored();
        b@.lemma_wellformed_is_scored();
    }
    match a.cmp(b) {
        Ordering::Less => false,
        _ => true,
    }
}

/// Exchanges the entries at two different indices.
fn exchange(heap: &mut Vec<State>, i: usize, j: usize)
    requires
        i < old(heap).len(),
        j < old(heap).len(),
        i != j,
    ensures
        final(heap)@ == exchanged(old(heap)@, i as int, j as int),
{
    let mut carried = State { board: heap[i].board, path: Vec::new(), g: 0, f: 0 };
    core::mem::swap(&mut heap[i], &mut carried);
    core::mem::swap(&mut heap[j], &mut carried);
    core::mem::swap(&mut heap[i], &mut carried);
    assert(heap@ =~= exchanged(old(heap)@, i as int, j as int));
}

/// Moves the entry at `start` up until it is in order with its parent.
fn sift_up(heap: &mut Vec<State>, start: usize)
    requires
        start < old(heap).len(),
        all_wellformed(old(heap)@),
        ordered_but(old(heap)@, start as int),
        bridged(old(heap)@, start as int),
    ensures
        all_wellformed(final(heap)@),
        ordered_but(final(heap)@, 0),
        views(final(heap)@).to_multiset() == views(old(heap)@).to_multiset(),
{
    let mut i = start;
    let mut done = false;
    while i > 0 && !done
        invariant
            i < heap.len(),
            all_wellformed(heap@),
            ordered_but(heap@, i as int),
            bridged(heap@, i as int),
            done ==> settled(heap@, i as int),
            views(heap@).to_multiset() == views(old(heap)@).to_multiset(),
        decreases i, (if done { 0int } else { 1int }),
    {
        let p = (i - 1) / 2;
        if may_stand_above(&heap[p], &heap[i]) {
            done = true;
        } else {
            let ghost before = heap@;
            exchange(heap, i, p);
            proof {
                lemma_exchanged(before, i as int, p as int);
                let after = heap@;
                assert forall|j: int| 0 < j < after.len() && j != p implies #[trigger] settled(
                    after,
                    j,
                ) by {
                    if j == i {
                    } else if parent(j) == i {
                        assert(!before[j]@.precedes(before[parent(i as int)]@));
                    } else if parent(j) == p {
                        assert(settled(before, j));
                    } else {
                        assert(settled(before, j));
                    }
                }
                if p > 0 {
                    assert(settled(before, p as int));
                    assert forall|j: int| 0 < j < after.len() && parent(j) == p implies !(
                    #[trigger] after[j])@.precedes(after[parent(p as int)]@) by {
                        if j != i {
                            assert(settled(before, j));
                        }
                    }
                }
            }
            i = p;
        }
    }
    proof {
        if i > 0 {
            assert(settled(heap@, i as int));
        }
    }
}

/// Moves the entry at `start` down until none of its children precedes it.
fn sift_down(heap: &mut Vec<State>, start: usize)
    requires
        start < old(heap).len(),
        all_wellformed(old(heap)@),
        ordered_below(old(heap)@, start as int),
        bridged(old(heap)@, start as int),
    ensures
        all_wellformed(final(heap)@),
        ordered_but(final(heap)@, 0),
        views(final(heap)@).to_multiset() == views(old(heap)@).to_multiset(),
{
    let mut i = start;
    let mut done = false;
    let n = heap.len();
    while !done
        invariant
            n == heap.len(),
            i < n,
            all_wellformed(heap@),
            ordered_below(heap@, i as int),
            bridged(heap@, i as int),
            done ==> ordered_but(heap@, 0),
            views(heap@).to_multiset() == views(old(heap)@).to_multiset(),
        decreases n - i, (if done { 0int } else { 1int }),
    {
        let left = if i <= (n - 1) / 2 {
            2 * i + 1
        } else {
            n
        };
        if left >= n {
            done = true;
            proof {
                assert forall|j: int| 0 < j < heap@.len() implies #[trigger] settled(heap@, j) by {
                    assert(parent(j) != i);
                }
            }
        } else {
            let right = left + 1;
            let child = if right < n && !may_stand_above(&heap[left], &heap[right]) {
                right
            } else {
                left
            };
            if may_stand_above(&heap[i], &heap[child]) {
                done = true;
                proof {
                    assert forall|j: int| 0 < j < heap@.len() implies #[trigger] settled(
                        heap@,
                        j,
                    ) by {
                        if parent(j) == i {
                            assert(j == left || j == right);
                        }
                    }
                }
            } else {
                let ghost before = heap@;
                exchange(heap, i, child);
                proof {
                    lemma_exchanged(before, i as int, child as int);
                    let after = heap@;
                    assert forall|j: int|
                        0 < j < after.len() && parent(j) != child implies #[trigger] settled(
                        after,
                        j,
                    ) by {
                        if j == child {
                        } else if parent(j) == i {
                            assert(j == left || j == right);
                        } else if j == i {
                            assert(bridged(before, i as int));
                            assert(!before[child as int]@.precedes(before[parent(i as int)]@));
                        } else {
                            assert(settled(before, j));
                        }
                    }
                    assert forall|j: int| 0 < j < after.len() && parent(j) == child implies !(
                    #[trigger] after[j])@.precedes(after[parent(child as int)]@) by {
                        assert(settled(before, j));
                    }
                }
                i = child;
            }
        }
    }
}

impl Frontier {
    /// The states that the frontier holds, each as often as it was put in and
    /// not yet taken out.
    pub closed spec fn view(&self) -> Multiset<StateView> {
        views(self.heap@).to_multiset()
    }

    /// The invariant of the frontier: its states are well-formed and in heap order.
    pub closed spec fn is_wellformed(&self) -> bool {
        &&& all_wellformed(self.heap@)
        &&& ordered_but(self.heap@, 0)
    }

    /// An empty frontier.
    pub fn new() -> (frontier: Frontier)
        ensures
            frontier.is_wellformed(),
            frontier@ == Multiset::<StateView>::empty(),
    {
        let frontier = Frontier { heap: Vec::new() };
        proof {
            to_multiset_len(views(frontier.heap@));
            assert(frontier@ =~= Multiset::<StateView>::empty());
        }
        frontier
    }

    /// The number of states in the frontier.
    pub fn len(&self) -> (n: usize)
        ensures
            n == self@.len(),
    {
        proof {
            to_multiset_len(views(self.heap@));
        }
        self.heap.len()
    }

    /// Whether the frontier holds no state.
    pub fn is_empty(&self) -> (empty: bool)
        ensures
            empty == (self@.len() == 0),
    {
        proof {
            to_multiset_len(views(self.heap@));
        }
        self.heap.len() == 0
    }

    /// Puts a state into the frontier.
    pub fn push(&mut self, state: State)
        requires
            old(self).is_wellformed(),
            state@.is_wellformed(),
        ensures
            final(self).is_wellformed(),
            final(self)@ == old(self)@.insert(state@),
    {
        let ghost before = self.heap@;
        self.heap.push(state);
        proof {
            assert(views(self.heap@) =~= views(before).push(state@));
            to_multiset_build(views(before), state@);
            assert forall|i: int|
                0 < i < self.heap@.len() && i != self.heap@.len() - 1 implies #[trigger] settled(
                self.heap@,
                i,
            ) by {
                assert(settled(before, i));
            }
        }
        let last = self.heap.len() - 1;
        sift_up(&mut self.heap, last);
    }

    /// Takes out a state that no state of the frontier precedes; `None` if
    /// the frontier is empty.
    pub fn pop(&mut self) -> (best: Option<State>)
        requires
            old(self).is_wellformed(),
        ensures
            final(self).is_wellformed(),
            match best {
                Some(state) => {
                    &&& state@.is_wellformed()
                    &&& old(self)@.contains(state@)
                    &&& final(self)@ == old(self)@.remove(state@)
                    &&& forall|t: StateView| old(self)@.contains(t) ==> !t.precedes(state@)
                },
                None => old(self)@.len() == 0 && final(self)@ == old(self)@,
            },
    {
        proof {
            to_multiset_len(views(self.heap@));
        }
        if self.heap.len() == 0 {
            return None;
        }
        let ghost before = self.heap@;
        let best = self.heap.swap_remove(0);
        proof {
            let v = views(before);
            let moved = v.update(0, v.last());
            assert(views(self.heap@) =~= moved.remove(moved.len() - 1));
            to_multiset_update(v, 0, v.last());
            to_multiset_remove(moved, moved.len() - 1);
            to_multiset_contains(v, v[0]);
            to_multiset_contains(v, v.last());
            assert(v.contains(v[0]) && v.contains(v.last()));
            assert(v[0] == best@);
            assert(v.to_multiset().insert(v.last()).remove(v[0]).remove(moved.last())
                =~= v.to_multiset().remove(best@));
            assert forall|t: StateView| v.to_multiset().contains(t) implies !t.precedes(best@) by {
                to_multiset_contains(v, t);
                let i = choose|i: int| 0 <= i < v.len() && v[i] == t;
                lemma_root_first(before, i);
            }
            assert forall|i: int| 0 < i < self.heap@.len() && parent(i) != 0 implies
                #[trigger] settled(self.heap@, i) by {
                assert(settled(before, i));
            }
        }
        if self.heap.len() > 0 {
            sift_down(&mut self.heap, 0);
        }
        Some(best)
    }
}

} // verus!
