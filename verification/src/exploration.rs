//! What holds of a search while it runs.
//!
//! An [`Exploration`] is the mathematical picture of a search under way:
//! the boards expanded so far, the states that wait in the frontier, and for
//! each expanded board the path with which it was expanded. Its invariant says
//! that these paths are shortest paths and that the frontier fences the
//! expanded boards in. The lemmas of this module carry the invariant across
//! each step of the search and draw from it what the search returns.

use crate::a_star::{goal, lemma_goal_wellformed, StateView};
use crate::board::{Board, KEY_LIMIT};
use crate::path::{
    connects,
    is_path,
    lemma_path_distance,
    lemma_path_prefix,
    lemma_path_suffix,
    lemma_path_wellformed,
};
use vstd::multiset::Multiset;
use vstd::prelude::*;

verus! {

/// A search under way.
pub struct Exploration {
    /// The board at which the search began.
    pub start: Board,
    /// The keys of the boards expanded so far.
    pub visited: Set<u64>,
    /// The states that wait to be expanded.
    pub frontier: Multiset<StateView>,
    /// For each expanded board, the path with which it was expanded.
    pub routes: Map<Board, Seq<Board>>,
}

impl Exploration {
    /// Whether the board has been expanded.
    pub open spec fn expanded(self, b: Board) -> bool {
        b.is_wellformed() && self.visited.contains(b.spec_key() as u64)
    }

    /// Whether a state with the board `b` and with a cost of at most `g`
    /// waits in the frontier.
    pub open spec fn waits(self, b: Board, g: int) -> bool {
        exists|t: StateView| #[trigger] self.frontier.contains(t) && t.board == b && t.g <= g
    }

    /// Whether the move from the expanded board `b` to `s` is accounted for:
    /// `s` is expanded too, or waits with the cost of the way over `b`.
    pub open spec fn fenced(self, b: Board, s: Board) -> bool {
        self.expanded(s) || self.waits(s, self.routes[b].len() as int)
    }

    /// Whether the states that wait are well-formed, begin at the start, and
    /// cost no more than the number of boards expanded.
    pub open spec fn frontier_sound(self) -> bool {
        forall|t: StateView| #[trigger]
            self.frontier.contains(t) ==> t.is_wellformed() && t.path[0] == self.start && t.g
                <= self.visited.len()
    }

    /// Whether each expanded board has a route, from the start to it, and no
    /// path from the start to it is shorter.
    pub open spec fn routes_shortest(self) -> bool {
        &&& forall|b: Board| #[trigger]
            self.expanded(b) ==> self.routes.dom().contains(b) && connects(
                self.routes[b],
                self.start,
                b,
            )
        &&& forall|b: Board, p: Seq<Board>|
            self.expanded(b) && #[trigger] connects(p, self.start, b) ==> self.routes[b].len()
                <= p.len()
    }

    /// All of the invariant but the fence.
    pub open spec fn sound(self) -> bool {
        &&& self.start.is_wellformed()
        &&& self.visited.finite()
        &&& forall|k: u64| #[trigger] self.visited.contains(k) ==> k < KEY_LIMIT
        &&& self.frontier_sound()
        &&& self.routes_shortest()
        &&& !self.expanded(self.start) ==> self.waits(self.start, 0)
        &&& !self.expanded(goal())
    }

    /// The invariant of the search between two steps.
    pub open spec fn consistent(self) -> bool {
        &&& self.sound()
        &&& forall|b: Board, s: Board|
            self.expanded(b) && #[trigger] b.is_move(s) ==> self.fenced(b, s)
    }

    /// The invariant while the board `n` is being expanded and the first
    /// `covered` of its successors `next` have been put into the frontier.
    pub open spec fn expanding(self, n: Board, next: Seq<Board>, covered: int) -> bool {
        &&& self.sound()
        &&& self.expanded(n)
        &&& forall|b: Board, s: Board|
            self.expanded(b) && b != n && #[trigger] b.is_move(s) ==> self.fenced(b, s)
        &&& forall|j: int| 0 <= j < covered ==> self.fenced(n, #[trigger] next[j])
    }

    /// The exploration after the state `t` has been taken out of the frontier.
    pub open spec fn without_state(self, t: StateView) -> Exploration {
        Exploration { frontier: self.frontier.remove(t), ..self }
    }

    /// The exploration after the state `t` has been put into the frontier.
    pub open spec fn with_state(self, t: StateView) -> Exploration {
        Exploration { frontier: self.frontier.insert(t), ..self }
    }

    /// The exploration after the state `t` has been taken out of the frontier
    /// and its board marked as expanded.
    pub open spec fn expand(self, t: StateView) -> Exploration {
        Exploration {
            start: self.start,
            visited: self.visited.insert(t.board.spec_key() as u64),
            frontier: self.frontier.remove(t),
            routes: self.routes.insert(t.board, t.path),
        }
    }

    /// The exploration at the beginning of a search: nothing is expanded, and
    /// the frontier holds the state `first` alone.
    pub open spec fn begin(start: Board, first: StateView) -> Exploration {
        Exploration {
            start,
            visited: Set::empty(),
            frontier: Multiset::empty().insert(first),
            routes: Map::empty(),
        }
    }

    /// The invariant holds at the beginning.
    pub proof fn lemma_begin(start: Board, first: StateView)
        requires
            start.is_wellformed(),
            first.is_wellformed(),
            first.path == seq![start],
        ensures
            Self::begin(start, first).consistent(),
    {
        let e = Self::begin(start, first);
        assert(e.frontier.contains(first));
        assert(e.waits(start, 0));
    }

    /// On every path from the start to a board that is not expanded, some
    /// board waits in the frontier, at a cost that is no more than the number
    /// of moves that the path takes to it.
    pub proof fn lemma_reach(self, p: Seq<Board>, n: int) -> (i: int)
        requires
            self.consistent(),
            is_path(p),
            p[0] == self.start,
            0 <= n < p.len(),
            !self.expanded(p[n]),
        ensures
            0 <= i <= n,
            self.waits(p[i], i),
        decreases n,
    {
        if n == 0 {
            0
        } else if !self.expanded(p[n - 1]) {
            self.lemma_reach(p, n - 1)
        } else {
            let b = p[n - 1];
            assert(b.is_move(p[n]));
            assert(self.fenced(b, p[n]));
            lemma_path_wellformed(p, n);
            lemma_path_prefix(p, n);
            assert(connects(p.take(n), self.start, b));
            let t = choose|t: StateView| #[trigger]
                self.frontier.contains(t) && t.board == p[n] && t.g <= self.routes[b].len();
            assert(self.frontier.contains(t) && t.board == p[n] && t.g <= n);
            n
        }
    }

    /// A state that none in the frontier precedes, and whose board is not
    /// expanded, has a path that no path from the start to its board is
    /// shorter than.
    pub proof fn lemma_first_is_shortest(self, t: StateView, p: Seq<Board>)
        requires
            self.consistent(),
            self.frontier.contains(t),
            forall|u: StateView| self.frontier.contains(u) ==> !u.precedes(t),
            !self.expanded(t.board),
            connects(p, self.start, t.board),
        ensures
            t.path.len() <= p.len(),
    {
        let i = self.lemma_reach(p, p.len() - 1);
        let u = choose|u: StateView| #[trigger]
            self.frontier.contains(u) && u.board == p[i] && u.g <= i;
        assert(!u.precedes(t));
        lemma_goal_wellformed();
        lemma_path_suffix(p, i);
        lemma_path_distance(p.skip(i), goal());
        assert(p.skip(i).first() == p[i]);
        assert(p.skip(i).last() == t.board);
    }

    /// Taking a state out whose board is expanded already keeps the invariant.
    pub proof fn lemma_without_stale(self, t: StateView)
        requires
            self.consistent(),
            self.frontier.contains(t),
            self.expanded(t.board),
        ensures
            self.without_state(t).consistent(),
            self.without_state(t).frontier.len() < self.frontier.len(),
    {
        broadcast use vstd::multiset::group_multiset_axioms;

        let e = self.without_state(t);
        assert forall|b: Board| #[trigger] e.expanded(b) implies self.expanded(b) by {}
        assert forall|u: StateView| #[trigger] e.frontier.contains(u) implies
            self.frontier.contains(u) by {}
        assert forall|b: Board, g: int| self.waits(b, g) && !self.expanded(b) implies e.waits(
            b,
            g,
        ) by {
            let u = choose|u: StateView| #[trigger]
                self.frontier.contains(u) && u.board == b && u.g <= g;
            assert(e.frontier.contains(u));
        }
        assert forall|b: Board, s: Board| e.expanded(b) && #[trigger] b.is_move(s) implies e.fenced(
            b,
            s,
        ) by {
            assert(self.fenced(b, s));
        }
    }

    /// Expanding a state that none in the frontier precedes, and whose board
    /// is neither expanded nor the goal, keeps all of the invariant but the
    /// fence around that board.
    pub proof fn lemma_expand(self, t: StateView)
        requires
            self.consistent(),
            self.frontier.contains(t),
            forall|u: StateView| self.frontier.contains(u) ==> !u.precedes(t),
            !self.expanded(t.board),
            t.board != goal(),
        ensures
            self.expand(t).expanding(t.board, t.board.successors(), 0),
            self.expand(t).visited.len() == self.visited.len() + 1,
            self.expand(t).visited.len() <= KEY_LIMIT,
    {
        broadcast use vstd::multiset::group_multiset_axioms;

        let e = self.expand(t);
        let n = t.board;
        assert forall|u: StateView| #[trigger] e.frontier.contains(u) implies
            self.frontier.contains(u) by {}
        lemma_path_wellformed(t.path, t.path.len() - 1);
        n.lemma_key_bound();
        assert forall|b: Board| e.expanded(b) <==> (self.expanded(b) || b == n) by {
            if b.is_wellformed() {
                b.lemma_key_bound();
                if b.spec_key() == n.spec_key() {
                    b.lemma_key_injective(n);
                }
            }
        }
        assert forall|b: Board, g: int| self.waits(b, g) && b != n implies e.waits(b, g) by {
            let u = choose|u: StateView| #[trigger]
                self.frontier.contains(u) && u.board == b && u.g <= g;
            assert(e.frontier.contains(u));
        }
        assert forall|b: Board, p: Seq<Board>|
            e.expanded(b) && #[trigger] connects(p, e.start, b) implies e.routes[b].len()
            <= p.len() by {
            if b == n {
                self.lemma_first_is_shortest(t, p);
            }
        }
        assert forall|b: Board, s: Board|
            e.expanded(b) && b != n && #[trigger] b.is_move(s) implies e.fenced(b, s) by {
            assert(self.fenced(b, s));
        }
        lemma_bounded_set(e.visited, KEY_LIMIT);
    }

    /// Putting the next successor of the board that is being expanded into
    /// the frontier covers that successor.
    pub proof fn lemma_cover(self, n: Board, next: Seq<Board>, covered: int, t: StateView)
        requires
            self.expanding(n, next, covered),
            0 <= covered < next.len(),
            t.is_wellformed(),
            t.board == next[covered],
            t.path == self.routes[n].push(next[covered]),
            t.g <= self.visited.len(),
        ensures
            self.with_state(t).expanding(n, next, covered + 1),
    {
        broadcast use vstd::multiset::group_multiset_axioms;

        let e = self.with_state(t);
        assert forall|b: Board| #[trigger] e.expanded(b) implies self.expanded(b) by {}
        assert forall|u: StateView| #[trigger] e.frontier.contains(u) implies u == t
            || self.frontier.contains(u) by {}
        assert(connects(self.routes[n], self.start, n));
        assert(t.path[0] == self.start);
        assert forall|b: Board, g: int| self.waits(b, g) implies e.waits(b, g) by {
            let u = choose|u: StateView| #[trigger]
                self.frontier.contains(u) && u.board == b && u.g <= g;
            assert(e.frontier.contains(u));
        }
        assert forall|b: Board, s: Board|
            e.expanded(b) && b != n && #[trigger] b.is_move(s) implies e.fenced(b, s) by {
            assert(self.fenced(b, s));
        }
        assert forall|j: int| 0 <= j < covered + 1 implies e.fenced(n, #[trigger] next[j]) by {
            if j < covered {
                assert(self.fenced(n, next[j]));
            } else {
                assert(e.frontier.contains(t));
                assert(e.waits(next[j], e.routes[n].len() as int));
            }
        }
    }

    /// Once all successors of the board that is being expanded are covered,
    /// the invariant holds again.
    pub proof fn lemma_covered(self, n: Board)
        requires
            n.is_wellformed(),
            self.expanding(n, n.successors(), n.successors().len() as int),
        ensures
            self.consistent(),
    {
        assert forall|b: Board, s: Board| self.expanded(b) && #[trigger] b.is_move(s) implies
            self.fenced(b, s) by {
            if b == n {
                let j = n.lemma_move_is_successor(s);
                assert(self.fenced(n, n.successors()[j]));
            }
        }
    }

    /// Where the frontier is empty, no path leads from the start to the goal.
    pub proof fn lemma_exhausted(self, p: Seq<Board>)
        requires
            self.consistent(),
            self.frontier.len() == 0,
        ensures
            !connects(p, self.start, goal()),
    {
        if connects(p, self.start, goal()) {
            let i = self.lemma_reach(p, p.len() - 1);
            let u = choose|u: StateView| #[trigger]
                self.frontier.contains(u) && u.board == p[i] && u.g <= i;
            assert(self.frontier.count(u) > 0);
        }
    }
}

/// A finite set of numbers below `n` has at most `n` elements.
pub proof fn lemma_bounded_set(s: Set<u64>, n: u64)
    requires
        s.finite(),
        forall|k: u64| #[trigger] s.contains(k) ==> k < n,
    ensures
        s.len() <= n,
    decreases n,
{
    if n == 0 {
        assert(s =~= Set::empty());
    } else {
        let top = (n - 1) as u64;
        lemma_bounded_set(s.remove(top), top);
    }
}

} // verus!
