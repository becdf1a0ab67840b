//! A* search for a shortest solution of the puzzle.

use crate::board::{Board, KEY_LIMIT};
use crate::exploration::Exploration;
use crate::frontier::Frontier;
use crate::path::{connects, is_path, lemma_path_push, lemma_path_reverse, lemma_path_wellformed};
use std::cmp::Ordering;
use std::collections::HashSet;
use vstd::prelude::*;

verus! {

/// The solved puzzle: the tiles in order, the blank in the last cell.
pub open spec fn goal() -> Board {
    Board {
        b: [
            [Some(1i64), Some(2i64), Some(3i64)],
            [Some(4i64), Some(5i64), Some(6i64)],
            [Some(7i64), Some(8i64), None],
        ],
    }
}

/// The solved puzzle, as a value.
pub fn finished() -> (board: Board)
    ensures
        board == goal(),
{
    Board {
        b: [[Some(1), Some(2), Some(3)], [Some(4), Some(5), Some(6)], [Some(7), Some(8), None]],
    }
}

/// The solved puzzle is well-formed.
pub proof fn lemma_goal_wellformed()
    ensures
        goal().is_wellformed(),
{
}

/// A node of the search: a board together with the way that led to it.
#[derive(Eq, PartialEq)]
pub struct State {
    pub board: Board,
    pub path: Vec<Board>,
    pub g: i64,  // g(n) = the cost so far
    pub f: i64,  // f(n) = g(n) + h(n)
}

/// What a [`State`] stands for: its path as a sequence, its numbers as integers.
pub struct StateView {
    pub board: Board,
    pub path: Seq<Board>,
    pub g: int,
    pub f: int,
}

impl StateView {
    /// The estimate of what is left to go: the distance of the board to the goal.
    pub open spec fn h(self) -> int {
        self.board.manhattan(goal())
    }

    /// Whether the board is well-formed and `f` is `g` plus the estimate.
    pub open spec fn is_scored(self) -> bool {
        &&& self.board.is_wellformed()
        &&& self.f == self.g + self.h()
    }

    /// A state is well-formed when its path is a sequence of moves that ends
    /// at its board, `g` is the number of those moves, and `f` is `g` plus
    /// the estimate.
    pub open spec fn is_wellformed(self) -> bool {
        &&& is_path(self.path)
        &&& self.path.last() == self.board
        &&& self.g == self.path.len() - 1
        &&& self.f == self.g + self.h()
    }

    /// The board of a well-formed state is well-formed.
    pub proof fn lemma_wellformed_is_scored(self)
        requires
            self.is_wellformed(),
        ensures
            self.is_scored(),
    {
        lemma_path_wellformed(self.path, self.path.len() - 1);
    }

    /// Whether this state is to be expanded before `other`: it has the
    /// smaller `f`, or the same `f` and the smaller estimate.
    pub open spec fn precedes(self, other: StateView) -> bool {
        self.f < other.f || (self.f == other.f && self.h() < other.h())
    }
}

impl View for State {
    type V = StateView;

    open spec fn view(&self) -> StateView {
        StateView { board: self.board, path: self.path@, g: self.g as int, f: self.f as int }
    }
}

impl Clone for State {
    /// A state that stands for the same as this one.
    fn clone(&self) -> (copy: State)
        ensures
            copy@ == self@,
    {
        State { board: self.board, path: self.path.clone(), g: self.g, f: self.f }
    }
}

impl State {
    /// The state at which a search from `starting_board` begins.
    pub fn initial(starting_board: Board) -> (state: State)
        requires
            starting_board.is_wellformed(),
        ensures
            state@.is_wellformed(),
            state@.board == starting_board,
            state@.path == seq![starting_board],
    {
        let f = starting_board.distance(&finished());
        let mut path: Vec<Board> = Vec::new();
        path.push(starting_board);
        proof {
            lemma_goal_wellformed();
            assert(path@ =~= seq![starting_board]);
        }
        State { board: starting_board, path, f, g: 0 }
    }

    /// The state reached from this one by the move to `next_board`.
    pub fn successor(&self, next_board: Board) -> (next_state: State)
        requires
            self@.is_wellformed(),
            self@.board.is_move(next_board),
            self@.g < i64::MAX - 32,
        ensures
            next_state@.is_wellformed(),
            next_state@.board == next_board,
            next_state@.path == self@.path.push(next_board),
    {
        proof {
            lemma_goal_wellformed();
            lemma_path_push(self@.path, next_board);
            lemma_path_wellformed(self@.path.push(next_board), self@.path.len() as int);
        }
        let g = self.g + 1;
        let h = next_board.distance(&finished());
        let f = g + h;

        let mut next_path = self.path.clone();
        next_path.push(next_board);
        State { board: next_board, path: next_path, g, f }
    }

    /// Orders states by priority: the greater state is the one to expand
    /// first, that is the one with the smaller `f` and, where those are the
    /// same, with the smaller estimate.
    pub fn cmp(&self, other: &State) -> (order: Ordering)
        requires
            self@.is_scored(),
            other@.is_scored(),
        ensures
            order == Ordering::Greater <==> self@.precedes(other@),
            order == Ordering::Less <==> other@.precedes(self@),
    {
        proof {
            self.board.lemma_manhattan_bounds(goal());
            other.board.lemma_manhattan_bounds(goal());
        }
        if self.f < other.f {
            Ordering::Greater
        } else if self.f > other.f {
            Ordering::Less
        } else {
            let h = self.f - self.g;
            let other_h = other.f - other.g;
            if h < other_h {
                Ordering::Greater
            } else if h > other_h {
                Ordering::Less
            } else {
                Ordering::Equal
            }
        }
    }
}

/// Whether `path` solves the puzzle from `start` in as few moves as can be:
/// it leads from `start` to the goal, and no sequence of moves that does so
/// is shorter.
pub open spec fn is_shortest_solution(start: Board, path: Seq<Board>) -> bool {
    &&& connects(path, start, goal())
    &&& forall|other: Seq<Board>| #[trigger]
        connects(other, start, goal()) ==> path.len() <= other.len()
}

/// Whether no sequence of moves leads from `start` to the goal.
pub open spec fn is_unsolvable(start: Board) -> bool {
    forall|other: Seq<Board>| !#[trigger] connects(other, start, goal())
}

/// What [`search`] returns for `start`: a shortest solution where there is
/// a solution, and `None` where there is none.
pub open spec fn is_search_result(start: Board, result: Option<Vec<Board>>) -> bool {
    match result {
        Some(path) => is_shortest_solution(start, path@),
        None => is_unsolvable(start),
    }
}

/// A board that some sequence of moves leads to from the solved puzzle is
/// solved by the search, in the least number of moves that any solution
/// takes, which is no more than the number of moves that led to the board.
pub proof fn lemma_search_solves_scrambled(
    start: Board,
    scramble: Seq<Board>,
    result: Option<Vec<Board>>,
)
    requires
        connects(scramble, goal(), start),
        is_search_result(start, result),
    ensures
        result is Some,
        is_shortest_solution(start, result.unwrap()@),
        result.unwrap()@.len() <= scramble.len(),
{
    lemma_path_reverse(scramble);
    assert(connects(scramble.reverse(), start, goal()));
}

/// Two searches from the same board agree: both find no solution, or both
/// find solutions of the same length.
pub proof fn lemma_search_repeats(
    start: Board,
    first: Option<Vec<Board>>,
    second: Option<Vec<Board>>,
)
    requires
        is_search_result(start, first),
        is_search_result(start, second),
    ensures
        first is Some <==> second is Some,
        first is Some ==> first.unwrap()@.len() == second.unwrap()@.len(),
{
    if first is Some {
        assert(connects(first.unwrap()@, start, goal()));
    }
    if second is Some {
        assert(connects(second.unwrap()@, start, goal()));
    }
}

/// Searches for a shortest sequence of moves from `starting_board` to the
/// solved puzzle, with the A* algorithm and the Manhattan distance as the
/// estimate. Returns the boards of that sequence, from the starting board to
/// the solved one, or `None` where the puzzle cannot be solved.
pub fn search(starting_board: Board) -> (result: Option<Vec<Board>>)
    requires
        starting_board.is_wellformed(),
    ensures
        is_search_result(starting_board, result),
{
    broadcast use vstd::std_specs::hash::group_hash_axioms;

    let mut queue = Frontier::new();
    let first = State::initial(starting_board);
    let ghost mut e = Exploration::begin(starting_board, first@);
    proof {
        Exploration::lemma_begin(starting_board, first@);
    }
    queue.push(first);

    // the boards expanded so far, each by its key
    let mut visited: HashSet<u64> = HashSet::new();
    while !queue.is_empty()
        invariant
            queue.is_wellformed(),
            e.consistent(),
            e.start == starting_board,
            e.visited == visited@,
            e.frontier == queue@,
            e.visited.len() <= KEY_LIMIT,
        decreases KEY_LIMIT - e.visited.len(), queue@.len(),
    {
        let ghost before = e;
        let current = match queue.pop() {
            Some(state) => state,
            None => {
                // does not happen: the frontier was not empty
                return None;
            },
        };
        proof {
            lemma_path_wellformed(current@.path, current@.path.len() - 1);
            current.board.lemma_key_bound();
        }
        let key = current.board.key();
        if visited.contains(&key) {
            proof {
                e.lemma_without_stale(current@);
                e = e.without_state(current@);
            }
            continue ;
        }
        if current.board.distance(&finished()) == 0 {
            proof {
                lemma_goal_wellformed();
                current.board.lemma_manhattan_zero(goal());
                assert forall|other: Seq<Board>| #[trigger]
                    connects(other, starting_board, goal()) implies current.path@.len()
                    <= other.len() by {
                    e.lemma_first_is_shortest(current@, other);
                }
            }
            return Some(current.path);
        }
        visited.insert(key);
        proof {
            lemma_goal_wellformed();
            goal().lemma_manhattan_self();
            e.lemma_expand(current@);
            e = e.expand(current@);
        }

        let next_boards: Vec<Board> = current.board.get_possible_next_states();
        for i in 0..next_boards.len()
            invariant
                queue.is_wellformed(),
                current@.is_wellformed(),
                current@.g < e.visited.len(),
                e.routes[current.board] == current@.path,
                next_boards@ == current.board.successors(),
                forall|j: int|
                    0 <= j < next_boards.len() ==> current.board.is_move(#[trigger] next_boards[j]),
                e.expanding(current.board, next_boards@, i as int),
                e.start == starting_board,
                e.visited == visited@,
                e.frontier == queue@,
                e.visited.len() <= KEY_LIMIT,
                e.visited.len() == before.visited.len() + 1,
        {
            let next_state = current.successor(next_boards[i]);
            proof {
                e.lemma_cover(current.board, next_boards@, i as int, next_state@);
                e = e.with_state(next_state@);
            }
            queue.push(next_state);
        }
        proof {
            e.lemma_covered(current.board);
        }
    }
    proof {
        assert forall|other: Seq<Board>| !#[trigger] connects(other, starting_board, goal()) by {
            e.lemma_exhausted(other);
        }
    }
    None
}

} // verus!
