use eight_puzzle::a_star::{finished, State};
use eight_puzzle::board::Board;
use eight_puzzle::frontier::Frontier;

fn board(cells: [i64; 9]) -> Board {
    let cell = |i: usize| if cells[i] == 0 { None } else { Some(cells[i]) };
    Board {
        b: [
            [cell(0), cell(1), cell(2)],
            [cell(3), cell(4), cell(5)],
            [cell(6), cell(7), cell(8)],
        ],
    }
}

#[test]
fn new_frontier_is_empty() {
    let mut frontier = Frontier::new();
    assert!(frontier.is_empty());
    assert_eq!(frontier.len(), 0);
    assert!(frontier.pop().is_none());
    assert!(frontier.is_empty());
}

#[test]
fn frontier_hands_out_what_was_put_in() {
    let mut frontier = Frontier::new();
    let state = State::initial(board([5, 1, 2, 3, 7, 8, 4, 6, 0]));
    frontier.push(state.clone());
    assert!(!frontier.is_empty());
    assert_eq!(frontier.len(), 1);
    assert!(frontier.pop() == Some(state));
    assert!(frontier.is_empty());
}

#[test]
fn frontier_hands_out_the_smallest_score_first() {
    let boards = [
        board([8, 6, 7, 2, 5, 4, 3, 0, 1]),
        board([1, 2, 3, 4, 5, 0, 7, 8, 6]),
        board([5, 1, 2, 3, 7, 8, 4, 6, 0]),
        board([1, 2, 3, 4, 5, 6, 7, 8, 0]),
        board([8, 7, 6, 5, 4, 3, 2, 1, 0]),
        board([0, 8, 7, 6, 5, 4, 3, 2, 1]),
        board([1, 2, 3, 4, 0, 6, 7, 5, 8]),
    ];
    let mut frontier = Frontier::new();
    for b in boards {
        frontier.push(State::initial(b));
    }
    assert_eq!(frontier.len(), 7);
    let mut scores = Vec::new();
    while let Some(state) = frontier.pop() {
        scores.push(state.f);
    }
    assert_eq!(scores, vec![0, 1, 2, 14, 16, 20, 21]);
}

#[test]
fn frontier_breaks_ties_by_the_smaller_distance() {
    let start = board([1, 2, 3, 4, 0, 6, 7, 5, 8]);
    let down = board([1, 2, 3, 4, 5, 6, 7, 0, 8]);
    let up = board([1, 2, 3, 4, 5, 0, 7, 8, 6]);
    let back = State::initial(start).successor(down).successor(start);
    let on = State::initial(start).successor(down).successor(finished()).successor(up);
    let mut frontier = Frontier::new();
    frontier.push(back.clone());
    frontier.push(on.clone());
    assert!(frontier.pop() == Some(on.clone()));
    assert!(frontier.pop() == Some(back.clone()));
    frontier.push(on.clone());
    frontier.push(back.clone());
    assert!(frontier.pop() == Some(on));
    assert!(frontier.pop() == Some(back));
}

#[test]
fn frontier_keeps_a_state_that_was_put_in_twice() {
    let state = State::initial(board([1, 2, 3, 4, 5, 0, 7, 8, 6]));
    let mut frontier = Frontier::new();
    frontier.push(state.clone());
    frontier.push(state.clone());
    assert_eq!(frontier.len(), 2);
    assert!(frontier.pop() == Some(state.clone()));
    assert_eq!(frontier.len(), 1);
    assert!(frontier.pop() == Some(state));
    assert!(frontier.pop().is_none());
}

#[test]
fn frontier_orders_many_states() {
    // The states along a walk away from the goal and back, put in as they
    // come and taken out by score.
    let mut state = State::initial(finished());
    let mut frontier = Frontier::new();
    let mut put_in = Vec::new();
    for step in 0..200usize {
        let next = state.board.get_possible_next_states();
        state = state.successor(next[(step * 7 + step / 3) % next.len()]);
        put_in.push((state.f, state.f - state.g));
        frontier.push(state.clone());
    }
    put_in.sort();
    let mut taken = Vec::new();
    while let Some(s) = frontier.pop() {
        taken.push((s.f, s.f - s.g));
    }
    assert_eq!(taken, put_in);
}
