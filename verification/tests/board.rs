use eight_puzzle::a_star::finished;
use eight_puzzle::board::{Board, KEY_LIMIT};

fn board(cells: [i64; 9]) -> Board {
    let cell = |i: usize| if cells[i] == 0 { None } else { Some(cells[i]) };
    Board {
        b: [
            [cell(0), cell(1), cell(2)],
            [cell(3), cell(4), cell(5)],
            [cell(6), cell(7), cell(8)],
        ],
    }
}

#[test]
fn finished_board_holds_the_tiles_in_order() {
    assert_eq!(finished(), board([1, 2, 3, 4, 5, 6, 7, 8, 0]));
    assert!(finished().is_valid());
}

#[test]
fn find_number_gives_row_and_column() {
    let b = board([5, 1, 2, 3, 7, 8, 4, 6, 0]);
    assert_eq!(b.find_number(5), Some((0, 0)));
    assert_eq!(b.find_number(2), Some((0, 2)));
    assert_eq!(b.find_number(7), Some((1, 1)));
    assert_eq!(b.find_number(4), Some((2, 0)));
    assert_eq!(b.find_number(6), Some((2, 1)));
}

#[test]
fn find_number_of_a_missing_tile_is_none() {
    let b = board([5, 1, 2, 3, 7, 8, 4, 6, 0]);
    assert_eq!(b.find_number(9), None);
    assert_eq!(b.find_number(0), None);
    assert_eq!(b.find_number(-1), None);
    assert_eq!(Board::default().find_number(1), None);
}

#[test]
fn find_number_takes_the_first_of_two() {
    let b = board([1, 1, 2, 3, 4, 5, 6, 7, 1]);
    assert_eq!(b.find_number(1), Some((0, 0)));
}

#[test]
fn find_empty_cell_gives_the_blank() {
    assert_eq!(finished().find_empty_cell(), Some((2, 2)));
    assert_eq!(board([1, 2, 3, 4, 0, 5, 6, 7, 8]).find_empty_cell(), Some((1, 1)));
    assert_eq!(board([0, 2, 3, 4, 1, 5, 6, 7, 8]).find_empty_cell(), Some((0, 0)));
    assert_eq!(board([1, 2, 3, 4, 1, 5, 6, 7, 8]).find_empty_cell(), None);
    assert_eq!(Board::default().find_empty_cell(), Some((0, 0)));
}

#[test]
fn distance_to_itself_is_zero() {
    for cells in [
        [1, 2, 3, 4, 5, 6, 7, 8, 0],
        [5, 1, 2, 3, 7, 8, 4, 6, 0],
        [8, 6, 7, 2, 5, 4, 3, 0, 1],
        [0, 8, 7, 6, 5, 4, 3, 2, 1],
    ] {
        let b = board(cells);
        assert_eq!(b.distance(&b), 0);
    }
}

#[test]
fn distance_is_symmetric() {
    let boards = [
        board([1, 2, 3, 4, 5, 6, 7, 8, 0]),
        board([5, 1, 2, 3, 7, 8, 4, 6, 0]),
        board([8, 6, 7, 2, 5, 4, 3, 0, 1]),
        board([2, 1, 3, 4, 5, 6, 7, 8, 0]),
    ];
    for a in boards.iter() {
        for b in boards.iter() {
            assert_eq!(a.distance(b), b.distance(a));
        }
    }
}

#[test]
fn distance_sums_the_steps_of_each_tile() {
    let goal = finished();
    assert_eq!(board([5, 1, 2, 3, 7, 8, 4, 6, 0]).distance(&goal), 14);
    assert_eq!(board([8, 7, 6, 5, 4, 3, 2, 1, 0]).distance(&goal), 16);
    assert_eq!(board([8, 6, 7, 2, 5, 4, 3, 0, 1]).distance(&goal), 21);
    assert_eq!(board([0, 8, 7, 6, 5, 4, 3, 2, 1]).distance(&goal), 20);
    assert_eq!(board([1, 2, 3, 4, 5, 0, 7, 8, 6]).distance(&goal), 1);
    assert_eq!(board([2, 1, 3, 4, 5, 6, 7, 8, 0]).distance(&goal), 2);
}

#[test]
fn distance_does_not_count_the_blank() {
    // Four tiles are one step from their places; the blank, four steps from
    // its own, adds nothing.
    let a = board([0, 1, 2, 4, 5, 3, 7, 8, 6]);
    assert_eq!(a.distance(&finished()), 4);
}

#[test]
fn distance_changes_by_one_with_each_move() {
    let goal = finished();
    let b = board([5, 1, 2, 3, 0, 8, 4, 6, 7]);
    let d = b.distance(&goal);
    for next in b.get_possible_next_states() {
        assert_eq!((next.distance(&goal) - d).abs(), 1);
    }
}

#[test]
fn copy_and_swap_exchanges_two_cells() {
    let b = board([5, 1, 2, 3, 7, 8, 4, 6, 0]);
    assert_eq!(b.copy_and_swap((2, 2), (1, 2)), board([5, 1, 2, 3, 7, 0, 4, 6, 8]));
    assert_eq!(b.copy_and_swap((0, 0), (2, 1)), board([6, 1, 2, 3, 7, 8, 4, 5, 0]));
    // the board itself is left as it was
    assert_eq!(b, board([5, 1, 2, 3, 7, 8, 4, 6, 0]));
}

#[test]
fn copy_and_swap_of_a_cell_with_itself_changes_nothing() {
    let b = board([5, 1, 2, 3, 7, 8, 4, 6, 0]);
    assert_eq!(b.copy_and_swap((1, 1), (1, 1)), b);
}

#[test]
fn copy_and_swap_twice_gives_the_board_back() {
    let b = board([5, 1, 2, 3, 7, 8, 4, 6, 0]);
    assert_eq!(b.copy_and_swap((0, 1), (2, 2)).copy_and_swap((2, 2), (0, 1)), b);
}

#[test]
fn with_cell_overwrites_one_cell() {
    let b = Board::default().with_cell((1, 2), Some(7));
    assert_eq!(b, board([0, 0, 0, 0, 0, 7, 0, 0, 0]));
    assert_eq!(b.with_cell((1, 2), None), Board::default());
}

#[test]
fn blank_in_a_corner_has_two_successors() {
    let b = board([5, 1, 2, 3, 7, 8, 4, 6, 0]);
    assert_eq!(
        b.get_possible_next_states(),
        vec![board([5, 1, 2, 3, 7, 0, 4, 6, 8]), board([5, 1, 2, 3, 7, 8, 4, 0, 6])]
    );
}

#[test]
fn blank_on_an_edge_has_three_successors() {
    let b = board([1, 0, 2, 3, 4, 5, 6, 7, 8]);
    assert_eq!(
        b.get_possible_next_states(),
        vec![
            board([0, 1, 2, 3, 4, 5, 6, 7, 8]),
            board([1, 2, 0, 3, 4, 5, 6, 7, 8]),
            board([1, 4, 2, 3, 0, 5, 6, 7, 8]),
        ]
    );
}

#[test]
fn blank_in_the_middle_moves_up_left_right_down() {
    let b = board([1, 2, 3, 4, 0, 5, 6, 7, 8]);
    assert_eq!(
        b.get_possible_next_states(),
        vec![
            board([1, 0, 3, 4, 2, 5, 6, 7, 8]),
            board([1, 2, 3, 0, 4, 5, 6, 7, 8]),
            board([1, 2, 3, 4, 5, 0, 6, 7, 8]),
            board([1, 2, 3, 4, 7, 5, 6, 0, 8]),
        ]
    );
}

#[test]
fn successors_are_valid_and_one_swap_with_the_blank_away() {
    for blank in 0..9 {
        let mut cells = [0i64; 9];
        let mut tile = 1;
        for (i, cell) in cells.iter_mut().enumerate() {
            if i != blank {
                *cell = tile;
                tile += 1;
            }
        }
        let b = board(cells);
        let from = b.find_empty_cell().unwrap();
        let next = b.get_possible_next_states();
        assert!(2 <= next.len() && next.len() <= 4);
        for n in next.iter() {
            assert!(n.is_valid());
            let to = n.find_empty_cell().unwrap();
            let steps = (from.0 as i64 - to.0 as i64).abs() + (from.1 as i64 - to.1 as i64).abs();
            assert_eq!(steps, 1);
            assert_eq!(*n, b.copy_and_swap(from, to));
            assert!(n.get_possible_next_states().contains(&b));
        }
    }
}

#[test]
fn is_valid_accepts_each_tile_once_and_one_blank() {
    assert!(board([1, 2, 3, 4, 5, 6, 7, 8, 0]).is_valid());
    assert!(board([8, 6, 7, 2, 5, 4, 3, 0, 1]).is_valid());
    assert!(board([0, 8, 7, 6, 5, 4, 3, 2, 1]).is_valid());
}

#[test]
fn is_valid_refuses_other_boards() {
    assert!(!Board::default().is_valid());
    assert!(!board([1, 2, 3, 4, 5, 6, 7, 8, 8]).is_valid());
    assert!(!board([1, 2, 3, 4, 5, 6, 7, 0, 0]).is_valid());
    assert!(!board([1, 2, 3, 4, 5, 6, 7, 8, 9]).is_valid());
    assert!(!board([1, 1, 3, 4, 5, 6, 7, 8, 0]).is_valid());
    assert!(!board([-1, 2, 3, 4, 5, 6, 7, 8, 0]).is_valid());
}

#[test]
fn key_reads_the_cells_in_base_nine() {
    assert_eq!(finished().key(), 54480996);
    assert_eq!(board([5, 1, 2, 3, 7, 8, 4, 6, 0]).key(), 221308740);
    assert_eq!(board([0, 1, 2, 3, 4, 5, 6, 7, 8]).key(), 6053444);
}

#[test]
fn key_tells_boards_apart() {
    let b = board([5, 1, 2, 3, 0, 8, 4, 6, 7]);
    let mut keys = vec![b.key()];
    for n in b.get_possible_next_states() {
        assert!(n.key() < KEY_LIMIT);
        assert!(!keys.contains(&n.key()));
        keys.push(n.key());
    }
    assert_eq!(keys.len(), 5);
}

#[test]
fn default_board_is_blank() {
    assert_eq!(Board::default(), board([0; 9]));
}
