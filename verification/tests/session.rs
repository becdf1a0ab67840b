use eight_puzzle::a_star::finished;
use eight_puzzle::board::Board;
use eight_puzzle::session::{App, AppMode, Command, Key, SearchReport};

fn board(cells: [i64; 9]) -> Board {
    let cell = |i: usize| if cells[i] == 0 { None } else { Some(cells[i]) };
    Board {
        b: [
            [cell(0), cell(1), cell(2)],
            [cell(3), cell(4), cell(5)],
            [cell(6), cell(7), cell(8)],
        ],
    }
}

/// Types the cells of a board into a new session, row by row.
fn typed(cells: [i64; 9]) -> App {
    let mut app = App::new();
    for r in 0..3 {
        for c in 0..3 {
            let digit = char::from_digit(cells[3 * r + c] as u32, 10).unwrap();
            assert_eq!(app.on_key(Key::Char(digit)), Command::Continue);
            app.on_key(Key::Right);
        }
        app.on_key(Key::Left);
        app.on_key(Key::Left);
        app.on_key(Key::Down);
    }
    app
}

#[test]
fn new_session_waits_for_input() {
    let app = App::new();
    assert_eq!(app.mode, AppMode::Input);
    assert_eq!(app.input_board, Board::default());
    assert_eq!(app.cursor_pos, (0, 0));
    assert_eq!(app.error_msg, None);
    assert_eq!(app.spinner_idx, 0);
    assert!(app.solution_path.is_empty());
    assert_eq!(app.current_step, 0);
}

#[test]
fn arrows_move_the_cursor_within_the_board() {
    let mut app = App::new();
    app.on_key(Key::Left);
    app.on_key(Key::Up);
    assert_eq!(app.cursor_pos, (0, 0));
    app.on_key(Key::Right);
    assert_eq!(app.cursor_pos, (0, 1));
    app.on_key(Key::Down);
    assert_eq!(app.cursor_pos, (1, 1));
    for _ in 0..5 {
        app.on_key(Key::Right);
        app.on_key(Key::Down);
    }
    assert_eq!(app.cursor_pos, (2, 2));
    app.on_key(Key::Up);
    app.on_key(Key::Left);
    assert_eq!(app.cursor_pos, (1, 1));
}

#[test]
fn digits_fill_the_cell_under_the_cursor() {
    let mut app = App::new();
    app.on_key(Key::Char('5'));
    assert_eq!(app.input_board, board([5, 0, 0, 0, 0, 0, 0, 0, 0]));
    app.on_key(Key::Down);
    app.on_key(Key::Right);
    app.on_key(Key::Char('8'));
    assert_eq!(app.input_board, board([5, 0, 0, 0, 8, 0, 0, 0, 0]));
    app.on_key(Key::Char('1'));
    assert_eq!(app.input_board, board([5, 0, 0, 0, 1, 0, 0, 0, 0]));
    // 9 is no tile, and letters are none
    app.on_key(Key::Char('9'));
    app.on_key(Key::Char('x'));
    assert_eq!(app.input_board, board([5, 0, 0, 0, 1, 0, 0, 0, 0]));
}

#[test]
fn zero_space_backspace_and_delete_empty_the_cell() {
    for key in [Key::Char('0'), Key::Char(' '), Key::Backspace, Key::Delete] {
        let mut app = App::new();
        app.on_key(Key::Char('3'));
        assert_eq!(app.input_board.b[0][0], Some(3));
        assert_eq!(app.on_key(key), Command::Continue);
        assert_eq!(app.input_board, Board::default());
    }
}

#[test]
fn q_and_esc_quit_while_typing() {
    let mut app = App::new();
    assert_eq!(app.on_key(Key::Char('q')), Command::Quit);
    assert_eq!(app.on_key(Key::Esc), Command::Quit);
    assert_eq!(app.mode, AppMode::Input);
    assert_eq!(app.on_key(Key::Other), Command::Continue);
}

#[test]
fn enter_on_an_invalid_board_reports_it() {
    let mut app = App::new();
    assert_eq!(app.on_key(Key::Enter), Command::Continue);
    assert_eq!(app.mode, AppMode::Input);
    assert_eq!(
        app.error_msg,
        Some("Invalid Board: Must contain 1-8 unique & 1 empty.".to_string())
    );
}

#[test]
fn enter_on_a_valid_board_starts_the_search() {
    let mut app = typed([5, 1, 2, 3, 7, 8, 4, 6, 0]);
    let start = board([5, 1, 2, 3, 7, 8, 4, 6, 0]);
    assert_eq!(app.input_board, start);
    assert_eq!(app.on_key(Key::Enter), Command::StartSearch(start));
    assert_eq!(app.mode, AppMode::Searching);
    assert_eq!(app.error_msg, None);
}

#[test]
fn enter_on_a_valid_board_clears_the_message() {
    let mut app = typed([5, 1, 2, 3, 7, 8, 4, 6, 6]);
    assert_eq!(app.on_key(Key::Enter), Command::Continue);
    assert!(app.error_msg.is_some());
    assert_eq!(app.cursor_pos, (2, 0));
    app.on_key(Key::Right);
    app.on_key(Key::Right);
    app.on_key(Key::Char('0'));
    assert!(matches!(app.on_key(Key::Enter), Command::StartSearch(_)));
    assert_eq!(app.error_msg, None);
}

#[test]
fn q_gives_a_running_search_up() {
    let mut app = typed([1, 2, 3, 4, 5, 6, 7, 8, 0]);
    app.on_key(Key::Enter);
    assert_eq!(app.on_key(Key::Left), Command::Continue);
    assert_eq!(app.on_key(Key::Esc), Command::Continue);
    assert_eq!(app.on_key(Key::Char('5')), Command::Continue);
    assert_eq!(app.mode, AppMode::Searching);
    assert_eq!(app.input_board, finished());
    assert_eq!(app.on_key(Key::Char('q')), Command::AbandonSearch);
    assert_eq!(app.mode, AppMode::Input);
}

#[test]
fn tick_turns_the_spinner_while_searching() {
    let mut app = typed([1, 2, 3, 4, 5, 6, 7, 8, 0]);
    app.on_tick(SearchReport::Working);
    assert_eq!(app.spinner_idx, 0);
    app.on_key(Key::Enter);
    let mut seen = Vec::new();
    for _ in 0..6 {
        app.on_tick(SearchReport::Working);
        seen.push(app.spinner_idx);
    }
    assert_eq!(seen, vec![1, 2, 3, 0, 1, 2]);
    assert_eq!(app.mode, AppMode::Searching);
}

#[test]
fn tick_with_a_solution_shows_its_first_step() {
    let start = board([1, 2, 3, 4, 5, 0, 7, 8, 6]);
    let mut app = typed([1, 2, 3, 4, 5, 0, 7, 8, 6]);
    app.on_key(Key::Enter);
    app.on_tick(SearchReport::Finished(Some(vec![start, finished()])));
    assert_eq!(app.mode, AppMode::Result);
    assert_eq!(app.solution_path, vec![start, finished()]);
    assert_eq!(app.current_step, 0);
    assert_eq!(app.spinner_idx, 1);
    assert_eq!(app.error_msg, None);
}

#[test]
fn tick_without_a_solution_reports_it() {
    let mut app = typed([2, 1, 3, 4, 5, 6, 7, 8, 0]);
    app.on_key(Key::Enter);
    app.on_tick(SearchReport::Finished(None));
    assert_eq!(app.mode, AppMode::Input);
    assert_eq!(app.error_msg, Some("No solution found for this configuration.".to_string()));
}

#[test]
fn tick_after_a_lost_search_reports_it() {
    let mut app = typed([2, 1, 3, 4, 5, 6, 7, 8, 0]);
    app.on_key(Key::Enter);
    app.on_tick(SearchReport::Lost);
    assert_eq!(app.mode, AppMode::Input);
    assert_eq!(app.error_msg, Some("Search thread panicked.".to_string()));
}

#[test]
fn tick_outside_a_search_changes_nothing() {
    let start = board([1, 2, 3, 4, 5, 0, 7, 8, 6]);
    let mut app = App::new();
    app.on_tick(SearchReport::Finished(Some(vec![start, finished()])));
    app.on_tick(SearchReport::Lost);
    assert_eq!(app.mode, AppMode::Input);
    assert!(app.solution_path.is_empty());
    assert_eq!(app.error_msg, None);
    assert_eq!(app.spinner_idx, 0);
}

#[test]
fn arrows_step_through_the_solution() {
    let a = board([1, 2, 3, 4, 0, 6, 7, 5, 8]);
    let b = board([1, 2, 3, 4, 5, 6, 7, 0, 8]);
    let mut app = typed([1, 2, 3, 4, 0, 6, 7, 5, 8]);
    app.on_key(Key::Enter);
    app.on_tick(SearchReport::Finished(Some(vec![a, b, finished()])));
    app.on_key(Key::Left);
    assert_eq!(app.current_step, 0);
    app.on_key(Key::Right);
    assert_eq!(app.current_step, 1);
    app.on_key(Key::Right);
    assert_eq!(app.current_step, 2);
    app.on_key(Key::Right);
    assert_eq!(app.current_step, 2);
    app.on_key(Key::Left);
    assert_eq!(app.current_step, 1);
    assert_eq!(app.on_key(Key::Char('7')), Command::Continue);
    assert_eq!(app.input_board, a);
    assert_eq!(app.mode, AppMode::Result);
}

#[test]
fn q_and_esc_leave_the_solution() {
    for key in [Key::Char('q'), Key::Esc] {
        let start = board([1, 2, 3, 4, 5, 0, 7, 8, 6]);
        let mut app = typed([1, 2, 3, 4, 5, 0, 7, 8, 6]);
        app.on_key(Key::Enter);
        app.on_tick(SearchReport::Finished(Some(vec![start, finished()])));
        assert_eq!(app.on_key(key), Command::Continue);
        assert_eq!(app.mode, AppMode::Input);
        assert_eq!(app.input_board, start);
    }
}

#[test]
fn footer_text_goes_with_the_mode() {
    let start = board([1, 2, 3, 4, 5, 0, 7, 8, 6]);
    let mut app = typed([1, 2, 3, 4, 5, 0, 7, 8, 6]);
    assert_eq!(
        app.footer_text(),
        "Arrows: Move | 0-8: Fill | Space: Empty | Enter: Solve | q: Quit"
    );
    app.on_key(Key::Enter);
    assert_eq!(app.footer_text(), "Calculating... Please wait...");
    app.on_tick(SearchReport::Finished(Some(vec![start, finished()])));
    assert_eq!(app.footer_text(), "Left/Right: Prev/Next Step | q: New Puzzle");
}

#[test]
fn spinner_shows_four_pictures_in_turn() {
    let mut app = typed([1, 2, 3, 4, 5, 0, 7, 8, 6]);
    assert_eq!(app.spinner(), "|");
    app.on_key(Key::Enter);
    let mut seen = Vec::new();
    for _ in 0..5 {
        app.on_tick(SearchReport::Working);
        seen.push(app.spinner());
    }
    assert_eq!(seen, vec!["/", "-", "\\", "|", "/"]);
}

#[test]
fn shown_board_is_the_step_of_the_solution() {
    let a = board([1, 2, 3, 4, 0, 6, 7, 5, 8]);
    let b = board([1, 2, 3, 4, 5, 6, 7, 0, 8]);
    let mut app = typed([1, 2, 3, 4, 0, 6, 7, 5, 8]);
    app.on_key(Key::Enter);
    app.on_tick(SearchReport::Finished(Some(vec![a, b, finished()])));
    assert_eq!(app.shown_board(), a);
    app.on_key(Key::Right);
    assert_eq!(app.shown_board(), b);
    app.on_key(Key::Right);
    app.on_key(Key::Right);
    assert_eq!(app.shown_board(), finished());
}
