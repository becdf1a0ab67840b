//! The interactive session around the solver: a board that is being typed in,
//! a search that is awaited, a solution that is stepped through.
//!
//! The session is a state machine. [`App::on_key`] and [`App::on_tick`] take
//! what happened and say what the session is afterwards and what is to be
//! done; reading keys, running the search and drawing are left to the caller.

use crate::board::{in_grid, Board};
use vstd::prelude::*;

verus! {

/// What the session is busy with.
#[derive(Clone, Copy, PartialEq, Eq, Debug, Structural)]
pub enum AppMode {
    /// The board is being typed in.
    Input,
    /// A search runs.
    Searching,
    /// A solution is shown.
    Result,
}

/// A key, as far as the session tells keys apart.
#[derive(Clone, Copy, PartialEq, Eq, Debug)]
pub enum Key {
    Char(char),
    Esc,
    Left,
    Right,
    Up,
    Down,
    Backspace,
    Delete,
    Enter,
    Other,
}

/// What the caller is to do after a key.
#[derive(Clone, Copy, PartialEq, Eq, Debug)]
pub enum Command {
    /// Nothing but to go on.
    Continue,
    /// End the program.
    Quit,
    /// Start a search from this board, which is well-formed.
    StartSearch(Board),
    /// Wait no longer for the search that runs.
    AbandonSearch,
}

/// What the caller knows of the search that runs.
pub enum SearchReport {
    /// It has not finished.
    Working,
    /// It has finished, with this result.
    Finished(Option<Vec<Board>>),
    /// It ended without a result.
    Lost,
}

/// The state of the session.
pub struct App {
    pub mode: AppMode,
    // Input state
    pub input_board: Board,
    pub cursor_pos: (usize, usize),  // (row, col)
    pub error_msg: Option<String>,
    // Search state
    pub spinner_idx: usize,
    // Result state
    pub solution_path: Vec<Board>,
    pub current_step: usize,
}

/// What an [`App`] stands for: its texts and sequences as mathematical values.
pub struct AppView {
    pub mode: AppMode,
    pub input_board: Board,
    pub cursor_pos: (usize, usize),
    pub error_msg: Option<Seq<char>>,
    pub spinner_idx: usize,
    pub solution_path: Seq<Board>,
    pub current_step: usize,
}

/// The message for a board that cannot be searched from.
pub open spec fn invalid_board_message() -> Seq<char> {
    "Invalid Board: Must contain 1-8 unique & 1 empty."@
}

/// The message for a board from which the puzzle cannot be solved.
pub open spec fn no_solution_message() -> Seq<char> {
    "No solution found for this configuration."@
}

/// The message for a search that ended without a result.
pub open spec fn search_lost_message() -> Seq<char> {
    "Search thread panicked."@
}

/// The line of help that is shown in the mode `mode`.
pub open spec fn footer_for(mode: AppMode) -> Seq<char> {
    match mode {
        AppMode::Input => "Arrows: Move | 0-8: Fill | Space: Empty | Enter: Solve | q: Quit"@,
        AppMode::Searching => "Calculating... Please wait..."@,
        AppMode::Result => "Left/Right: Prev/Next Step | q: New Puzzle"@,
    }
}

/// The four pictures of the spinner, in the order in which they are shown.
pub open spec fn spinner_picture(idx: usize) -> Seq<char> {
    if idx == 0 {
        "|"@
    } else if idx == 1 {
        "/"@
    } else if idx == 2 {
        "-"@
    } else {
        "\\"@
    }
}

/// What typing the character `c` puts into a cell: a tile for the digits 1
/// to 8, the blank for 0 and for the space, and nothing for any other.
pub open spec fn typed_content(c: char) -> Option<Option<i64>> {
    if '1' <= c <= '8' {
        Some(Some((c as u32 - '0' as u32) as i64))
    } else if c == '0' || c == ' ' {
        Some(None)
    } else {
        None
    }
}

impl AppView {
    /// The invariant of the session: the cursor is on the board, the spinner
    /// is one of four, and a solution that is shown is not empty and is
    /// shown at one of its steps.
    pub open spec fn is_wellformed(self) -> bool {
        &&& in_grid(self.cursor_pos.0 as int, self.cursor_pos.1 as int)
        &&& self.spinner_idx < 4
        &&& self.mode == AppMode::Result ==> self.current_step < self.solution_path.len()
    }

    /// The session with the content `content` in the cell under the cursor.
    pub open spec fn with_content(self, content: Option<i64>) -> AppView {
        AppView {
            input_board: self.input_board.replaced(
                (self.cursor_pos.0 as int, self.cursor_pos.1 as int),
                content,
            ),
            ..self
        }
    }

    /// The session after the key `key` while the board is typed in.
    pub open spec fn after_input_key(self, key: Key) -> AppView {
        let (r, c) = self.cursor_pos;
        match key {
            Key::Left => AppView {
                cursor_pos: if c > 0 {
                    (r, (c - 1) as usize)
                } else {
                    (r, c)
                },
                ..self
            },
            Key::Right => AppView {
                cursor_pos: if c < 2 {
                    (r, (c + 1) as usize)
                } else {
                    (r, c)
                },
                ..self
            },
            Key::Up => AppView {
                cursor_pos: if r > 0 {
                    ((r - 1) as usize, c)
                } else {
                    (r, c)
                },
                ..self
            },
            Key::Down => AppView {
                cursor_pos: if r < 2 {
                    ((r + 1) as usize, c)
                } else {
                    (r, c)
                },
                ..self
            },
            Key::Char(ch) => match typed_content(ch) {
                Some(content) => self.with_content(content),
                None => self,
            },
            Key::Backspace | Key::Delete => self.with_content(None),
            Key::Enter => if self.input_board.is_wellformed() {
                AppView { mode: AppMode::Searching, error_msg: None, ..self }
            } else {
                AppView { error_msg: Some(invalid_board_message()), ..self }
            },
            _ => self,
        }
    }

    /// The session after the key `key` while a solution is shown.
    pub open spec fn after_result_key(self, key: Key) -> AppView {
        match key {
            Key::Char('q') | Key::Esc => AppView { mode: AppMode::Input, ..self },
            Key::Left => AppView {
                current_step: if self.current_step > 0 {
                    (self.current_step - 1) as usize
                } else {
                    self.current_step
                },
                ..self
            },
            Key::Right => AppView {
                current_step: if self.current_step < self.solution_path.len() - 1 {
                    (self.current_step + 1) as usize
                } else {
                    self.current_step
                },
                ..self
            },
            _ => self,
        }
    }

    /// The session after the key `key`.
    pub open spec fn after_key(self, key: Key) -> AppView {
        match self.mode {
            AppMode::Input => self.after_input_key(key),
            AppMode::Searching => match key {
                Key::Char('q') => AppView { mode: AppMode::Input, ..self },
                _ => self,
            },
            AppMode::Result => self.after_result_key(key),
        }
    }

    /// What the caller is to do after the key `key`.
    pub open spec fn command_for(self, key: Key) -> Command {
        match (self.mode, key) {
            (AppMode::Input, Key::Char('q')) | (AppMode::Input, Key::Esc) => Command::Quit,
            (AppMode::Input, Key::Enter) => if self.input_board.is_wellformed() {
                Command::StartSearch(self.input_board)
            } else {
                Command::Continue
            },
            (AppMode::Searching, Key::Char('q')) => Command::AbandonSearch,
            _ => Command::Continue,
        }
    }

    /// The session after a tick of the clock at which the caller knows
    /// `report` of the search. A tick matters only while a search runs.
    pub open spec fn after_tick(self, report: SearchReport) -> AppView {
        if self.mode != AppMode::Searching {
            self
        } else {
            let turned = AppView { spinner_idx: ((self.spinner_idx + 1) % 4) as usize, ..self };
            match report {
                SearchReport::Working => turned,
                SearchReport::Finished(Some(path)) => AppView {
                    solution_path: path@,
                    current_step: 0,
                    mode: AppMode::Result,
                    ..turned
                },
                SearchReport::Finished(None) => AppView {
                    error_msg: Some(no_solution_message()),
                    mode: AppMode::Input,
                    ..turned
                },
                SearchReport::Lost => AppView {
                    error_msg: Some(search_lost_message()),
                    mode: AppMode::Input,
                    ..turned
                },
            }
        }
    }
}

impl View for App {
    type V = AppView;

    open spec fn view(&self) -> AppView {
        AppView {
            mode: self.mode,
            input_board: self.input_board,
            cursor_pos: self.cursor_pos,
            error_msg: match self.error_msg {
                Some(text) => Some(text@),
                None => None,
            },
            spinner_idx: self.spinner_idx,
            solution_path: self.solution_path@,
            current_step: self.current_step,
        }
    }
}

/// Reads a typed character as the content of a cell.
fn content_of(c: char) -> (content: Option<Option<i64>>)
    ensures
        content == typed_content(c),
{
    if '1' <= c && c <= '8' {
        Some(Some((c as u32 - '0' as u32) as i64))
    } else if c == '0' || c == ' ' {
        Some(None)
    } else {
        None
    }
}

impl App {
    /// The session at the start of the program: an empty board is typed in,
    /// with the cursor in the first cell.
    pub fn new() -> (app: App)
        ensures
            app@.is_wellformed(),
            app@ == (AppView {
                mode: AppMode::Input,
                input_board: Board::from_cells(|r: int, c: int| None),
                cursor_pos: (0, 0),
                error_msg: None,
                spinner_idx: 0,
                solution_path: Seq::empty(),
                current_step: 0,
            }),
    {
        App {
            mode: AppMode::Input,
            input_board: Board::default(),
            cursor_pos: (0, 0),
            error_msg: None,
            spinner_idx: 0,
            solution_path: Vec::new(),
            current_step: 0,
        }
    }

    /// The line of help for the mode that the session is in.
    pub fn footer_text(&self) -> (text: &'static str)
        ensures
            text@ == footer_for(self@.mode),
    {
        match self.mode {
            AppMode::Input => "Arrows: Move | 0-8: Fill | Space: Empty | Enter: Solve | q: Quit",
            AppMode::Searching => "Calculating... Please wait...",
            AppMode::Result => "Left/Right: Prev/Next Step | q: New Puzzle",
        }
    }

    /// The picture of the spinner that is to be shown now.
    pub fn spinner(&self) -> (picture: &'static str)
        requires
            self@.is_wellformed(),
        ensures
            picture@ == spinner_picture(self@.spinner_idx),
    {
        let spinners = ["|", "/", "-", "\\"];
        spinners[self.spinner_idx]
    }

    /// The board of the solution at the step that is shown.
    pub fn shown_board(&self) -> (board: Board)
        requires
            self@.is_wellformed(),
            self@.mode == AppMode::Result,
        ensures
            board == self@.solution_path[self@.current_step as int],
    {
        self.solution_path[self.current_step]
    }

    /// Answers a key: moves the cursor, fills a cell, asks for a search,
    /// gives a search up, steps through the solution, or leaves it.
    pub fn on_key(&mut self, key: Key) -> (command: Command)
        requires
            old(self)@.is_wellformed(),
        ensures
            final(self)@.is_wellformed(),
            final(self)@ == old(self)@.after_key(key),
            command == old(self)@.command_for(key),
            command matches Command::StartSearch(board) ==> board.is_wellformed(),
    {
        match self.mode {
            AppMode::Input => {
                match key {
                    Key::Char('q') | Key::Esc => {
                        return Command::Quit;
                    },
                    Key::Left => {
                        if self.cursor_pos.1 > 0 {
                            self.cursor_pos.1 -= 1;
                        }
                    },
                    Key::Right => {
                        if self.cursor_pos.1 < 2 {
                            self.cursor_pos.1 += 1;
                        }
                    },
                    Key::Up => {
                        if self.cursor_pos.0 > 0 {
                            self.cursor_pos.0 -= 1;
                        }
                    },
                    Key::Down => {
                        if self.cursor_pos.0 < 2 {
                            self.cursor_pos.0 += 1;
                        }
                    },
                    Key::Char(c) => {
                        if let Some(content) = content_of(c) {
                            self.input_board = self.input_board.with_cell(self.cursor_pos, content);
                        }
                    },
                    Key::Backspace | Key::Delete => {
                        self.input_board = self.input_board.with_cell(self.cursor_pos, None);
                    },
                    Key::Enter => {
                        // Validate and Start Search
                        if self.input_board.is_valid() {
                            self.mode = AppMode::Searching;
                            self.error_msg = None;
                            return Command::StartSearch(self.input_board);
                        } else {
                            self.error_msg = Some(
                                "Invalid Board: Must contain 1-8 unique & 1 empty.".to_string(),
                            );
                        }
                    },
                    _ => {},
                }
            },
            AppMode::Searching => {
                // Consume keys but do nothing, or allow 'q' to abort
                if let Key::Char('q') = key {
                    self.mode = AppMode::Input;
                    return Command::AbandonSearch;
                }
            },
            AppMode::Result => {
                match key {
                    Key::Char('q') | Key::Esc => {
                        self.mode = AppMode::Input;  // Return to editor
                    },
                    Key::Left => {
                        if self.current_step > 0 {
                            self.current_step -= 1;
                        }
                    },
                    Key::Right => {
                        if self.current_step < self.solution_path.len() - 1 {
                            self.current_step += 1;
                        }
                    },
                    _ => {},
                }
            },
        }
        Command::Continue
    }

    /// Answers a tick of the clock. While a search runs the spinner turns;
    /// once the search has reported, its solution is shown from the first
    /// step, or the reason why there is none.
    pub fn on_tick(&mut self, report: SearchReport)
        requires
            old(self)@.is_wellformed(),
            report matches SearchReport::Finished(Some(path)) ==> path@.len() > 0,
        ensures
            final(self)@.is_wellformed(),
            final(self)@ == old(self)@.after_tick(report),
    {
        // Update spinner animation
        if let AppMode::Searching = self.mode {
            self.spinner_idx = (self.spinner_idx + 1) % 4;

            match report {
                SearchReport::Finished(result) => {
                    match result {
                        Some(path) => {
                            self.solution_path = path;
                            self.current_step = 0;
                            self.mode = AppMode::Result;
                        },
                        None => {
                            self.error_msg = Some(
                                "No solution found for this configuration.".to_string(),
                            );
                            self.mode = AppMode::Input;
                        },
                    }
                },
                SearchReport::Working => {},  // Still working
                SearchReport::Lost => {
                    self.error_msg = Some("Search thread panicked.".to_string());
                    self.mode = AppMode::Input;
                },
            }
        }
    }
}

} // verus!
