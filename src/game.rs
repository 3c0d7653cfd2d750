//! A game session around a board: moves, hints, and the score.

use crate::board::{move_allowed, revealed, Board};
use crate::rules::{blank_count, given_count, in_grid, index_of, removal};
use vstd::prelude::*;

verus! {

/// Hints a game allows.
pub const MAX_HINTS: u8 = 3;

/// A player's request.
pub enum Command {
    /// Place a digit (or erase, with 0) on `(row, col)`.
    Place(usize, usize, u8),
    Hint,
    /// Start over at a difficulty.
    New(u8),
    Quit,
    Help,
    Unknown,
}

/// What came of a command.
pub enum Outcome {
    /// The move was accepted; `correct` when the digit is the solution's, and
    /// which units were completed for the first time by it.
    Placed { correct: bool, row_done: bool, col_done: bool, box_done: bool, solved: bool },
    /// The move was refused.
    Rejected,
    /// A hint revealed this cell and digit.
    Hinted(usize, usize, u8),
    NoHintsLeft,
    NothingToReveal,
    Started(u8),
    Quit,
    Help,
    Unknown,
}

/// One session: the board, the number of accepted moves, the score, the
/// rows, columns and boxes already rewarded, and the hints used.
pub struct Game {
    board: Board,
    moves: u32,
    score: i32,
    completed_rows: Vec<bool>,
    completed_cols: Vec<bool>,
    completed_boxes: Vec<bool>,
    hints_used: u8,
}

/// `x` held within the range of `i32`.
pub open spec fn clamp(x: int) -> int {
    if x > i32::MAX {
        i32::MAX as int
    } else if x < i32::MIN {
        i32::MIN as int
    } else {
        x
    }
}

/// Every cell of row `r` is filled.
pub open spec fn row_full(vals: Seq<u8>, r: int) -> bool {
    forall|c: int| 0 <= c < 9 ==> #[trigger] vals[index_of(r, c)] != 0
}

/// Every cell of column `c` is filled.
pub open spec fn col_full(vals: Seq<u8>, c: int) -> bool {
    forall|r: int| 0 <= r < 9 ==> #[trigger] vals[index_of(r, c)] != 0
}

/// Every cell of the box holding `(r, c)` is filled.
pub open spec fn box_full(vals: Seq<u8>, r: int, c: int) -> bool {
    forall|i: int, j: int|
        (r / 3) * 3 <= i < (r / 3) * 3 + 3 && (c / 3) * 3 <= j < (c / 3) * 3 + 3
            ==> #[trigger] vals[index_of(i, j)] != 0
}

/// Points for an accepted move: 1 for a correct digit and 3 for each unit it
/// completes for the first time, or -1 for a wrong digit.
pub open spec fn points(correct: bool, row_done: bool, col_done: bool, box_done: bool) -> int {
    if correct {
        1 + (if row_done { 3int } else { 0 }) + (if col_done { 3int } else { 0 }) + (if box_done { 3int } else { 0 })
    } else {
        -1
    }
}

/// The score after an accepted move: its points, then 9 more when it solves
/// the board, each step held within `i32`.
pub open spec fn score_after(score: int, correct: bool, row_done: bool, col_done: bool, box_done: bool, solved: bool) -> int {
    let s1 = clamp(score + points(correct, row_done, col_done, box_done));
    if solved {
        clamp(s1 + 9)
    } else {
        s1
    }
}

/// `flags` with entry `i` set when `hit`.
pub open spec fn mark(flags: Seq<bool>, i: int, hit: bool) -> Seq<bool> {
    if hit {
        flags.update(i, true)
    } else {
        flags
    }
}

/// A number of moves plus one, held within `u32`.
pub open spec fn next_count(n: int) -> int {
    if n < u32::MAX {
        n + 1
    } else {
        n
    }
}

/// `after` is `before` after the move `(row, col, value)` and its outcome `out`.
pub open spec fn placed(before: &Game, after: &Game, row: usize, col: usize, value: u8, out: Outcome) -> bool {
    let b0 = before.spec_board();
    let b1 = after.spec_board();
    let ok = move_allowed(b0.values(), b0.given(), row as int, col as int, value);
    &&& b1.given() == b0.given()
    &&& b1.solution() == b0.solution()
    &&& after.spec_hints_used() == before.spec_hints_used()
    &&& if ok {
        let k = index_of(row as int, col as int);
        let correct = b0.solution()[k] == value;
        let row_done = correct && row_full(b1.values(), row as int) && !before.rewarded().0[row as int];
        let col_done = correct && col_full(b1.values(), col as int) && !before.rewarded().1[col as int];
        let bx = (row as int / 3) * 3 + col as int / 3;
        let box_done = correct && box_full(b1.values(), row as int, col as int) && !before.rewarded().2[bx];
        &&& b1.values() == b0.values().update(k, value)
        &&& after.spec_moves() == next_count(before.spec_moves())
        &&& after.rewarded() == (
            mark(before.rewarded().0, row as int, row_done),
            mark(before.rewarded().1, col as int, col_done),
            mark(before.rewarded().2, bx, box_done),
        )
        &&& after.spec_score() == score_after(before.spec_score(), correct, row_done, col_done, box_done, b1.solved())
        &&& out == (Outcome::Placed { correct, row_done, col_done, box_done, solved: b1.solved() })
    } else {
        &&& b1.values() == b0.values()
        &&& after.spec_moves() == before.spec_moves()
        &&& after.rewarded() == before.rewarded()
        &&& after.spec_score() == clamp(before.spec_score() - 1)
        &&& out == Outcome::Rejected
    }
}

/// `after` is `before` after a hint request and its outcome `out`: refused
/// once the hints are spent; otherwise the board's hint, counted when a cell
/// was revealed.
pub open spec fn hinted(before: &Game, after: &Game, out: Outcome) -> bool {
    let b0 = before.spec_board();
    let b1 = after.spec_board();
    &&& after.spec_score() == before.spec_score()
    &&& after.spec_moves() == before.spec_moves()
    &&& after.rewarded() == before.rewarded()
    &&& if before.spec_hints_used() >= MAX_HINTS {
        &&& out == Outcome::NoHintsLeft
        &&& b1 == b0
        &&& after.spec_hints_used() == before.spec_hints_used()
    } else if forall|k: int| in_grid(k) ==> #[trigger] b0.values()[k] != 0 {
        &&& out == Outcome::NothingToReveal
        &&& b1.values() == b0.values()
        &&& b1.given() == b0.given()
        &&& b1.solution() == b0.solution()
        &&& after.spec_hints_used() == before.spec_hints_used()
    } else {
        &&& out matches Outcome::Hinted(row, col, v) && revealed(b0, b1, row as int, col as int, v)
        &&& after.spec_hints_used() == before.spec_hints_used() + 1
    }
}

fn add_clamped(score: i32, delta: i32) -> (r: i32)
    ensures
        r == clamp(score + delta),
{
    let wide: i64 = score as i64 + delta as i64;
    if wide > i32::MAX as i64 {
        i32::MAX
    } else if wide < i32::MIN as i64 {
        i32::MIN
    } else {
        wide as i32
    }
}

impl Game {
    pub closed spec fn spec_board(&self) -> &Board {
        &self.board
    }

    pub closed spec fn spec_score(&self) -> int {
        self.score as int
    }

    pub closed spec fn spec_moves(&self) -> int {
        self.moves as int
    }

    pub closed spec fn spec_hints_used(&self) -> int {
        self.hints_used as int
    }

    /// Rows, columns and boxes already rewarded, nine flags each.
    pub closed spec fn rewarded(&self) -> (Seq<bool>, Seq<bool>, Seq<bool>) {
        (self.completed_rows@, self.completed_cols@, self.completed_boxes@)
    }

    pub open spec fn wf(&self) -> bool {
        &&& self.spec_board().wf()
        &&& self.rewarded().0.len() == 9
        &&& self.rewarded().1.len() == 9
        &&& self.rewarded().2.len() == 9
        &&& self.spec_hints_used() <= MAX_HINTS
    }

    /// The board is a fresh carving at `difficulty`: `removal(difficulty)`
    /// blank cells, every other cell given, and a cell given exactly when filled.
    pub open spec fn freshly_carved(&self, difficulty: u8) -> bool {
        &&& blank_count(self.spec_board().values()) == removal(difficulty)
        &&& given_count(self.spec_board().given()) == 81 - removal(difficulty)
        &&& forall|k: int|
            in_grid(k) ==> (#[trigger] self.spec_board().given()[k] <==> self.spec_board().values()[k] != 0)
    }

    /// Nothing scored, counted or rewarded yet.
    pub open spec fn fresh(&self) -> bool {
        &&& self.spec_score() == 0
        &&& self.spec_moves() == 0
        &&& self.spec_hints_used() == 0
        &&& self.rewarded().0 == Seq::new(9, |i: int| false)
        &&& self.rewarded().1 == Seq::new(9, |i: int| false)
        &&& self.rewarded().2 == Seq::new(9, |i: int| false)
    }

    fn no_flags() -> (r: Vec<bool>)
        ensures
            r@ == Seq::new(9, |i: int| false),
    {
        let mut v: Vec<bool> = Vec::new();
        let mut i: usize = 0;
        while i < 9
            invariant
                i <= 9,
                v@ == Seq::new(i as nat, |k: int| false),
            decreases 9 - i,
        {
            v.push(false);
            i += 1;
            proof {
                assert(v@ =~= Seq::new(i as nat, |k: int| false));
            }
        }
        v
    }

    /// A session on a medium board.
    pub fn new() -> (r: Game)
        ensures
            r.wf(),
            r.fresh(),
            r.freshly_carved(2),
    {
        Game {
            board: Board::new(2),
            moves: 0,
            score: 0,
            completed_rows: Self::no_flags(),
            completed_cols: Self::no_flags(),
            completed_boxes: Self::no_flags(),
            hints_used: 0,
        }
    }

    /// The board in play.
    pub fn board(&self) -> (r: &Board)
        ensures
            r == self.spec_board(),
    {
        &self.board
    }

    pub fn score(&self) -> (r: i32)
        ensures
            r == self.spec_score(),
    {
        self.score
    }

    pub fn moves(&self) -> (r: u32)
        ensures
            r == self.spec_moves(),
    {
        self.moves
    }

    pub fn hints_used(&self) -> (r: u8)
        ensures
            r == self.spec_hints_used(),
    {
        self.hints_used
    }

    /// Whether every cell of `row` is filled.
    fn is_row_complete(&self, row: usize) -> (r: bool)
        requires
            self.wf(),
            row < 9,
        ensures
            r == row_full(self.spec_board().values(), row as int),
    {
        let mut col: usize = 0;
        while col < 9
            invariant
                self.wf(),
                row < 9,
                col <= 9,
                forall|c: int| 0 <= c < col ==> #[trigger] self.spec_board().values()[index_of(row as int, c)] != 0,
            decreases 9 - col,
        {
            if self.board.get_cell_value(row, col) == 0 {
                return false;
            }
            col += 1;
        }
        true
    }

    /// Whether every cell of `col` is filled.
    fn is_column_complete(&self, col: usize) -> (r: bool)
        requires
            self.wf(),
            col < 9,
        ensures
            r == col_full(self.spec_board().values(), col as int),
    {
        let mut row: usize = 0;
        while row < 9
            invariant
                self.wf(),
                col < 9,
                row <= 9,
                forall|r: int| 0 <= r < row ==> #[trigger] self.spec_board().values()[index_of(r, col as int)] != 0,
            decreases 9 - row,
        {
            if self.board.get_cell_value(row, col) == 0 {
                return false;
            }
            row += 1;
        }
        true
    }

    /// Whether every cell of the box holding `(row, col)` is filled.
    fn is_box_complete(&self, row: usize, col: usize) -> (r: bool)
        requires
            self.wf(),
            row < 9,
            col < 9,
        ensures
            r == box_full(self.spec_board().values(), row as int, col as int),
    {
        let box_row = (row / 3) * 3;
        let box_col = (col / 3) * 3;
        let mut i: usize = box_row;
        while i < box_row + 3
            invariant
                self.wf(),
                box_row == (row / 3) * 3,
                box_col == (col / 3) * 3,
                row < 9,
                col < 9,
                box_row <= i <= box_row + 3,
                forall|ii: int, jj: int|
                    box_row <= ii < i && box_col <= jj < box_col + 3 ==> #[trigger] self.spec_board().values()[index_of(ii, jj)] != 0,
            decreases box_row + 3 - i,
        {
            let mut j: usize = box_col;
            while j < box_col + 3
                invariant
                    self.wf(),
                    box_row == (row / 3) * 3,
                    box_col == (col / 3) * 3,
                    row < 9,
                    col < 9,
                    box_row <= i < box_row + 3,
                    box_col <= j <= box_col + 3,
                    forall|ii: int, jj: int|
                        box_row <= ii < i && box_col <= jj < box_col + 3 ==> #[trigger] self.spec_board().values()[index_of(ii, jj)] != 0,
                    forall|jj: int| box_col <= jj < j ==> #[trigger] self.spec_board().values()[index_of(i as int, jj)] != 0,
                decreases box_col + 3 - j,
            {
                if self.board.get_cell_value(i, j) == 0 {
                    return false;
                }
                j += 1;
            }
            i += 1;
        }
        true
    }
    /// Scores an accepted move on `(row, col)`: +1 and a bonus of 3 for each
    /// row, column or box it completes for the first time when `value` is
    /// the solution digit, -1 otherwise. Returns which of those it was.
    fn award_points(&mut self, row: usize, col: usize, value: u8) -> (r: (bool, bool, bool, bool))
        requires
            old(self).wf(),
            row < 9,
            col < 9,
        ensures
            final(self).wf(),
            final(self).spec_board() == old(self).spec_board(),
            final(self).spec_moves() == old(self).spec_moves(),
            final(self).spec_hints_used() == old(self).spec_hints_used(),
            r.0 == (old(self).spec_board().solution()[index_of(row as int, col as int)] == value),
            r.1 == (r.0 && row_full(old(self).spec_board().values(), row as int) && !old(self).rewarded().0[row as int]),
            r.2 == (r.0 && col_full(old(self).spec_board().values(), col as int) && !old(self).rewarded().1[col as int]),
            r.3 == (r.0 && box_full(old(self).spec_board().values(), row as int, col as int)
                && !old(self).rewarded().2[(row as int / 3) * 3 + col as int / 3]),
            final(self).rewarded() == (
                mark(old(self).rewarded().0, row as int, r.1),
                mark(old(self).rewarded().1, col as int, r.2),
                mark(old(self).rewarded().2, (row as int / 3) * 3 + col as int / 3, r.3),
            ),
            final(self).spec_score() == clamp(old(self).spec_score() + points(r.0, r.1, r.2, r.3)),
    {
        let correct = self.board.is_correct_value(row, col, value);
        if !correct {
            self.score = add_clamped(self.score, -1);
            return (false, false, false, false);
        }
        let mut bonus: i32 = 1;
        let row_done = self.is_row_complete(row) && !self.completed_rows[row];
        if row_done {
            bonus = bonus + 3;
            self.completed_rows.set(row, true);
        }
        let col_done = self.is_column_complete(col) && !self.completed_cols[col];
        if col_done {
            bonus = bonus + 3;
            self.completed_cols.set(col, true);
        }
        let box_idx = (row / 3) * 3 + col / 3;
        let box_done = self.is_box_complete(row, col) && !self.completed_boxes[box_idx];
        if box_done {
            bonus = bonus + 3;
            self.completed_boxes.set(box_idx, true);
        }
        self.score = add_clamped(self.score, bonus);
        (true, row_done, col_done, box_done)
    }

    /// Plays `value` on `(row, col)`: an accepted move is counted and scored,
    /// with 9 more points when it solves the board; a refused one costs a point.
    pub fn place(&mut self, row: usize, col: usize, value: u8) -> (r: Outcome)
        requires
            old(self).wf(),
        ensures
            final(self).wf(),
            placed(old(self), final(self), row, col, value, r),
    {
        if self.board.set(row, col, value) {
            if self.moves < u32::MAX {
                self.moves = self.moves + 1;
            }
            let (correct, row_done, col_done, box_done) = self.award_points(row, col, value);
            let solved = self.board.is_solved();
            if solved {
                self.score = add_clamped(self.score, 9);
            }
            Outcome::Placed { correct, row_done, col_done, box_done, solved }
        } else {
            self.score = add_clamped(self.score, -1);
            Outcome::Rejected
        }
    }

    /// Asks the board for a hint, while fewer than `MAX_HINTS` have been used.
    pub fn take_hint(&mut self) -> (r: Outcome)
        requires
            old(self).wf(),
        ensures
            final(self).wf(),
            hinted(old(self), final(self), r),
    {
        if self.hints_used >= MAX_HINTS {
            return Outcome::NoHintsLeft;
        }
        match self.board.hint() {
            Some((row, col, value)) => {
                self.hints_used = self.hints_used + 1;
                Outcome::Hinted(row, col, value)
            },
            None => Outcome::NothingToReveal,
        }
    }

    /// Replaces the board with a new one at `difficulty` and clears the score,
    /// the move count, the rewarded units and the hints used.
    pub fn start(&mut self, difficulty: u8) -> (r: Outcome)
        ensures
            final(self).wf(),
            final(self).fresh(),
            final(self).freshly_carved(difficulty),
            r == Outcome::Started(difficulty),
    {
        self.board = Board::new(difficulty);
        self.moves = 0;
        self.score = 0;
        self.hints_used = 0;
        self.completed_rows = Self::no_flags();
        self.completed_cols = Self::no_flags();
        self.completed_boxes = Self::no_flags();
        Outcome::Started(difficulty)
    }

    /// Carries out one command; quitting, help and unknown input change nothing.
    pub fn step(&mut self, cmd: Command) -> (r: Outcome)
        requires
            old(self).wf(),
        ensures
            final(self).wf(),
            match cmd {
                Command::Place(row, col, value) => placed(old(self), final(self), row, col, value, r),
                Command::Hint => hinted(old(self), final(self), r),
                Command::New(d) => final(self).fresh() && final(self).freshly_carved(d) && r == Outcome::Started(d),
                Command::Quit => *final(self) == *old(self) && r == Outcome::Quit,
                Command::Help => *final(self) == *old(self) && r == Outcome::Help,
                Command::Unknown => *final(self) == *old(self) && r == Outcome::Unknown,
            },
    {
        match cmd {
            Command::Place(row, col, value) => self.place(row, col, value),
            Command::Hint => self.take_hint(),
            Command::New(d) => self.start(d),
            Command::Quit => Outcome::Quit,
            Command::Help => Outcome::Help,
            Command::Unknown => Outcome::Unknown,
        }
    }
}

} // verus!
