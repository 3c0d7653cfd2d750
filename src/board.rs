//! The board: the player's grid of cells beside the solution it was carved from.

use crate::rules::{
    all_positions, carved,
    blank_count, col_of, index_of, complete, completes, consistent, given_count, in_grid, lemma_blank_count_clear,
    lemma_blank_count_fill, lemma_counts_full, lemma_given_count_clear, lemma_no_blanks, lemma_shifted_grid_valid, peers, placeable,
    removal, row_of, ruled_out, sees, shifted_grid, valid_solution, CELLS,
};
use crate::random::{below, shuffle, thread_rng};
use vstd::prelude::*;

verus! {

/// Side of the grid.
pub const SIZE: usize = 9;

/// Side of a box.
pub const BOX_SIZE: usize = 3;

/// One cell of the grid: a digit (0 when empty) and whether it is fixed.
#[derive(Clone, Copy)]
pub struct Cell {
    value: u8,
    given: bool,
}

/// A puzzle in play: 81 cells in row-major order and the solution they were carved from.
pub struct Board {
    cells: Vec<Cell>,
    solution: Vec<u8>,
}

/// A move on `(row, col)` with `value` is accepted: the coordinate is on the
/// grid, the cell is not fixed, and the value erases or may legally stand there.
pub open spec fn move_allowed(vals: Seq<u8>, given: Seq<bool>, row: int, col: int, value: u8) -> bool {
    &&& 0 <= row < 9
    &&& 0 <= col < 9
    &&& !given[index_of(row, col)]
    &&& (value == 0 || (value <= 9 && placeable(vals, row, col, value)))
}

/// `after` is `before` with the empty cell `(row, col)` filled with its
/// solution digit `value` and fixed; nothing else changed.
pub open spec fn revealed(before: &Board, after: &Board, row: int, col: int, value: u8) -> bool {
    &&& 0 <= row < 9
    &&& 0 <= col < 9
    &&& before.values()[index_of(row, col)] == 0
    &&& value == before.solution()[index_of(row, col)]
    &&& after.values() == before.values().update(index_of(row, col), value)
    &&& after.given() == before.given().update(index_of(row, col), true)
    &&& after.solution() == before.solution()
}

/// The empty cells among the first `n` of `vals`, as `(row, col)` in
/// row-major order.
pub open spec fn blanks_before(vals: Seq<u8>, n: int) -> Seq<(usize, usize)>
    decreases n,
{
    if n <= 0 {
        seq![]
    } else if vals[n - 1] == 0 {
        blanks_before(vals, n - 1).push((((n - 1) / 9) as usize, ((n - 1) % 9) as usize))
    } else {
        blanks_before(vals, n - 1)
    }
}

/// The empty cells of `vals`, as `(row, col)` in row-major order.
pub open spec fn blanks(vals: Seq<u8>) -> Seq<(usize, usize)> {
    blanks_before(vals, 81)
}

/// Every cell fixed in `before` is still fixed in `after`, with the same digit.
pub open spec fn keeps_fixed(before: &Board, after: &Board) -> bool {
    &&& after.solution() == before.solution()
    &&& forall|k: int|
        in_grid(k) && #[trigger] before.given()[k] ==> after.given()[k] && after.values()[k] == before.values()[k]
}

/// Every filled cell holds its solution digit.
pub open spec fn no_wrong_cell(b: &Board) -> bool {
    forall|k: int| in_grid(k) && #[trigger] b.values()[k] != 0 ==> b.values()[k] == b.solution()[k]
}

impl Board {
    /// The digits of the cells, row-major; 0 for an empty cell.
    pub closed spec fn values(&self) -> Seq<u8> {
        Seq::new(self.cells@.len(), |k: int| self.cells@[k].value)
    }

    /// Which cells are fixed, row-major.
    pub closed spec fn given(&self) -> Seq<bool> {
        Seq::new(self.cells@.len(), |k: int| self.cells@[k].given)
    }

    /// The solution, row-major.
    pub closed spec fn solution(&self) -> Seq<u8> {
        self.solution@
    }

    /// A board in play: a valid solution, digits up to 9 in every cell, and
    /// every fixed cell holding its solution digit.
    pub open spec fn wf(&self) -> bool {
        &&& self.values().len() == 81
        &&& self.given().len() == 81
        &&& valid_solution(self.solution())
        &&& forall|k: int| in_grid(k) ==> #[trigger] self.values()[k] <= 9
        &&& forall|k: int|
            in_grid(k) && #[trigger] self.given()[k] ==> self.values()[k] == self.solution()[k]
    }

    /// Every cell holds its solution digit.
    pub open spec fn solved(&self) -> bool {
        forall|k: int| in_grid(k) ==> #[trigger] self.values()[k] == self.solution()[k]
    }

    proof fn lemma_views(&self)
        ensures
            self.values().len() == self.cells@.len(),
            self.given().len() == self.cells@.len(),
            forall|k: int|
                0 <= k < self.cells@.len() ==> #[trigger] self.values()[k] == self.cells@[k].value
                    && self.given()[k] == self.cells@[k].given,
    {
    }

    /// Whether `value` occurs nowhere in row `row`, column `col`, or the box
    /// holding `(row, col)`, the cell itself included.
    pub fn is_valid(&self, row: usize, col: usize, value: u8) -> (r: bool)
        requires
            self.values().len() == 81,
            row < 9,
            col < 9,
        ensures
            r == placeable(self.values(), row as int, col as int, value),
    {
        proof {
            self.lemma_views();
        }
        let mut j: usize = 0;
        while j < SIZE
            invariant
                self.values().len() == 81,
                row < 9,
                j <= 9,
                forall|jj: int| 0 <= jj < j ==> self.values()[index_of(row as int, jj)] != value,
            decreases 9 - j,
        {
            if self.cells[row * SIZE + j].value == value {
                proof {
                    assert(sees(row as int, col as int, index_of(row as int, j as int)));
                }
                return false;
            }
            j += 1;
        }
        let mut i: usize = 0;
        while i < SIZE
            invariant
                self.values().len() == 81,
                col < 9,
                i <= 9,
                forall|ii: int| 0 <= ii < i ==> self.values()[index_of(ii, col as int)] != value,
            decreases 9 - i,
        {
            if self.cells[i * SIZE + col].value == value {
                proof {
                    assert(sees(row as int, col as int, index_of(i as int, col as int)));
                }
                return false;
            }
            i += 1;
        }
        let box_row = (row / BOX_SIZE) * BOX_SIZE;
        let box_col = (col / BOX_SIZE) * BOX_SIZE;
        let mut bi: usize = box_row;
        while bi < box_row + BOX_SIZE
            invariant
                self.values().len() == 81,
                box_row == (row / 3) * 3,
                box_col == (col / 3) * 3,
                row < 9,
                col < 9,
                box_row <= bi <= box_row + 3,
                forall|ii: int, jj: int|
                    box_row <= ii < bi && box_col <= jj < box_col + 3 ==> self.values()[index_of(ii, jj)] != value,
            decreases box_row + 3 - bi,
        {
            let mut bj: usize = box_col;
            while bj < box_col + BOX_SIZE
                invariant
                    self.values().len() == 81,
                    box_row == (row / 3) * 3,
                    box_col == (col / 3) * 3,
                    row < 9,
                    col < 9,
                    box_row <= bi < box_row + 3,
                    box_col <= bj <= box_col + 3,
                    forall|ii: int, jj: int|
                        box_row <= ii < bi && box_col <= jj < box_col + 3 ==> self.values()[index_of(ii, jj)] != value,
                    forall|jj: int| box_col <= jj < bj ==> self.values()[index_of(bi as int, jj)] != value,
                decreases box_col + 3 - bj,
            {
                if self.cells[bi * SIZE + bj].value == value {
                    proof {
                        let k = index_of(bi as int, bj as int);
                        assert(row_of(k) == bi && col_of(k) == bj);
                        assert(sees(row as int, col as int, k));
                    }
                    return false;
                }
                bj += 1;
            }
            bi += 1;
        }
        proof {
            assert forall|k: int| in_grid(k) && #[trigger] sees(row as int, col as int, k) implies self.values()[k] != value by {
                let r = row_of(k);
                let c = col_of(k);
                assert(k == index_of(r, c));
                if r == row {
                } else if c == col {
                } else {
                    assert(box_row <= r < box_row + 3);
                    assert(box_col <= c < box_col + 3);
                }
            }
        }
        true
    }
    /// Writes `cell` at index `k`.
    fn put(&mut self, k: usize, cell: Cell)
        requires
            k < old(self).cells@.len(),
        ensures
            final(self).values() == old(self).values().update(k as int, cell.value),
            final(self).given() == old(self).given().update(k as int, cell.given),
            final(self).solution() == old(self).solution(),
            final(self).cells@.len() == old(self).cells@.len(),
    {
        self.cells.set(k, cell);
        proof {
            assert(self.values() =~= old(self).values().update(k as int, cell.value));
            assert(self.given() =~= old(self).given().update(k as int, cell.given));
        }
    }

    /// Places `value` on `(row, col)`, or erases it when `value` is 0.
    ///
    /// Succeeds exactly when the coordinate is on the grid, the cell is not
    /// fixed, and `value` is 0 or a digit that `is_valid` accepts there; the
    /// check is against the grid as it stands, not the solution. On success
    /// only that cell's digit changes; otherwise nothing changes.
    pub fn set(&mut self, row: usize, col: usize, value: u8) -> (r: bool)
        requires
            old(self).wf(),
        ensures
            final(self).wf(),
            keeps_fixed(old(self), final(self)),
            r == move_allowed(old(self).values(), old(self).given(), row as int, col as int, value),
            r ==> final(self).values() == old(self).values().update(index_of(row as int, col as int), value),
            !r ==> final(self).values() == old(self).values(),
            final(self).given() == old(self).given(),
            final(self).solution() == old(self).solution(),
    {
        proof {
            self.lemma_views();
        }
        if row >= SIZE || col >= SIZE {
            return false;
        }
        let k = row * SIZE + col;
        if self.cells[k].given {
            return false;
        }
        if value == 0 {
            self.put(k, Cell { value: 0, given: false });
            return true;
        }
        if value > 9 {
            return false;
        }
        if !self.is_valid(row, col, value) {
            return false;
        }
        self.put(k, Cell { value, given: false });
        true
    }

    /// Whether every cell holds its solution digit.
    pub fn is_solved(&self) -> (r: bool)
        requires
            self.wf(),
        ensures
            r == self.solved(),
    {
        proof {
            self.lemma_views();
        }
        let mut k: usize = 0;
        while k < CELLS
            invariant
                self.wf(),
                k <= 81,
                forall|kk: int| 0 <= kk < k ==> self.values()[kk] == self.solution()[kk],
            decreases 81 - k,
        {
            if self.cells[k].value != self.solution[k] {
                proof {
                    self.lemma_views();
                    assert(self.values()[k as int] != self.solution()[k as int]);
                }
                return false;
            }
            k += 1;
        }
        true
    }

    /// The digit on `(row, col)`; 0 when the cell is empty.
    pub fn get_cell_value(&self, row: usize, col: usize) -> (r: u8)
        requires
            self.values().len() == 81,
            row < 9,
            col < 9,
        ensures
            r == self.values()[index_of(row as int, col as int)],
    {
        proof {
            self.lemma_views();
        }
        self.cells[row * SIZE + col].value
    }

    /// Whether `(row, col)` is fixed.
    pub fn is_given(&self, row: usize, col: usize) -> (r: bool)
        requires
            self.given().len() == 81,
            row < 9,
            col < 9,
        ensures
            r == self.given()[index_of(row as int, col as int)],
    {
        proof {
            self.lemma_views();
        }
        self.cells[row * SIZE + col].given
    }

    /// Whether `value` is the solution digit on `(row, col)`.
    pub fn is_correct_value(&self, row: usize, col: usize, value: u8) -> (r: bool)
        requires
            self.wf(),
            row < 9,
            col < 9,
        ensures
            r == (self.solution()[index_of(row as int, col as int)] == value),
    {
        self.solution[row * SIZE + col] == value
    }
    /// Fills every empty cell from `start` on by depth-first search in
    /// row-major order, trying the digits of each cell in a random order.
    ///
    /// The search is exhaustive: it fails only when no valid solution keeps
    /// the filled cells, and then leaves the grid as it found it.
    fn solve_empty_board(&mut self, start: usize, rng: &mut rand::rngs::ThreadRng) -> (ok: bool)
        requires
            old(self).values().len() == 81,
            start <= 81,
            forall|k: int| in_grid(k) ==> #[trigger] old(self).values()[k] <= 9,
            consistent(old(self).values()),
            forall|k: int| 0 <= k < start ==> #[trigger] old(self).values()[k] != 0,
        ensures
            final(self).given() == old(self).given(),
            final(self).solution() == old(self).solution(),
            ok ==> completes(final(self).values(), old(self).values()),
            !ok ==> final(self).values() == old(self).values(),
            !ok ==> forall|s: Seq<u8>| !#[trigger] completes(s, old(self).values()),
        decreases 81 - start,
    {
        proof {
            self.lemma_views();
        }
        let ghost g0 = self.values();
        let mut p: usize = start;
        while p < CELLS && self.cells[p].value != 0
            invariant
                self.values() == g0,
                self.values().len() == 81,
                self.cells@.len() == 81,
                start <= p <= 81,
                forall|k: int| 0 <= k < p ==> #[trigger] g0[k] != 0,
            decreases 81 - p,
        {
            proof {
                self.lemma_views();
            }
            p += 1;
        }
        if p == CELLS {
            proof {
                assert(complete(g0));
            }
            return true;
        }
        proof {
            self.lemma_views();
        }
        let row = p / SIZE;
        let col = p % SIZE;
        assert(index_of(row as int, col as int) == p);
        let mut candidates: Vec<u8> = vec![1, 2, 3, 4, 5, 6, 7, 8, 9];
        let ghost digits = candidates@;
        shuffle(&mut candidates, rng);
        proof {
            broadcast use vstd::seq_lib::group_to_multiset_ensures;

            assert(candidates@.to_multiset().len() == digits.to_multiset().len());
            assert(candidates@.len() == digits.len());
        }
        let mut i: usize = 0;
        while i < candidates.len()
            invariant
                self.values() == g0,
                self.given() == old(self).given(),
                self.solution() == old(self).solution(),
                g0 == old(self).values(),
                g0.len() == 81,
                forall|k: int| in_grid(k) ==> #[trigger] g0[k] <= 9,
                consistent(g0),
                forall|k: int| 0 <= k < p ==> #[trigger] g0[k] != 0,
                start <= p < 81,
                g0[p as int] == 0,
                row == p / 9,
                col == p % 9,
                index_of(row as int, col as int) == p,
                digits == seq![1u8, 2, 3, 4, 5, 6, 7, 8, 9],
                candidates@.to_multiset() == digits.to_multiset(),
                forall|j: int| 0 <= j < i ==> ruled_out(g0, p as int, #[trigger] candidates@[j]),
            decreases candidates.len() - i,
        {
            let value = candidates[i];
            proof {
                broadcast use vstd::seq_lib::group_to_multiset_ensures;

                assert(candidates@.contains(value));
                assert(candidates@.to_multiset().count(value) == digits.to_multiset().count(value));
                assert(digits.contains(value));
                assert(1 <= value <= 9);
            }
            if self.is_valid(row, col, value) {
                let given = self.cells[p].given;
                self.put(p, Cell { value, given });
                proof {
                    let g1 = self.values();
                    assert(self.given() =~= old(self).given());
                    assert(g1 == g0.update(p as int, value));
                    assert forall|a: int, b: int|
                        in_grid(a) && in_grid(b) && #[trigger] peers(a, b) && g1[a] != 0 implies g1[a] != g1[b] by {
                        if a == p {
                            assert(sees(row as int, col as int, b));
                        } else if b == p {
                            assert(sees(row as int, col as int, a));
                        }
                    }
                }
                if self.solve_empty_board(p + 1, rng) {
                    proof {
                        assert forall|k: int| in_grid(k) && #[trigger] g0[k] != 0 implies self.values()[k] == g0[k] by {
                            assert(g0.update(p as int, value)[k] != 0);
                        }
                    }
                    return true;
                }
                self.put(p, Cell { value: 0, given });
                proof {
                    let g1 = g0.update(p as int, value);
                    assert(self.values() =~= g0);
                    assert(self.given() =~= old(self).given());
                    assert forall|s: Seq<u8>| #[trigger] completes(s, g0) implies s[p as int] != value by {
                        if s[p as int] == value {
                            assert forall|k: int| in_grid(k) && #[trigger] g1[k] != 0 implies s[k] == g1[k] by {
                                if k != p {
                                    assert(g0[k] != 0);
                                }
                            }
                            assert(completes(s, g1));
                        }
                    }
                }
            } else {
                proof {
                    let k = choose|k: int| in_grid(k) && #[trigger] sees(row as int, col as int, k) && g0[k] == value;
                    assert(peers(p as int, k));
                    assert forall|s: Seq<u8>| #[trigger] completes(s, g0) implies s[p as int] != value by {
                        assert(s[k] == g0[k]);
                        assert(1 <= s[p as int]);
                    }
                }
            }
            i += 1;
        }
        proof {
            broadcast use vstd::seq_lib::group_to_multiset_ensures;

            assert forall|s: Seq<u8>| !#[trigger] completes(s, g0) by {
                if completes(s, g0) {
                    let d = s[p as int];
                    assert(1 <= d <= 9);
                    assert(digits[d - 1] == d);
                    assert(digits.contains(d));
                    assert(candidates@.to_multiset().count(d) == digits.to_multiset().count(d));
                    assert(candidates@.contains(d));
                    let j = choose|j: int| 0 <= j < candidates@.len() && candidates@[j] == d;
                    assert(ruled_out(g0, p as int, candidates@[j]));
                }
            }
        }
        false
    }
    /// Fills the empty grid and keeps the result as the solution.
    fn generate(&mut self, rng: &mut rand::rngs::ThreadRng)
        requires
            old(self).values().len() == 81,
            old(self).solution().len() == 81,
            forall|k: int| in_grid(k) ==> #[trigger] old(self).values()[k] == 0,
        ensures
            final(self).values().len() == 81,
            final(self).given() == old(self).given(),
            valid_solution(final(self).solution()),
            final(self).values() == final(self).solution(),
    {
        let ghost g0 = self.values();
        let ok = self.solve_empty_board(0, rng);
        proof {
            if !ok {
                lemma_shifted_grid_valid();
                assert(completes(shifted_grid(), g0));
            }
            self.lemma_views();
        }
        let mut k: usize = 0;
        while k < CELLS
            invariant
                completes(self.values(), g0),
                self.values().len() == 81,
                self.cells@.len() == 81,
                self.solution@.len() == 81,
                self.given() == old(self).given(),
                k <= 81,
                forall|kk: int| 0 <= kk < k ==> #[trigger] self.solution@[kk] == self.values()[kk],
            decreases 81 - k,
        {
            proof {
                self.lemma_views();
            }
            let v = self.cells[k].value;
            self.solution.set(k, v);
            k += 1;
        }
        proof {
            assert(self.solution@ =~= self.values());
        }
    }

    /// Carves a puzzle out of the solution, blanking the cells at the first
    /// `removal(difficulty)` positions of a random order of all 81.
    fn create_puzzle(&mut self, difficulty: u8, rng: &mut rand::rngs::ThreadRng)
        requires
            old(self).values().len() == 81,
            valid_solution(old(self).solution()),
        ensures
            final(self).wf(),
            final(self).solution() == old(self).solution(),
            blank_count(final(self).values()) == removal(difficulty),
            given_count(final(self).given()) == 81 - removal(difficulty),
            forall|k: int| in_grid(k) ==> (#[trigger] final(self).given()[k] <==> final(self).values()[k] != 0),
    {
        let mut positions: Vec<u8> = Vec::new();
        let mut p: u8 = 0;
        while p < 81
            invariant
                p <= 81,
                positions@.len() == p,
                forall|j: int| 0 <= j < p ==> #[trigger] positions@[j] == j,
            decreases 81 - p,
        {
            positions.push(p);
            p += 1;
        }
        proof {
            assert(positions@ =~= all_positions());
        }
        shuffle(&mut positions, rng);
        self.carve(&positions, difficulty);
    }

    /// Copies the solution into the grid as fixed cells, then empties the
    /// cells at the first `removal(difficulty)` entries of `positions`, an
    /// order of the 81 row-major indices.
    pub fn carve(&mut self, positions: &Vec<u8>, difficulty: u8)
        requires
            old(self).values().len() == 81,
            valid_solution(old(self).solution()),
            positions@.to_multiset() == all_positions().to_multiset(),
        ensures
            final(self).wf(),
            final(self).solution() == old(self).solution(),
            forall|k: int|
                in_grid(k) ==> if carved(positions@, difficulty, k) {
                    #[trigger] final(self).values()[k] == 0 && !final(self).given()[k]
                } else {
                    final(self).values()[k] == final(self).solution()[k] && final(self).given()[k]
                },
            blank_count(final(self).values()) == removal(difficulty),
            given_count(final(self).given()) == 81 - removal(difficulty),
            forall|k: int| in_grid(k) ==> (#[trigger] final(self).given()[k] <==> final(self).values()[k] != 0),
    {
        proof {
            self.lemma_views();
        }
        let cells_to_remove: usize = if difficulty == 1 {
            30
        } else if difficulty == 2 {
            45
        } else {
            55
        };
        let ghost ordered = all_positions();
        proof {
            broadcast use vstd::seq_lib::group_to_multiset_ensures;

            assert(ordered.no_duplicates());
            ordered.lemma_multiset_has_no_duplicates();
            assert forall|x: u8| positions@.to_multiset().contains(x) implies positions@.to_multiset().count(x) == 1 by {
                assert(ordered.to_multiset().count(x) == positions@.to_multiset().count(x));
            }
            positions@.lemma_multiset_has_no_duplicates_conv();
            assert(positions@.to_multiset().len() == ordered.to_multiset().len());
            assert forall|j: int| 0 <= j < 81 implies #[trigger] positions@[j] < 81 by {
                let x = positions@[j];
                assert(positions@.contains(x));
                assert(ordered.to_multiset().count(x) == positions@.to_multiset().count(x));
                assert(ordered.contains(x));
            }
        }
        let mut k: usize = 0;
        while k < CELLS
            invariant
                self.values().len() == 81,
                self.given().len() == 81,
                self.cells@.len() == 81,
                self.solution() == old(self).solution(),
                valid_solution(self.solution()),
                k <= 81,
                forall|kk: int| 0 <= kk < k ==> #[trigger] self.values()[kk] == self.solution()[kk],
                forall|kk: int| 0 <= kk < k ==> #[trigger] self.given()[kk],
            decreases 81 - k,
        {
            let v = self.solution[k];
            self.put(k, Cell { value: v, given: true });
            k += 1;
        }
        proof {
            lemma_counts_full(self.values(), self.given());
        }
        let mut t: usize = 0;
        while t < cells_to_remove
            invariant
                cells_to_remove == removal(difficulty),
                t <= cells_to_remove,
                self.values().len() == 81,
                self.given().len() == 81,
                self.cells@.len() == 81,
                self.solution() == old(self).solution(),
                valid_solution(self.solution()),
                positions@.len() == 81,
                positions@.no_duplicates(),
                forall|j: int| 0 <= j < 81 ==> #[trigger] positions@[j] < 81,
                forall|kk: int| in_grid(kk) ==> (#[trigger] self.given()[kk] <==> self.values()[kk] != 0),
                forall|kk: int| in_grid(kk) && #[trigger] self.given()[kk] ==> self.values()[kk] == self.solution()[kk],
                forall|kk: int| in_grid(kk) ==> #[trigger] self.values()[kk] <= 9,
                forall|j: int| t <= j < 81 ==> #[trigger] self.given()[positions@[j] as int],
                forall|kk: int|
                    in_grid(kk) ==> if positions@.subrange(0, t as int).contains(kk as u8) {
                        #[trigger] self.values()[kk] == 0 && !self.given()[kk]
                    } else {
                        self.values()[kk] == self.solution()[kk] && self.given()[kk]
                    },
                blank_count(self.values()) == t,
                given_count(self.given()) == 81 - t,
            decreases cells_to_remove - t,
        {
            let k = positions[t] as usize;
            proof {
                assert(self.given()[k as int]);
                lemma_blank_count_clear(self.values(), k as int);
                lemma_given_count_clear(self.given(), k as int);
            }
            self.put(k, Cell { value: 0, given: false });
            proof {
                assert forall|j: int| t + 1 <= j < 81 implies #[trigger] self.given()[positions@[j] as int] by {
                    assert(positions@[j] != positions@[t as int]);
                }
                let before = positions@.subrange(0, t as int);
                let after = positions@.subrange(0, t + 1);
                assert(after =~= before.push(positions@[t as int]));
                assert forall|kk: int| in_grid(kk) implies (after.contains(kk as u8) <==> (before.contains(kk as u8) || kk == k)) by {
                    if after.contains(kk as u8) {
                        let j = choose|j: int| 0 <= j < after.len() && after[j] == kk as u8;
                        if j < t {
                            assert(before[j] == kk as u8);
                        }
                    }
                    if before.contains(kk as u8) {
                        let j = choose|j: int| 0 <= j < before.len() && before[j] == kk as u8;
                        assert(after[j] == kk as u8);
                    }
                    if kk == k {
                        assert(after[t as int] == kk as u8);
                    }
                }
            }
            t += 1;
        }
        proof {
            assert(positions@.subrange(0, t as int) == positions@.subrange(0, removal(difficulty) as int));
        }
    }

    /// A new puzzle: a random valid solution, with `removal(difficulty)`
    /// cells emptied (30 for difficulty 1, 45 for 2, 55 for any other) and
    /// every other cell fixed at its solution digit.
    pub fn new(difficulty: u8) -> (r: Board)
        ensures
            r.wf(),
            no_wrong_cell(&r),
            blank_count(r.values()) == removal(difficulty),
            given_count(r.given()) == 81 - removal(difficulty),
            forall|k: int| in_grid(k) ==> (#[trigger] r.given()[k] <==> r.values()[k] != 0),
    {
        let mut cells: Vec<Cell> = Vec::new();
        let mut solution: Vec<u8> = Vec::new();
        let mut k: usize = 0;
        while k < CELLS
            invariant
                k <= 81,
                cells@.len() == k,
                solution@.len() == k,
                forall|kk: int| 0 <= kk < k ==> #[trigger] cells@[kk].value == 0,
            decreases 81 - k,
        {
            cells.push(Cell { value: 0, given: false });
            solution.push(0);
            k += 1;
        }
        let mut board = Board { cells, solution };
        let mut rng = thread_rng();
        board.generate(&mut rng);
        board.create_puzzle(difficulty, &mut rng);
        proof {
            assert forall|k: int| in_grid(k) && #[trigger] board.values()[k] != 0 implies board.values()[k]
                == board.solution()[k] by {
                assert(board.given()[k]);
            }
        }
        board
    }
    /// The empty cells as `(row, col)`, in row-major order.
    pub fn empty_cells(&self) -> (r: Vec<(usize, usize)>)
        requires
            self.values().len() == 81,
        ensures
            r@ == blanks(self.values()),
            forall|i: int|
                0 <= i < r@.len() ==> {
                    let (row, col) = #[trigger] r@[i];
                    row < 9 && col < 9 && self.values()[index_of(row as int, col as int)] == 0
                },
            forall|i: int, j: int|
                0 <= i < j < r@.len() ==> index_of(r@[i].0 as int, r@[i].1 as int) < index_of(
                    r@[j].0 as int,
                    r@[j].1 as int,
                ),
            forall|k: int|
                in_grid(k) && #[trigger] self.values()[k] == 0 ==> r@.contains(
                    ((k / 9) as usize, (k % 9) as usize),
                ),
    {
        proof {
            self.lemma_views();
        }
        let mut out: Vec<(usize, usize)> = Vec::new();
        let mut k: usize = 0;
        while k < CELLS
            invariant
                self.values().len() == 81,
                self.cells@.len() == 81,
                k <= 81,
                out@ == blanks_before(self.values(), k as int),
                forall|i: int|
                    0 <= i < out@.len() ==> {
                        let (row, col) = #[trigger] out@[i];
                        row < 9 && col < 9 && self.values()[index_of(row as int, col as int)] == 0
                            && index_of(row as int, col as int) < k
                    },
                forall|i: int, j: int|
                    0 <= i < j < out@.len() ==> index_of(out@[i].0 as int, out@[i].1 as int)
                        < index_of(out@[j].0 as int, out@[j].1 as int),
                forall|kk: int|
                    0 <= kk < k && #[trigger] self.values()[kk] == 0 ==> out@.contains(
                        ((kk / 9) as usize, (kk % 9) as usize),
                    ),
            decreases 81 - k,
        {
            proof {
                self.lemma_views();
            }
            if self.cells[k].value == 0 {
                let ghost before = out@;
                out.push((k / SIZE, k % SIZE));
                proof {
                    assert forall|kk: int|
                        0 <= kk < k + 1 && #[trigger] self.values()[kk] == 0 implies out@.contains(
                        ((kk / 9) as usize, (kk % 9) as usize),
                    ) by {
                        if kk == k {
                            assert(out@[before.len() as int] == ((kk / 9) as usize, (kk % 9) as usize));
                        } else {
                            let i = choose|i: int| 0 <= i < before.len() && before[i] == ((kk / 9) as usize, (kk % 9) as usize);
                            assert(out@[i] == before[i]);
                        }
                    }
                }
            }
            k += 1;
        }
        out
    }

    /// Fills the empty cell `(row, col)` with its solution digit and fixes
    /// it, returning that digit; `None`, with nothing changed, when the
    /// coordinate is off the grid or the cell is not empty.
    pub fn reveal_cell(&mut self, row: usize, col: usize) -> (r: Option<u8>)
        requires
            old(self).wf(),
        ensures
            final(self).wf(),
            keeps_fixed(old(self), final(self)),
            r is None <==> !(row < 9 && col < 9 && old(self).values()[index_of(row as int, col as int)] == 0),
            r is None ==> final(self).values() == old(self).values() && final(self).given() == old(self).given()
                && final(self).solution() == old(self).solution(),
            r matches Some(v) ==> revealed(old(self), final(self), row as int, col as int, v),
    {
        proof {
            self.lemma_views();
        }
        if row >= SIZE || col >= SIZE {
            return None;
        }
        let k = row * SIZE + col;
        if self.cells[k].value != 0 {
            return None;
        }
        let value = self.solution[k];
        self.put(k, Cell { value, given: true });
        Some(value)
    }

    /// Reveals the empty cell at position `pick` of `empty_cells()` with its
    /// solution digit and fixes it; returns its coordinate and digit, or
    /// `None`, with nothing changed, when there are no more than `pick`
    /// empty cells.
    pub fn hint_at(&mut self, pick: usize) -> (r: Option<(usize, usize, u8)>)
        requires
            old(self).wf(),
        ensures
            final(self).wf(),
            keeps_fixed(old(self), final(self)),
            r is None <==> pick >= blanks(old(self).values()).len(),
            r is None ==> final(self).values() == old(self).values() && final(self).given() == old(self).given()
                && final(self).solution() == old(self).solution(),
            r matches Some((row, col, v)) ==> (row, col) == blanks(old(self).values())[pick as int]
                && revealed(old(self), final(self), row as int, col as int, v),
    {
        let empty = self.empty_cells();
        if pick >= empty.len() {
            return None;
        }
        let (row, col) = empty[pick];
        match self.reveal_cell(row, col) {
            Some(value) => Some((row, col, value)),
            None => None,
        }
    }

    /// Reveals one empty cell, chosen at random, with its solution digit and
    /// fixes it; returns its coordinate and digit, or `None`, with nothing
    /// changed, when no cell is empty.
    pub fn hint(&mut self) -> (r: Option<(usize, usize, u8)>)
        requires
            old(self).wf(),
        ensures
            final(self).wf(),
            keeps_fixed(old(self), final(self)),
            r is None <==> forall|k: int| in_grid(k) ==> #[trigger] old(self).values()[k] != 0,
            r is None ==> final(self).values() == old(self).values() && final(self).given() == old(self).given()
                && final(self).solution() == old(self).solution(),
            r matches Some((row, col, v)) ==> blanks(old(self).values()).contains((row, col))
                && revealed(old(self), final(self), row as int, col as int, v),
    {
        let empty = self.empty_cells();
        if empty.len() == 0 {
            proof {
                assert forall|k: int| in_grid(k) implies #[trigger] self.values()[k] != 0 by {
                    if self.values()[k] == 0 {
                        assert(empty@.contains(((k / 9) as usize, (k % 9) as usize)));
                    }
                }
            }
            return None;
        }
        let mut rng = thread_rng();
        let pick = below(&mut rng, empty.len());
        self.hint_at(pick)
    }
}

/// A hint never picks a fixed cell, and the cell it reveals stays fixed:
/// no later move on it is accepted, whatever its value.
pub proof fn lemma_hint_fixes_cell(before: &Board, after: &Board, row: int, col: int, v: u8, value: u8)
    requires
        before.wf(),
        revealed(before, after, row, col, v),
    ensures
        !before.given()[index_of(row, col)],
        after.given()[index_of(row, col)],
        !move_allowed(after.values(), after.given(), row, col, value),
{
    let k = index_of(row, col);
    assert(in_grid(k));
    if before.given()[k] {
        assert(before.values()[k] == before.solution()[k]);
    }
}

/// Erasing a cell that is not fixed is always accepted, whatever it held.
pub proof fn lemma_erase_accepted(b: &Board, row: int, col: int)
    requires
        b.wf(),
        0 <= row < 9,
        0 <= col < 9,
        !b.given()[index_of(row, col)],
    ensures
        move_allowed(b.values(), b.given(), row, col, 0),
{
}

/// No move on a fixed cell is accepted (and a refused move changes nothing).
pub proof fn lemma_given_cell_refuses(b: &Board, row: int, col: int, value: u8)
    requires
        b.wf(),
        b.given()[index_of(row, col)],
    ensures
        !move_allowed(b.values(), b.given(), row, col, value),
{
}

/// On a cell that is not fixed, a digit from 1 to 9 is accepted exactly
/// when the validator accepts it on the grid as it stands.
pub proof fn lemma_move_follows_validator(b: &Board, row: int, col: int, value: u8)
    requires
        b.wf(),
        0 <= row < 9,
        0 <= col < 9,
        !b.given()[index_of(row, col)],
        1 <= value <= 9,
    ensures
        move_allowed(b.values(), b.given(), row, col, value) == placeable(b.values(), row, col, value),
{
}

/// Cells stay fixed along any run of moves and hints: the relation chains.
pub proof fn lemma_keeps_fixed_chain(b0: &Board, b1: &Board, b2: &Board)
    requires
        keeps_fixed(b0, b1),
        keeps_fixed(b1, b2),
    ensures
        keeps_fixed(b0, b2),
{
}

/// A cell fixed at some point (given, or revealed by a hint) stays fixed
/// through any later moves and hints: it keeps its digit, no move on it is
/// accepted, and no hint can pick it again.
pub proof fn lemma_fixed_for_good(b0: &Board, b1: &Board, row: int, col: int, value: u8)
    requires
        b1.wf(),
        keeps_fixed(b0, b1),
        0 <= row < 9,
        0 <= col < 9,
        b0.given()[index_of(row, col)],
    ensures
        b1.given()[index_of(row, col)],
        b1.values()[index_of(row, col)] == b0.values()[index_of(row, col)],
        !move_allowed(b1.values(), b1.given(), row, col, value),
        !blanks(b1.values()).contains((row as usize, col as usize)),
{
    let k = index_of(row, col);
    assert(in_grid(k));
    assert(b1.values()[k] == b1.solution()[k]);
    lemma_blanks_are_empty(b1.values(), 81);
    if blanks(b1.values()).contains((row as usize, col as usize)) {
        let i = choose|i: int| 0 <= i < blanks(b1.values()).len() && blanks(b1.values())[i] == (row as usize, col as usize);
        assert(b1.values()[index_of(blanks(b1.values())[i].0 as int, blanks(b1.values())[i].1 as int)] == 0);
    }
}

proof fn lemma_blanks_are_empty(vals: Seq<u8>, n: int)
    requires
        0 <= n <= 81,
    ensures
        forall|i: int|
            0 <= i < blanks_before(vals, n).len() ==> {
                let (r, c) = #[trigger] blanks_before(vals, n)[i];
                r < 9 && c < 9 && vals[index_of(r as int, c as int)] == 0
            },
    decreases n,
{
    if n > 0 {
        lemma_blanks_are_empty(vals, n - 1);
        let m = n - 1;
        let prev = blanks_before(vals, m);
        assert(index_of(m / 9, m % 9) == m);
        if vals[m] == 0 {
            let cur = prev.push(((m / 9) as usize, (m % 9) as usize));
            assert(blanks_before(vals, n) == cur);
            assert forall|i: int| 0 <= i < cur.len() implies {
                let (r, c) = #[trigger] cur[i];
                r < 9 && c < 9 && vals[index_of(r as int, c as int)] == 0
            } by {
                if i < prev.len() {
                    assert(cur[i] == prev[i]);
                }
            }
        } else {
            assert(blanks_before(vals, n) == prev);
        }
    }
}

/// Each hint empties the blank count by exactly one, so from `m` blanks
/// exactly `m` hints succeed, on distinct cells, and the next returns `None`.
pub proof fn lemma_hint_uses_one_blank(before: &Board, after: &Board, row: int, col: int, v: u8)
    requires
        before.wf(),
        revealed(before, after, row, col, v),
    ensures
        blank_count(after.values()) + 1 == blank_count(before.values()),
        blank_count(before.values()) == 0 <==> forall|k: int| in_grid(k) ==> #[trigger] before.values()[k] != 0,
{
    let k = index_of(row, col);
    assert(in_grid(k));
    assert(before.solution()[k] != 0);
    lemma_blank_count_fill(before.values(), k, v);
    lemma_no_blanks(before.values());
}

/// A board whose filled cells all hold their solution digit is solved
/// exactly when no cell is empty; filling one empty cell with its solution
/// digit is accepted, keeps every filled cell right, and leaves one blank
/// fewer. So filling the blanks correctly in any order solves the board at
/// the last fill and not before.
pub proof fn lemma_correct_fill(b: &Board, row: int, col: int)
    requires
        b.wf(),
        no_wrong_cell(b),
        0 <= row < 9,
        0 <= col < 9,
        b.values()[index_of(row, col)] == 0,
    ensures
        b.solved() <==> blank_count(b.values()) == 0,
        move_allowed(b.values(), b.given(), row, col, b.solution()[index_of(row, col)]),
        blank_count(b.values().update(index_of(row, col), b.solution()[index_of(row, col)])) + 1
            == blank_count(b.values()),
        forall|k: int|
            in_grid(k) && #[trigger] b.values().update(index_of(row, col), b.solution()[index_of(row, col)])[k]
                != 0 ==> b.values().update(index_of(row, col), b.solution()[index_of(row, col)])[k]
                == b.solution()[k],
{
    let p = index_of(row, col);
    let s = b.solution();
    let vals = b.values();
    let v = s[p];
    assert(in_grid(p));
    assert(1 <= v <= 9);
    if b.given()[p] {
        assert(vals[p] == s[p]);
    }
    assert forall|k: int| in_grid(k) && #[trigger] sees(row, col, k) implies vals[k] != v by {
        if k != p && vals[k] != 0 {
            assert(peers(p, k));
            assert(vals[k] == s[k]);
        }
    }
    lemma_blank_count_fill(vals, p, v);
    lemma_no_blanks(vals);
    if blank_count(vals) == 0 {
        assert forall|k: int| in_grid(k) implies #[trigger] vals[k] == s[k] by {
            assert(vals[k] != 0);
        }
    }
}

} // verus!
