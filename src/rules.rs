//! The mathematical model of a 9×9 grid, stored row-major as 81 digits,
//! where 0 stands for an empty cell.

use vstd::prelude::*;

verus! {

/// Number of cells in a grid.
pub const CELLS: usize = 81;

/// Row-major index of `(row, col)`.
pub open spec fn index_of(row: int, col: int) -> int {
    row * 9 + col
}

/// Row of the cell at row-major index `k`.
pub open spec fn row_of(k: int) -> int {
    k / 9
}

/// Column of the cell at row-major index `k`.
pub open spec fn col_of(k: int) -> int {
    k % 9
}

/// Box (0..9, row-major over the boxes) of the cell at row-major index `k`.
pub open spec fn box_of(k: int) -> int {
    (row_of(k) / 3) * 3 + col_of(k) / 3
}

pub open spec fn in_grid(k: int) -> bool {
    0 <= k < 81
}

/// Two distinct cells that share a row, a column or a box.
pub open spec fn peers(i: int, j: int) -> bool {
    i != j && (row_of(i) == row_of(j) || col_of(i) == col_of(j) || box_of(i) == box_of(j))
}

/// Cell `k` lies in row `r`, in column `c`, or in the box that holds `(r, c)`.
pub open spec fn sees(r: int, c: int, k: int) -> bool {
    row_of(k) == r || col_of(k) == c || box_of(k) == (r / 3) * 3 + c / 3
}

/// `v` occurs nowhere in row `r`, column `c` or the box of `(r, c)`.
pub open spec fn placeable(vals: Seq<u8>, r: int, c: int, v: u8) -> bool {
    forall|k: int| in_grid(k) && #[trigger] sees(r, c, k) ==> vals[k] != v
}

/// No filled cell shares its digit with one of its peers.
pub open spec fn consistent(vals: Seq<u8>) -> bool {
    forall|i: int, j: int|
        in_grid(i) && in_grid(j) && #[trigger] peers(i, j) && vals[i] != 0 ==> vals[i] != vals[j]
}

/// Every cell holds a digit from 1 to 9.
pub open spec fn complete(vals: Seq<u8>) -> bool {
    forall|k: int| in_grid(k) ==> 1 <= #[trigger] vals[k] <= 9
}

/// Every cell holds a digit, and no digit repeats in a row, a column or a box.
pub open spec fn valid_solution(s: Seq<u8>) -> bool {
    s.len() == 81 && complete(s) && consistent(s)
}

/// `s` keeps the digit of every filled cell of `g`.
pub open spec fn extends(s: Seq<u8>, g: Seq<u8>) -> bool {
    forall|k: int| in_grid(k) && #[trigger] g[k] != 0 ==> s[k] == g[k]
}

/// `s` is a valid solution that keeps every filled cell of `g`.
pub open spec fn completes(s: Seq<u8>, g: Seq<u8>) -> bool {
    valid_solution(s) && extends(s, g)
}

/// No valid solution that keeps the filled cells of `g` holds `v` on cell `p`.
pub open spec fn ruled_out(g: Seq<u8>, p: int, v: u8) -> bool {
    forall|s: Seq<u8>| #[trigger] completes(s, g) ==> s[p] != v
}

/// Number of indices in `0..n` where `f` holds.
pub open spec fn count_where(n: nat, f: spec_fn(int) -> bool) -> nat
    decreases n,
{
    if n == 0 {
        0
    } else {
        count_where((n - 1) as nat, f) + if f(n - 1) {
            1nat
        } else {
            0nat
        }
    }
}

/// Number of empty cells.
pub open spec fn blank_count(vals: Seq<u8>) -> nat {
    count_where(81, |k: int| vals[k] == 0)
}

/// Number of fixed cells.
pub open spec fn given_count(given: Seq<bool>) -> nat {
    count_where(81, |k: int| given[k])
}

/// Cells blanked for a difficulty: 30 for 1, 45 for 2, 55 for any other.
pub open spec fn removal(difficulty: u8) -> nat {
    if difficulty == 1 {
        30
    } else if difficulty == 2 {
        45
    } else {
        55
    }
}

/// The row-major indices `0..81` in order.
pub open spec fn all_positions() -> Seq<u8> {
    Seq::new(81, |i: int| i as u8)
}

/// Cell `k` is among the first `removal(difficulty)` entries of `positions`.
pub open spec fn carved(positions: Seq<u8>, difficulty: u8, k: int) -> bool {
    positions.subrange(0, removal(difficulty) as int).contains(k as u8)
}

proof fn lemma_count_same(n: nat, f: spec_fn(int) -> bool, g: spec_fn(int) -> bool)
    requires
        forall|k: int| 0 <= k < n ==> #[trigger] f(k) == g(k),
    ensures
        count_where(n, f) == count_where(n, g),
    decreases n,
{
    if n > 0 {
        lemma_count_same((n - 1) as nat, f, g);
    }
}

proof fn lemma_count_gain(n: nat, f: spec_fn(int) -> bool, g: spec_fn(int) -> bool, m: int)
    requires
        0 <= m < n,
        !f(m),
        g(m),
        forall|k: int| 0 <= k < n && k != m ==> #[trigger] f(k) == g(k),
    ensures
        count_where(n, g) == count_where(n, f) + 1,
    decreases n,
{
    if m == n - 1 {
        lemma_count_same((n - 1) as nat, f, g);
    } else {
        lemma_count_gain((n - 1) as nat, f, g, m);
    }
}

/// Counts of a predicate and of its negation add up to `n`.
proof fn lemma_count_complement(n: nat, f: spec_fn(int) -> bool, g: spec_fn(int) -> bool)
    requires
        forall|k: int| 0 <= k < n ==> #[trigger] g(k) == !f(k),
    ensures
        count_where(n, f) + count_where(n, g) == n,
    decreases n,
{
    if n > 0 {
        lemma_count_complement((n - 1) as nat, f, g);
    }
}

proof fn lemma_count_none(n: nat, f: spec_fn(int) -> bool)
    requires
        forall|k: int| 0 <= k < n ==> !#[trigger] f(k),
    ensures
        count_where(n, f) == 0,
    decreases n,
{
    if n > 0 {
        lemma_count_none((n - 1) as nat, f);
    }
}

proof fn lemma_count_some(n: nat, f: spec_fn(int) -> bool, m: int)
    requires
        0 <= m < n,
        f(m),
    ensures
        count_where(n, f) >= 1,
    decreases n,
{
    if m < n - 1 {
        lemma_count_some((n - 1) as nat, f, m);
    }
}

/// A grid has no empty cell exactly when its blank count is 0.
pub proof fn lemma_no_blanks(vals: Seq<u8>)
    ensures
        blank_count(vals) == 0 <==> forall|k: int| in_grid(k) ==> #[trigger] vals[k] != 0,
{
    if forall|k: int| in_grid(k) ==> #[trigger] vals[k] != 0 {
        lemma_count_none(81, |k: int| vals[k] == 0);
    } else {
        let m = choose|m: int| in_grid(m) && vals[m] == 0;
        lemma_count_some(81, |k: int| vals[k] == 0, m);
    }
}

/// Filling an empty cell takes one from the number of empty cells.
pub proof fn lemma_blank_count_fill(vals: Seq<u8>, m: int, v: u8)
    requires
        vals.len() == 81,
        in_grid(m),
        vals[m] == 0,
        v != 0,
    ensures
        blank_count(vals.update(m, v)) + 1 == blank_count(vals),
{
    let w = vals.update(m, v);
    lemma_count_gain(81, |k: int| w[k] == 0, |k: int| vals[k] == 0, m);
}

/// Emptying a filled cell adds one to the number of empty cells.
pub proof fn lemma_blank_count_clear(vals: Seq<u8>, m: int)
    requires
        vals.len() == 81,
        in_grid(m),
        vals[m] != 0,
    ensures
        blank_count(vals.update(m, 0)) == blank_count(vals) + 1,
{
    let w = vals.update(m, 0);
    lemma_count_gain(81, |k: int| vals[k] == 0, |k: int| w[k] == 0, m);
}

/// Unfixing a fixed cell takes one from the number of fixed cells.
pub proof fn lemma_given_count_clear(given: Seq<bool>, m: int)
    requires
        given.len() == 81,
        in_grid(m),
        given[m],
    ensures
        given_count(given.update(m, false)) + 1 == given_count(given),
{
    let w = given.update(m, false);
    lemma_count_gain(81, |k: int| w[k], |k: int| given[k], m);
}

/// A grid with no empty cell has a blank count of 0; one where every cell
/// is fixed has a fixed count of 81.
pub proof fn lemma_counts_full(vals: Seq<u8>, given: Seq<bool>)
    requires
        forall|k: int| in_grid(k) ==> #[trigger] vals[k] != 0,
        forall|k: int| in_grid(k) ==> #[trigger] given[k],
    ensures
        blank_count(vals) == 0,
        given_count(given) == 81,
{
    lemma_count_none(81, |k: int| vals[k] == 0);
    lemma_count_none(81, |k: int| !given[k]);
    lemma_count_complement(81, |k: int| !given[k], |k: int| given[k]);
}

/// Cell `i` (0..9) of unit `u` (0..27): units 0..9 are the rows, 9..18 the
/// columns and 18..27 the boxes, each walked row-major.
pub open spec fn unit_cell(u: int, i: int) -> int {
    if u < 9 {
        index_of(u, i)
    } else if u < 18 {
        index_of(i, u - 9)
    } else {
        index_of(((u - 18) / 3) * 3 + i / 3, ((u - 18) % 3) * 3 + i % 3)
    }
}

/// The nine digits of unit `u` of `s`.
pub open spec fn unit_digits(s: Seq<u8>, u: int) -> Seq<u8> {
    Seq::new(9, |i: int| s[unit_cell(u, i)])
}

/// The digits 1 to 9.
pub open spec fn all_digits() -> Seq<u8> {
    seq![1u8, 2, 3, 4, 5, 6, 7, 8, 9]
}

proof fn lemma_index_parts(r: int, c: int)
    requires
        0 <= r < 9,
        0 <= c < 9,
    ensures
        in_grid(index_of(r, c)),
        row_of(index_of(r, c)) == r,
        col_of(index_of(r, c)) == c,
{
}

proof fn lemma_unit_cells_are_peers(u: int, i: int, j: int)
    requires
        0 <= u < 27,
        0 <= i < 9,
        0 <= j < 9,
        i != j,
    ensures
        in_grid(unit_cell(u, i)),
        in_grid(unit_cell(u, j)),
        peers(unit_cell(u, i), unit_cell(u, j)),
{
    if u < 9 {
        lemma_index_parts(u, i);
        lemma_index_parts(u, j);
    } else if u < 18 {
        lemma_index_parts(i, u - 9);
        lemma_index_parts(j, u - 9);
    } else {
        let q = (u - 18) / 3;
        let m = (u - 18) % 3;
        assert(0 <= q < 3 && 0 <= m < 3);
        lemma_index_parts(q * 3 + i / 3, m * 3 + i % 3);
        lemma_index_parts(q * 3 + j / 3, m * 3 + j % 3);
        assert(i == (i / 3) * 3 + i % 3);
        assert(j == (j / 3) * 3 + j % 3);
    }
}

/// In a valid solution every row, column and box is a permutation of the
/// digits 1 to 9: it holds each of them, and none twice.
pub proof fn lemma_units_are_permutations(s: Seq<u8>)
    requires
        valid_solution(s),
    ensures
        forall|u: int|
            0 <= u < 27 ==> (#[trigger] unit_digits(s, u)).no_duplicates()
                && unit_digits(s, u).to_set() == all_digits().to_set(),
{
    broadcast use vstd::seq_lib::seq_to_set_is_finite;

    let ds = all_digits();
    assert(ds.no_duplicates());
    ds.unique_seq_to_set();
    assert forall|u: int| 0 <= u < 27 implies (#[trigger] unit_digits(s, u)).no_duplicates()
        && unit_digits(s, u).to_set() == all_digits().to_set() by {
        let us = unit_digits(s, u);
        assert forall|i: int, j: int| 0 <= i < 9 && 0 <= j < 9 && i != j implies us[i] != us[j] by {
            lemma_unit_cells_are_peers(u, i, j);
        }
        assert(us.no_duplicates());
        us.unique_seq_to_set();
        assert forall|d: u8| us.to_set().contains(d) implies ds.to_set().contains(d) by {
            let i = choose|i: int| 0 <= i < 9 && us[i] == d;
            lemma_unit_cells_are_peers(u, i, (i + 1) % 9);
            assert(ds[d - 1] == d);
        }
        vstd::set_lib::lemma_subset_equality(us.to_set(), ds.to_set());
    }
}

/// A fixed valid grid: row `r` is the row `1..9` rotated by `3r + r/3`.
pub open spec fn shifted_grid() -> Seq<u8> {
    Seq::new(81, |k: int| (((row_of(k) * 3 + row_of(k) / 3 + col_of(k)) % 9) + 1) as u8)
}

proof fn lemma_shifted_cells_differ(i: int, j: int)
    requires
        in_grid(i),
        in_grid(j),
        peers(i, j),
    ensures
        shifted_grid()[i] != shifted_grid()[j],
{
    let r1 = (i / 9) as u32;
    let c1 = (i % 9) as u32;
    let r2 = (j / 9) as u32;
    let c2 = (j % 9) as u32;
    lemma_shift_bits(r1, c1, r2, c2);
}

proof fn lemma_shift_bits(r1: u32, c1: u32, r2: u32, c2: u32) by (bit_vector)
    requires
        r1 < 9,
        c1 < 9,
        r2 < 9,
        c2 < 9,
        r1 != r2 || c1 != c2,
        r1 == r2 || c1 == c2 || (r1 / 3 == r2 / 3 && c1 / 3 == c2 / 3),
    ensures
        ((r1 * 3 + r1 / 3 + c1) as u32) % 9 != ((r2 * 3 + r2 / 3 + c2) as u32) % 9,
{
}

/// A valid solution exists.
pub proof fn lemma_shifted_grid_valid()
    ensures
        valid_solution(shifted_grid()),
{
    let s = shifted_grid();
    assert forall|i: int, j: int| in_grid(i) && in_grid(j) && #[trigger] peers(i, j) && s[i] != 0 implies s[i] != s[j] by {
        lemma_shifted_cells_differ(i, j);
    }
}

} // verus!
