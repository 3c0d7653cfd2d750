use sudoku::board::Board;

fn solution_of(board: &Board) -> [[u8; 9]; 9] {
    let mut grid = [[0u8; 9]; 9];
    for r in 0..9 {
        for c in 0..9 {
            for v in 1..=9u8 {
                if board.is_correct_value(r, c, v) {
                    grid[r][c] = v;
                }
            }
            assert!(grid[r][c] != 0);
        }
    }
    grid
}

fn counts(board: &Board) -> (usize, usize) {
    let mut blank = 0;
    let mut given = 0;
    for r in 0..9 {
        for c in 0..9 {
            if board.get_cell_value(r, c) == 0 {
                blank += 1;
                assert!(!board.is_given(r, c));
            }
            if board.is_given(r, c) {
                given += 1;
            }
        }
    }
    (blank, given)
}

fn snapshot(board: &Board) -> Vec<(u8, bool)> {
    let mut out = Vec::new();
    for r in 0..9 {
        for c in 0..9 {
            out.push((board.get_cell_value(r, c), board.is_given(r, c)));
        }
    }
    out
}

fn is_permutation(digits: &[u8]) -> bool {
    let mut seen = [false; 10];
    for &d in digits {
        if d < 1 || d > 9 || seen[d as usize] {
            return false;
        }
        seen[d as usize] = true;
    }
    digits.len() == 9
}

#[test]
fn solution_units_are_permutations() {
    for difficulty in 1..=3u8 {
        let board = Board::new(difficulty);
        let s = solution_of(&board);
        for i in 0..9 {
            let row: Vec<u8> = (0..9).map(|c| s[i][c]).collect();
            let col: Vec<u8> = (0..9).map(|r| s[r][i]).collect();
            let bx: Vec<u8> = (0..9).map(|k| s[(i / 3) * 3 + k / 3][(i % 3) * 3 + k % 3]).collect();
            assert!(is_permutation(&row));
            assert!(is_permutation(&col));
            assert!(is_permutation(&bx));
        }
    }
}

#[test]
fn easy_board_has_30_blanks_and_51_givens() {
    let board = Board::new(1);
    assert_eq!(counts(&board), (30, 51));
}

#[test]
fn medium_board_has_45_blanks() {
    let board = Board::new(2);
    assert_eq!(counts(&board), (45, 36));
}

#[test]
fn hard_and_unknown_difficulties_have_55_blanks() {
    for difficulty in [3u8, 0, 4, 255] {
        let board = Board::new(difficulty);
        assert_eq!(counts(&board), (55, 26));
    }
}

#[test]
fn given_cells_hold_solution_digits() {
    let board = Board::new(2);
    for r in 0..9 {
        for c in 0..9 {
            if board.is_given(r, c) {
                let v = board.get_cell_value(r, c);
                assert!(board.is_correct_value(r, c, v));
            }
        }
    }
}

#[test]
fn carving_order_is_random() {
    // with the positions left in order the blanks would be the first cells
    let board = Board::new(1);
    let mut first_all_blank = true;
    for k in 0..30 {
        if board.get_cell_value(k / 9, k % 9) != 0 {
            first_all_blank = false;
        }
    }
    assert!(!first_all_blank);
}

#[test]
fn generated_solutions_vary() {
    // candidates tried in order would always give the same first row
    let mut seen_other = false;
    for _ in 0..4 {
        let s = solution_of(&Board::new(1));
        if s[0] != [1, 2, 3, 4, 5, 6, 7, 8, 9] {
            seen_other = true;
        }
    }
    assert!(seen_other);
}

fn first_blank(board: &Board) -> (usize, usize) {
    for r in 0..9 {
        for c in 0..9 {
            if board.get_cell_value(r, c) == 0 {
                return (r, c);
            }
        }
    }
    panic!("no blank cell");
}

fn first_given(board: &Board) -> (usize, usize) {
    for r in 0..9 {
        for c in 0..9 {
            if board.is_given(r, c) {
                return (r, c);
            }
        }
    }
    panic!("no given cell");
}

#[test]
fn erasing_a_blank_or_filled_cell_succeeds() {
    let mut board = Board::new(3);
    let (r, c) = first_blank(&board);
    assert!(board.set(r, c, 0));
    assert_eq!(board.get_cell_value(r, c), 0);
    let s = solution_of(&board);
    assert!(board.set(r, c, s[r][c]));
    assert_eq!(board.get_cell_value(r, c), s[r][c]);
    assert!(board.set(r, c, 0));
    assert_eq!(board.get_cell_value(r, c), 0);
    assert!(!board.is_given(r, c));
}

#[test]
fn moves_on_given_cells_fail() {
    let mut board = Board::new(1);
    let (r, c) = first_given(&board);
    let before = snapshot(&board);
    for v in 0..=10u8 {
        assert!(!board.set(r, c, v));
        assert_eq!(snapshot(&board), before);
    }
}

#[test]
fn set_agrees_with_is_valid() {
    let mut board = Board::new(3);
    for (r, c) in board.empty_cells() {
        for v in 1..=9u8 {
            let expected = board.is_valid(r, c, v);
            let ok = board.set(r, c, v);
            assert_eq!(ok, expected);
            if ok {
                assert_eq!(board.get_cell_value(r, c), v);
                assert!(board.set(r, c, 0));
            }
            assert_eq!(board.get_cell_value(r, c), 0);
        }
    }
}

#[test]
fn out_of_range_moves_fail() {
    let mut board = Board::new(3);
    let before = snapshot(&board);
    assert!(!board.set(9, 0, 1));
    assert!(!board.set(0, 9, 1));
    assert!(!board.set(100, 100, 0));
    let (r, c) = first_blank(&board);
    assert!(!board.set(r, c, 10));
    assert!(!board.set(r, c, 255));
    assert_eq!(snapshot(&board), before);
}

#[test]
fn duplicate_in_row_is_rejected() {
    let mut board = Board::new(1);
    // find a blank cell whose row holds a given digit
    for r in 0..9 {
        let (mut blank, mut digit) = (None, None);
        for c in 0..9 {
            let v = board.get_cell_value(r, c);
            if v == 0 && blank.is_none() {
                blank = Some(c);
            } else if v != 0 && digit.is_none() {
                digit = Some(v);
            }
        }
        if let (Some(c), Some(v)) = (blank, digit) {
            assert!(!board.is_valid(r, c, v));
            let before = snapshot(&board);
            assert!(!board.set(r, c, v));
            assert_eq!(board.get_cell_value(r, c), 0);
            assert_eq!(snapshot(&board), before);
            return;
        }
    }
    panic!("no row with a blank and a digit");
}

#[test]
fn is_valid_counts_the_cell_itself() {
    let board = Board::new(1);
    let (r, c) = first_given(&board);
    let v = board.get_cell_value(r, c);
    assert!(!board.is_valid(r, c, v));
}

#[test]
fn solved_only_after_last_correct_fill() {
    let mut board = Board::new(2);
    let s = solution_of(&board);
    let blanks: Vec<(usize, usize)> = board.empty_cells();
    assert_eq!(blanks.len(), 45);
    // fill in reverse order to show the order does not matter
    for (n, &(r, c)) in blanks.iter().rev().enumerate() {
        assert!(!board.is_solved());
        assert!(board.set(r, c, s[r][c]));
        assert_eq!(board.is_solved(), n + 1 == blanks.len());
    }
    assert!(board.is_solved());
}

#[test]
fn one_wrong_cell_blocks_completion() {
    let mut board = Board::new(1);
    let s = solution_of(&board);
    let blanks = board.empty_cells();
    let (lr, lc) = blanks[blanks.len() - 1];
    for &(r, c) in &blanks[..blanks.len() - 1] {
        assert!(board.set(r, c, s[r][c]));
    }
    assert!(!board.is_solved());
    // the only digit that passes validation is the solution one
    for v in 1..=9u8 {
        assert_eq!(board.is_valid(lr, lc, v), v == s[lr][lc]);
    }
    assert!(board.set(lr, lc, s[lr][lc]));
    assert!(board.is_solved());
    assert!(board.set(lr, lc, 0));
    assert!(!board.is_solved());
}

#[test]
fn hints_cover_every_blank_once() {
    let mut board = Board::new(3);
    let s = solution_of(&board);
    let mut seen = std::collections::HashSet::new();
    for _ in 0..55 {
        let (r, c, v) = board.hint().expect("a blank cell is left");
        assert!(seen.insert((r, c)));
        assert_eq!(v, s[r][c]);
        assert_eq!(board.get_cell_value(r, c), v);
        assert!(board.is_given(r, c));
    }
    assert_eq!(seen.len(), 55);
    assert_eq!(board.hint(), None);
    assert!(board.is_solved());
}

#[test]
fn hinted_cell_rejects_moves() {
    let mut board = Board::new(2);
    let (r, c, v) = board.hint().unwrap();
    assert!(!board.set(r, c, 0));
    assert!(!board.set(r, c, v));
    assert_eq!(board.get_cell_value(r, c), v);
}

#[test]
fn hint_fills_a_wrong_or_erased_cell_only_when_blank() {
    let mut board = Board::new(1);
    let blanks = board.empty_cells();
    // fill every blank but one; the hint must pick that one
    for &(r, c) in &blanks[1..] {
        let s = solution_of(&board);
        assert!(board.set(r, c, s[r][c]));
    }
    let (r, c) = blanks[0];
    let (hr, hc, _) = board.hint().unwrap();
    assert_eq!((hr, hc), (r, c));
    assert_eq!(board.hint(), None);
}

#[test]
fn empty_cells_are_row_major() {
    let board = Board::new(2);
    let cells = board.empty_cells();
    assert_eq!(cells.len(), 45);
    for w in cells.windows(2) {
        assert!(w[0].0 * 9 + w[0].1 < w[1].0 * 9 + w[1].1);
    }
    for &(r, c) in &cells {
        assert_eq!(board.get_cell_value(r, c), 0);
    }
}

#[test]
fn reveal_cell_fills_blank_with_solution() {
    let mut board = Board::new(1);
    let s = solution_of(&board);
    let (r, c) = first_blank(&board);
    assert_eq!(board.reveal_cell(r, c), Some(s[r][c]));
    assert!(board.is_given(r, c));
    assert_eq!(board.reveal_cell(r, c), None);
    assert_eq!(board.reveal_cell(9, 0), None);
    let (gr, gc) = first_given(&board);
    assert_eq!(board.reveal_cell(gr, gc), None);
}

#[test]
fn carve_blanks_the_first_positions() {
    let mut board = Board::new(1);
    let s = solution_of(&board);
    let mut positions: Vec<u8> = (0..81).rev().collect();
    positions.swap(0, 80);
    board.carve(&positions, 2);
    let blanked: Vec<u8> = positions[..45].to_vec();
    for k in 0..81u8 {
        let (r, c) = ((k / 9) as usize, (k % 9) as usize);
        if blanked.contains(&k) {
            assert_eq!(board.get_cell_value(r, c), 0);
            assert!(!board.is_given(r, c));
        } else {
            assert_eq!(board.get_cell_value(r, c), s[r][c]);
            assert!(board.is_given(r, c));
        }
    }
    assert_eq!(solution_of(&board), s);
}

#[test]
fn carve_difficulty_fallback() {
    let mut board = Board::new(1);
    let positions: Vec<u8> = (0..81).collect();
    board.carve(&positions, 9);
    assert_eq!(counts(&board), (55, 26));
    assert_eq!(board.get_cell_value(6, 0), 0);
    assert!(board.get_cell_value(6, 1) != 0);
}

#[test]
fn hint_at_picks_that_blank() {
    let mut board = Board::new(2);
    let s = solution_of(&board);
    let blanks = board.empty_cells();
    let (r, c) = blanks[3];
    assert_eq!(board.hint_at(3), Some((r, c, s[r][c])));
    assert!(board.is_given(r, c));
    assert_eq!(board.empty_cells().len(), 44);
    assert_eq!(board.hint_at(44), None);
    assert_eq!(board.empty_cells().len(), 44);
    let (r0, c0) = blanks[0];
    assert_eq!(board.hint_at(0), Some((r0, c0, s[r0][c0])));
}
