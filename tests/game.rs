use sudoku::game::{Command, Game, Outcome, MAX_HINTS};

#[test]
fn fresh_game_is_medium() {
    let game = Game::new();
    assert_eq!(game.score(), 0);
    assert_eq!(game.moves(), 0);
    assert_eq!(game.hints_used(), 0);
    assert_eq!(game.board().empty_cells().len(), 45);
}

#[test]
fn rejected_move_costs_a_point() {
    let mut game = Game::new();
    assert!(matches!(game.place(9, 9, 1), Outcome::Rejected));
    assert_eq!(game.score(), -1);
    assert_eq!(game.moves(), 0);
}

fn solution_digit(game: &Game, r: usize, c: usize) -> u8 {
    (1..=9u8).find(|&v| game.board().is_correct_value(r, c, v)).unwrap()
}

#[test]
fn correct_move_scores_and_solving_adds_bonus() {
    let mut game = Game::new();
    let blanks = game.board().empty_cells();
    let mut expected: i32 = 0;
    for (n, &(r, c)) in blanks.iter().enumerate() {
        let v = solution_digit(&game, r, c);
        match game.place(r, c, v) {
            Outcome::Placed { correct, row_done, col_done, box_done, solved } => {
                assert!(correct);
                expected += 1;
                for done in [row_done, col_done, box_done] {
                    if done {
                        expected += 3;
                    }
                }
                assert_eq!(solved, n + 1 == blanks.len());
                if solved {
                    expected += 9;
                }
            }
            _ => panic!("a correct move was refused"),
        }
        assert_eq!(game.score(), expected);
    }
    // 9 rows, 9 columns and 9 boxes, each rewarded once
    assert_eq!(expected, 45 + 27 * 3 + 9);
    assert_eq!(game.moves(), 45);
}

#[test]
fn erasing_counts_as_a_wrong_entry() {
    let mut game = Game::new();
    let (r, c) = game.board().empty_cells()[0];
    assert!(matches!(
        game.place(r, c, 0),
        Outcome::Placed { correct: false, row_done: false, col_done: false, box_done: false, solved: false }
    ));
    assert_eq!(game.score(), -1);
    assert_eq!(game.moves(), 1);
}

#[test]
fn hints_are_limited() {
    let mut game = Game::new();
    for _ in 0..MAX_HINTS {
        assert!(matches!(game.take_hint(), Outcome::Hinted(_, _, _)));
    }
    assert_eq!(game.hints_used(), MAX_HINTS);
    assert!(matches!(game.take_hint(), Outcome::NoHintsLeft));
    assert_eq!(game.board().empty_cells().len(), 45 - MAX_HINTS as usize);
}

#[test]
fn start_resets_everything() {
    let mut game = Game::new();
    game.place(9, 0, 1);
    game.take_hint();
    assert!(matches!(game.step(Command::New(1)), Outcome::Started(1)));
    assert_eq!(game.score(), 0);
    assert_eq!(game.hints_used(), 0);
    assert_eq!(game.board().empty_cells().len(), 30);
}

#[test]
fn passive_commands_change_nothing() {
    let mut game = Game::new();
    assert!(matches!(game.step(Command::Help), Outcome::Help));
    assert!(matches!(game.step(Command::Quit), Outcome::Quit));
    assert!(matches!(game.step(Command::Unknown), Outcome::Unknown));
    assert_eq!(game.score(), 0);
    assert_eq!(game.board().empty_cells().len(), 45);
}

#[test]
fn hint_on_a_full_board_reveals_nothing() {
    let mut game = Game::new();
    for (r, c) in game.board().empty_cells() {
        let v = solution_digit(&game, r, c);
        game.place(r, c, v);
    }
    assert!(game.board().is_solved());
    assert!(matches!(game.take_hint(), Outcome::NothingToReveal));
    assert_eq!(game.hints_used(), 0);
}
