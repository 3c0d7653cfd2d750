use sudoku::command::{command_from_lowercase, parse_command};
use sudoku::game::Command;

fn place(line: &str) -> Option<(usize, usize, u8)> {
    match parse_command(line) {
        Command::Place(r, c, v) => Some((r, c, v)),
        _ => None,
    }
}

fn new_level(line: &str) -> Option<u8> {
    match parse_command(line) {
        Command::New(d) => Some(d),
        _ => None,
    }
}

#[test]
fn simple_words() {
    assert!(matches!(parse_command("quit"), Command::Quit));
    assert!(matches!(parse_command("  Q \n"), Command::Quit));
    assert!(matches!(parse_command("HINT"), Command::Hint));
    assert!(matches!(parse_command("h"), Command::Hint));
    assert!(matches!(parse_command("help\n"), Command::Help));
    assert!(matches!(parse_command("?"), Command::Help));
    assert!(matches!(parse_command("qu it"), Command::Unknown));
    assert!(matches!(parse_command("quit now"), Command::Unknown));
    assert!(matches!(parse_command(""), Command::Unknown));
}

#[test]
fn new_game_levels() {
    assert_eq!(new_level("new 1"), Some(1));
    assert_eq!(new_level("NEW 3"), Some(3));
    assert_eq!(new_level("new +2"), Some(2));
    assert_eq!(new_level("new"), Some(2));
    assert_eq!(new_level("new 4"), Some(2));
    assert_eq!(new_level("new 0"), Some(2));
    assert_eq!(new_level("new 300"), Some(2));
    assert_eq!(new_level("new x"), Some(2));
    assert_eq!(new_level("newgame 1"), Some(1));
}

#[test]
fn moves() {
    assert_eq!(place("A1 5"), Some((0, 0, 5)));
    assert_eq!(place("i9 9"), Some((8, 8, 9)));
    assert_eq!(place("  c4   07 "), Some((2, 3, 7)));
    assert_eq!(place("e5 +3"), Some((4, 4, 3)));
    assert_eq!(place("j1 5"), None);
    assert_eq!(place("a0 5"), None);
    assert_eq!(place("a1 0"), None);
    assert_eq!(place("a1 10"), None);
    assert_eq!(place("a1 256"), None);
    assert_eq!(place("a1 -1"), None);
    assert_eq!(place("a1"), None);
    assert_eq!(place("a1 5 6"), None);
    assert_eq!(place("a12 5"), None);
    assert!(matches!(parse_command("a1 x"), Command::Unknown));
}

#[test]
fn lowercased_input_is_read_directly() {
    let chars: Vec<char> = "b3 4".chars().collect();
    assert!(matches!(command_from_lowercase(&chars), Command::Place(1, 2, 4)));
    let upper: Vec<char> = "B3 4".chars().collect();
    assert!(matches!(command_from_lowercase(&upper), Command::Unknown));
    let spaced: Vec<char> = "\u{3000}hint\u{a0}".chars().collect();
    assert!(matches!(command_from_lowercase(&spaced), Command::Hint));
}
