use solve_sokoban::cell::{CellState, InputError};
use solve_sokoban::input::Input;
use solve_sokoban::pos::Pos;

fn parse_lines(text: &str) -> Vec<Vec<char>> {
    text.lines().map(|l| l.chars().collect()).collect()
}

#[test]
fn from_char_accepts_the_seven_cell_kinds() {
    assert_eq!(CellState::from_char(' '), Ok(CellState::Empty));
    assert_eq!(CellState::from_char('-'), Ok(CellState::Empty));
    assert_eq!(CellState::from_char('_'), Ok(CellState::Empty));
    assert_eq!(CellState::from_char('#'), Ok(CellState::Wall));
    assert_eq!(CellState::from_char('@'), Ok(CellState::Player));
    assert_eq!(CellState::from_char('$'), Ok(CellState::Box));
    assert_eq!(CellState::from_char('.'), Ok(CellState::Destination));
    assert_eq!(CellState::from_char('*'), Ok(CellState::BoxOnDestination));
    assert_eq!(CellState::from_char('+'), Ok(CellState::PlayerOnDestination));
}

#[test]
fn from_char_rejects_unknown_characters() {
    assert_eq!(CellState::from_char('x'), Err(InputError::UnknownChar('x')));
    assert_eq!(CellState::from_char('?'), Err(InputError::UnknownChar('?')));
}

#[test]
fn to_char_undoes_from_char() {
    let cells = [
        CellState::Empty,
        CellState::Wall,
        CellState::Player,
        CellState::Box,
        CellState::Destination,
        CellState::BoxOnDestination,
        CellState::PlayerOnDestination,
    ];
    for c in cells {
        assert_eq!(CellState::from_char(c.to_char()), Ok(c));
    }
}

#[test]
fn from_lines_reports_the_unknown_character() {
    let lines = parse_lines("###\n#z#\n###");
    match Input::from_lines(&lines) {
        Err(InputError::UnknownChar(c)) => assert_eq!(c, 'z'),
        _ => panic!("expected an unknown-character error"),
    }
}

#[test]
fn player_box_and_destination_positions_are_found() {
    let lines = parse_lines("#####\n#@$.#\n#####");
    let input = Input::from_lines(&lines).unwrap();
    assert_eq!(input.get_player_pos(), Ok(Pos::new(1, 1)));
    assert_eq!(input.get_boxes(), vec![Pos::new(2, 1)]);
    assert_eq!(input.get_destinations(), vec![Pos::new(3, 1)]);
}

#[test]
fn overlapping_markers_count_for_both_roles() {
    // '*' is a box on a destination, '+' a player on a destination.
    let lines = parse_lines("#####\n#+*.#\n#####");
    let input = Input::from_lines(&lines).unwrap();
    assert_eq!(input.get_player_pos(), Ok(Pos::new(1, 1)));
    assert_eq!(input.get_boxes(), vec![Pos::new(2, 1)]);
    assert_eq!(
        input.get_destinations(),
        vec![Pos::new(1, 1), Pos::new(2, 1), Pos::new(3, 1)]
    );
}

#[test]
fn missing_player_is_reported() {
    let lines = parse_lines("###\n#.#\n###");
    let input = Input::from_lines(&lines).unwrap();
    assert_eq!(input.get_player_pos(), Err(InputError::MissingPlayer));
}
