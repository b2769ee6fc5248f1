use solve_sokoban::board::Board;
use solve_sokoban::cell::InputError;
use solve_sokoban::input::Input;
use solve_sokoban::matrix::Matrix;
use solve_sokoban::pos::{Move, Pos};

fn board(text: &str) -> Board {
    let lines: Vec<Vec<char>> = text.lines().map(|l| l.chars().collect()).collect();
    let input = Input::from_lines(&lines).unwrap();
    Board::from_input(&input).unwrap()
}

#[test]
fn dimensions_and_walls() {
    let b = board("#####\n#@$.#\n#####");
    assert_eq!(b.width(), 5);
    assert_eq!(b.height(), 3);
    assert_eq!(b.size(), 15);
    assert!(b.is_wall(Pos::new(0, 0)));
    assert!(b.is_wall(Pos::new(4, 1)));
    assert!(!b.is_wall(Pos::new(1, 1)));
    // Coordinates beyond the grid are not walls, matching the lookup
    // default.
    assert!(!b.is_wall(Pos::new(9, 9)));
}

#[test]
fn dead_cells_cover_borders_and_corners_but_never_destinations() {
    let b = board("#####\n#@$.#\n#####");
    // Border cells and walls are dead.
    assert!(b.is_dead(Pos::new(0, 0)));
    assert!(b.is_dead(Pos::new(2, 0)));
    // The cell against the left wall is a simple corner.
    assert!(b.is_dead(Pos::new(1, 1)));
    // The destination would qualify as a corner but is never marked.
    assert!(!b.is_dead(Pos::new(3, 1)));
    assert!(b.is_destination(Pos::new(3, 1)));
}

#[test]
fn corridor_dead_ends_are_marked() {
    // Row 2 hugs the bottom wall, is closed by walls at both ends and
    // holds no destination: every cell of it is a corridor dead-end.
    let b = board("#######\n#.$ #@#\n#     #\n#######");
    assert!(b.is_dead(Pos::new(2, 2)));
    assert!(b.is_dead(Pos::new(3, 2)));
    assert!(!b.is_dead(Pos::new(1, 1)));
}

#[test]
fn free_and_push_target_queries() {
    let b = board("#####\n#@$.#\n#####");
    assert!(b.is_free(Pos::new(1, 1)));
    assert!(!b.is_free(Pos::new(2, 1)));
    assert!(!b.is_free(Pos::new(0, 1)));
    assert!(b.is_push_target(Pos::new(3, 1)));
    assert!(!b.is_push_target(Pos::new(2, 1)));
    assert!(!b.is_push_target(Pos::new(1, 1)));
}

#[test]
fn possible_moves_lists_exactly_the_legal_pushes() {
    let b = board("#####\n#@$.#\n#####");
    let moves = b.possible_moves();
    assert_eq!(moves.len(), 1);
    assert_eq!(moves[0], Move::new(Pos::new(2, 1), Pos::new(3, 1)));
}

#[test]
fn apply_move_moves_the_box_and_the_player() {
    let mut b = board("#####\n#@$.#\n#####");
    b.apply_move(Move::new(Pos::new(2, 1), Pos::new(3, 1)));
    assert_eq!(b.player(), Pos::new(2, 1));
    assert_eq!(b.boxes().as_slice(), &[Pos::new(3, 1)]);
    assert!(b.is_solved());
}

#[test]
fn boxes_and_destinations_are_sorted() {
    // Parsed row-major, the second box comes first under the (x, y)
    // order the board maintains.
    let b = board("######\n# $ @#\n#$.. #\n######");
    assert_eq!(b.boxes().as_slice(), &[Pos::new(1, 2), Pos::new(2, 1)]);
    assert_eq!(
        b.destinations().as_slice(),
        &[Pos::new(2, 2), Pos::new(3, 2)]
    );
    assert!(!b.is_solved());
}

#[test]
fn set_player_pos_moves_only_the_player() {
    let mut b = board("#####\n#@$.#\n#####");
    b.set_player_pos(Pos::new(1, 1));
    assert_eq!(b.player(), Pos::new(1, 1));
    assert_eq!(b.boxes().as_slice(), &[Pos::new(2, 1)]);
}

#[test]
fn the_solve_state_mirrors_player_and_boxes() {
    let b = board("#####\n#@$.#\n#####");
    let st = b.solve_state();
    assert_eq!(st.player, b.player());
    assert_eq!(&st.boxes, b.boxes());
}

#[test]
fn empty_level_has_no_player() {
    let input = Input::new(vec![]);
    match Board::from_input(&input) {
        Err(InputError::MissingPlayer) => {},
        _ => panic!("expected a missing-player error"),
    }
}

#[test]
fn matrix_fill_get_and_set() {
    let mut m: Matrix<u8> = Matrix::fill(7, 3, 2);
    assert_eq!(m.width(), 3);
    assert_eq!(m.height(), 2);
    assert_eq!(m.get(2, 1), Some(&7));
    assert_eq!(m.get(3, 1), None);
    assert_eq!(m.get(2, 2), None);
    m.set(1, 1, 9);
    assert_eq!(m.get(1, 1), Some(&9));
    assert_eq!(m.get(1, 0), Some(&7));
    assert_eq!(m.get_or(1, 1, 0), 9);
    assert_eq!(m.get_or(5, 5, 0), 0);
}
