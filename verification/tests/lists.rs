use solve_sokoban::board::{Board, SolveState};
use solve_sokoban::input::Input;
use solve_sokoban::pos::{Costs, Move, Pos};
use solve_sokoban::poslist::{contains_pos, find_pos, pos_list_eq, sort_distinct};
use solve_sokoban::solver::{Solution, StepState};

#[test]
fn position_neighbours() {
    let p = Pos::new(3, 4);
    assert_eq!(p.up(), Pos::new(3, 5));
    assert_eq!(p.down(), Pos::new(3, 3));
    assert_eq!(p.left(), Pos::new(2, 4));
    assert_eq!(p.right(), Pos::new(4, 4));
}

#[test]
fn position_order_is_x_then_y() {
    assert!(Pos::new(1, 9).lt(&Pos::new(2, 0)));
    assert!(Pos::new(1, 2).lt(&Pos::new(1, 3)));
    assert!(!Pos::new(1, 3).lt(&Pos::new(1, 3)));
    assert!(!Pos::new(2, 0).lt(&Pos::new(1, 9)));
}

#[test]
fn cost_order_is_pushes_then_moves() {
    assert!(Costs::new(1, 9).lt(&Costs::new(2, 0)));
    assert!(Costs::new(2, 3).lt(&Costs::new(2, 4)));
    assert!(!Costs::new(2, 4).lt(&Costs::new(2, 4)));
    assert!(!Costs::new(2, 0).lt(&Costs::new(1, 9)));
    assert_eq!(Costs::zero(), Costs::new(0, 0));
}

#[test]
fn sorting_distinct_positions() {
    let v = vec![Pos::new(4, 0), Pos::new(1, 2), Pos::new(1, 1), Pos::new(0, 7)];
    let sorted = sort_distinct(&v);
    assert_eq!(
        sorted,
        vec![Pos::new(0, 7), Pos::new(1, 1), Pos::new(1, 2), Pos::new(4, 0)]
    );
}

#[test]
fn searching_position_lists() {
    let v = vec![Pos::new(1, 1), Pos::new(2, 5)];
    assert!(contains_pos(&v, Pos::new(2, 5)));
    assert!(!contains_pos(&v, Pos::new(5, 2)));
    assert_eq!(find_pos(&v, Pos::new(1, 1)), Some(0));
    assert_eq!(find_pos(&v, Pos::new(2, 5)), Some(1));
    assert_eq!(find_pos(&v, Pos::new(0, 0)), None);
    assert!(pos_list_eq(&v, &v.clone()));
    assert!(!pos_list_eq(&v, &vec![Pos::new(1, 1)]));
}

#[test]
fn applying_a_push_keeps_the_box_list_sorted() {
    let mut st = SolveState {
        player: Pos::new(0, 0),
        boxes: vec![Pos::new(2, 2), Pos::new(4, 4)],
    };
    // The box at (2,2) moves right past the other box's column.
    st.apply_move(Move::new(Pos::new(2, 2), Pos::new(5, 2)));
    assert_eq!(st.player, Pos::new(2, 2));
    assert_eq!(st.boxes, vec![Pos::new(4, 4), Pos::new(5, 2)]);
}

#[test]
fn solutions_carry_their_moves_and_costs() {
    let mv = Move::new(Pos::new(1, 1), Pos::new(2, 1));
    let sol = Solution::new(vec![mv], Costs::new(1, 3));
    assert_eq!(sol.costs(), Costs::new(1, 3));
    assert_eq!(sol.moves().as_slice(), &[mv]);
}

#[test]
fn a_root_node_starts_from_the_board_state() {
    let lines: Vec<Vec<char>> = "#####\n#@$.#\n#####".lines().map(|l| l.chars().collect()).collect();
    let input = Input::from_lines(&lines).unwrap();
    let b = Board::from_input(&input).unwrap();
    let root = StepState::start(&b);
    assert!(root.moves.is_empty());
    assert_eq!(root.costs, Costs::zero());
    assert_eq!(root.state.player, b.player());
    assert_eq!(&root.state.boxes, b.boxes());
}
