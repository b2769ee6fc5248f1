use solve_sokoban::board::{Board, SolveState};
use solve_sokoban::input::Input;
use solve_sokoban::pos::{Costs, Move, Pos};
use solve_sokoban::solver::Solver;

fn board(text: &str) -> Board {
    let lines: Vec<Vec<char>> = text.lines().map(|l| l.chars().collect()).collect();
    let input = Input::from_lines(&lines).unwrap();
    Board::from_input(&input).unwrap()
}

const CORRIDOR: &str = "#####\n#@$.#\n#####";
const DETOUR: &str = "#######\n#.$ #@#\n#     #\n#######";

#[test]
fn one_push_corridor_costs_one_push_one_move() {
    let b = board(CORRIDOR);
    let mut solver = Solver::new();
    let solution = solver.solve(&b, 100).expect("the corridor is solvable");
    assert_eq!(solution.costs(), Costs::new(1, 1));
    assert_eq!(
        solution.moves().as_slice(),
        &[Move::new(Pos::new(2, 1), Pos::new(3, 1))]
    );
}

#[test]
fn detour_is_priced_by_the_real_route_not_the_grid_distance() {
    // The wall forces the player to walk around through the lower row:
    // four steps to reach the pushing cell instead of the direct two.
    let b = board(DETOUR);
    let mut solver = Solver::new();
    let solution = solver.solve(&b, 1000).expect("the detour level is solvable");
    assert_eq!(solution.costs(), Costs::new(1, 5));
    assert_eq!(
        solution.moves().as_slice(),
        &[Move::new(Pos::new(2, 1), Pos::new(1, 1))]
    );
}

#[test]
fn replaying_the_solution_is_legal_and_solves_the_board() {
    let b = board(DETOUR);
    let mut solver = Solver::new();
    let solution = solver.solve(&b, 1000).unwrap();
    let mut replay = board(DETOUR);
    for m in solution.moves() {
        let legal = replay.possible_moves();
        assert!(legal.contains(m));
        replay.apply_move(*m);
    }
    assert!(replay.is_solved());
    assert_eq!(solution.costs().pushes as usize, solution.moves().len());
}

#[test]
fn a_box_trapped_in_a_dead_corner_is_unsolvable() {
    let b = board("#####\n#$@ #\n# . #\n#####");
    let mut solver = Solver::new();
    assert!(solver.solve(&b, 1000).is_none());
    // The frontier was exhausted: this None means unsolvable, not a
    // spent budget.
    assert_eq!(solver.rest_possibilities(), 0);
    assert!(!solver.saturated());
}

#[test]
fn an_already_solved_board_needs_no_pushes() {
    let b = board("#####\n#@ *#\n#####");
    let mut solver = Solver::new();
    let solution = solver.solve(&b, 100).unwrap();
    assert_eq!(solution.costs(), Costs::new(0, 0));
    assert!(solution.moves().is_empty());
}

#[test]
fn solving_twice_gives_the_same_solution() {
    let b = board(DETOUR);
    let mut first = Solver::new();
    let mut second = Solver::new();
    let s1 = first.solve(&b, 1000).unwrap();
    let s2 = second.solve(&b, 1000).unwrap();
    assert_eq!(s1.costs(), s2.costs());
    assert_eq!(s1.moves().as_slice(), s2.moves().as_slice());
}

#[test]
fn seeding_worse_costs_does_not_change_the_solution() {
    let b = board(DETOUR);
    let mut plain = Solver::new();
    let expected = plain.solve(&b, 1000).unwrap();

    // Seed the initial configuration with a cost far worse than any the
    // search actually reaches.
    let mut seeded = Solver::new();
    seeded.seed(
        SolveState { player: Pos::new(5, 1), boxes: vec![Pos::new(2, 1)] },
        Costs::new(999, 999),
    );
    let solution = seeded.solve(&b, 1000).unwrap();
    assert_eq!(solution.costs(), expected.costs());
    assert_eq!(solution.moves().as_slice(), expected.moves().as_slice());
}

#[test]
fn the_engine_reports_its_diagnostics() {
    let b = board(CORRIDOR);
    let mut solver = Solver::new();
    let solution = solver.solve(&b, 100);
    assert!(solution.is_some());
    assert!(solver.steps() >= 1);
    assert_eq!(solver.rest_possibilities(), 0);
}

#[test]
fn a_zero_budget_finds_nothing() {
    let b = board(CORRIDOR);
    let mut solver = Solver::new();
    assert!(solver.solve(&b, 0).is_none());
}

#[test]
fn small_searches_never_saturate_the_cost_counters() {
    let b = board(DETOUR);
    let mut solver = Solver::new();
    let solution = solver.solve(&b, 1000);
    assert!(solution.is_some());
    assert!(!solver.saturated());
}
