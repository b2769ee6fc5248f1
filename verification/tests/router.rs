use solve_sokoban::board::Board;
use solve_sokoban::dijkstra::{shortest_path, DistMap, PathGraph};
use solve_sokoban::input::Input;
use solve_sokoban::pos::Pos;

fn board(text: &str) -> Board {
    let lines: Vec<Vec<char>> = text.lines().map(|l| l.chars().collect()).collect();
    let input = Input::from_lines(&lines).unwrap();
    Board::from_input(&input).unwrap()
}

#[test]
fn route_on_an_open_row_is_the_grid_distance() {
    let b = board("#####\n#@ .#\n#####");
    let g = PathGraph::new(&b);
    assert_eq!(
        shortest_path(&b, &g, Pos::new(1, 1), Pos::new(3, 1)),
        Some(2)
    );
}

#[test]
fn route_to_the_start_cell_is_zero() {
    let b = board("#####\n#@ .#\n#####");
    let g = PathGraph::new(&b);
    assert_eq!(
        shortest_path(&b, &g, Pos::new(1, 1), Pos::new(1, 1)),
        Some(0)
    );
}

#[test]
fn route_reports_none_across_a_wall() {
    let b = board("#####\n#@#.#\n#####");
    let g = PathGraph::new(&b);
    assert_eq!(shortest_path(&b, &g, Pos::new(1, 1), Pos::new(3, 1)), None);
}

#[test]
fn route_walks_around_a_blocking_box() {
    // The box on the straight line forces a two-cell detour below it.
    let b = board("#####\n#@$.#\n#   #\n#####");
    let g = PathGraph::new(&b);
    assert_eq!(
        shortest_path(&b, &g, Pos::new(1, 1), Pos::new(3, 1)),
        Some(4)
    );
}

#[test]
fn graph_edges_skip_walls_and_boxes() {
    let b = board("#####\n#@$.#\n#   #\n#####");
    let g = PathGraph::new(&b);
    // From the player's cell only the cell below is free: left and
    // above are walls, to the right sits the box.
    let from_player = g.edges(Pos::new(1, 1));
    assert_eq!(from_player.as_slice(), &[Pos::new(1, 2)]);
    // A wall cell has no outgoing edges.
    assert!(g.edges(Pos::new(0, 0)).is_empty());
}

#[test]
fn fresh_distance_tables_start_infinite() {
    let b = board("#####\n#@ .#\n#####");
    let d = DistMap::new(&b);
    assert_eq!(d.get(&b.props, Pos::new(1, 1)), u16::MAX);
    assert_eq!(d.get(&b.props, Pos::new(3, 1)), u16::MAX);
}
