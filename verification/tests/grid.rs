use pathfinder::cost::{dist, DIAGONAL, MAX_CELLS, STRAIGHT, UNREACHED};
use pathfinder::grid::{check_extents, Grid, GridError};
use pathfinder::node::NodeState::{Destination, Open, Start, Wall};
use pathfinder::node::{NodeState, Pos};
use rand::rngs::StdRng;
use rand::SeedableRng;

fn lines(text: &[&str]) -> Vec<String> {
    text.iter().map(|line| line.to_string()).collect()
}

fn states(grid: &Grid) -> Vec<Vec<NodeState>> {
    grid.map.iter().map(|row| row.iter().map(|n| n.node_state).collect()).collect()
}

#[test]
fn text_map_is_read_cell_by_cell() {
    let grid = Grid::from(lines(&["O \u{2588}", " ?\u{2588}", "  X"]), 3, 3).unwrap();
    assert_eq!(
        states(&grid),
        vec![vec![Start, Open, Wall], vec![Open, Open, Wall], vec![Open, Open, Destination]]
    );
    assert_eq!(grid.start_pos, Pos { x: 0, y: 0 });
    assert_eq!(grid.end_pos, Pos { x: 2, y: 2 });
    assert_eq!((grid.x_size, grid.y_size), (3, 3));
    assert!(grid.is_well_formed());
    assert!(grid.is_unsearched());
}

#[test]
fn text_map_may_be_wider_than_high() {
    let grid = Grid::from(lines(&["O   ", "   X"]), 2, 4).unwrap();
    assert_eq!(grid.map.len(), 2);
    assert_eq!(grid.map[0].len(), 4);
    assert_eq!(grid.end_pos, Pos { x: 1, y: 3 });
    assert_eq!(grid.map[1][3].pos, Pos { x: 1, y: 3 });
}

#[test]
fn cells_without_a_character_are_open() {
    let grid = Grid::from(lines(&["O", "", " X"]), 4, 3).unwrap();
    assert_eq!(grid.map[0][2].node_state, NodeState::Open);
    assert_eq!(grid.map[1][0].node_state, NodeState::Open);
    assert_eq!(grid.map[3][2].node_state, NodeState::Open);
    assert_eq!(grid.end_pos, Pos { x: 2, y: 1 });
}

#[test]
fn cells_of_a_new_grid_hold_their_place_and_their_estimate() {
    let grid = Grid::from(lines(&["O   ", "    ", "    ", "   X"]), 4, 4).unwrap();
    for x in 0..4 {
        for y in 0..4 {
            let node = &grid.map[x][y];
            assert_eq!(node.pos, Pos { x, y });
            assert_eq!(node.g, UNREACHED);
            assert_eq!(node.f, UNREACHED);
            assert!(node.parent.is_none());
            assert_eq!(node.h, dist(&node.pos, &grid.end_pos));
        }
    }
    assert_eq!(grid.map[3][3].h, 0);
    assert_eq!(grid.map[3][0].h, 3 * STRAIGHT);
    assert_eq!(grid.map[2][2].h, DIAGONAL);
    assert_eq!(grid.map[0][0].h, 4_242_641);
    assert_eq!(grid.map[0][3].h, 3 * STRAIGHT);
    assert_eq!(grid.map[1][0].h, 3_605_552);
}

#[test]
fn text_map_errors() {
    let err = |text: &[&str], x, y| Grid::from(lines(text), x, y).err();
    assert_eq!(err(&["OX"], 0, 2), Some(GridError::EmptyGrid));
    assert_eq!(err(&["OX"], 1, 0), Some(GridError::EmptyGrid));
    assert_eq!(err(&["OX"], 100_000, 100_000), Some(GridError::TooLarge));
    assert_eq!(err(&["OX"], usize::MAX, 2), Some(GridError::TooLarge));
    assert_eq!(err(&["O ", " X", "  "], 2, 2), Some(GridError::OutOfBounds));
    assert_eq!(err(&["O  ", " X"], 2, 2), Some(GridError::OutOfBounds));
    assert_eq!(err(&["  ", " X"], 2, 2), Some(GridError::MissingStart));
    assert_eq!(err(&["  ", "  "], 2, 2), Some(GridError::MissingStart));
    assert_eq!(err(&["O ", "OX"], 2, 2), Some(GridError::DuplicateStart));
    assert_eq!(err(&["OO", "  "], 2, 2), Some(GridError::DuplicateStart));
    assert_eq!(err(&["O ", "  "], 2, 2), Some(GridError::MissingDestination));
    assert_eq!(err(&["OX", " X"], 2, 2), Some(GridError::DuplicateDestination));
    assert_eq!(err(&["OX", "  "], 2, 2), None);
}

#[test]
fn extents_are_checked() {
    assert_eq!(check_extents(0, 0), Some(GridError::EmptyGrid));
    assert_eq!(check_extents(1, 1), None);
    assert_eq!(check_extents(MAX_CELLS, 1), None);
    assert_eq!(check_extents(MAX_CELLS, 2), Some(GridError::TooLarge));
    assert_eq!(check_extents(31_623, 31_623), Some(GridError::TooLarge));
    assert_eq!(check_extents(31_622, 31_622), None);
}

#[test]
fn grid_from_walls_puts_start_and_destination_over_walls() {
    let walls = vec![vec![true, false], vec![false, true]];
    let grid = Grid::from_walls(&walls, Pos { x: 0, y: 0 }, Pos { x: 1, y: 1 }, 2, 2).unwrap();
    assert_eq!(states(&grid), vec![vec![Start, Open], vec![Open, Destination]]);
    let same = Grid::from_walls(&walls, Pos { x: 0, y: 1 }, Pos { x: 0, y: 1 }, 2, 2).unwrap();
    assert_eq!(same.map[0][1].node_state, Destination);
    assert_eq!(same.map[0][0].node_state, NodeState::Wall);
    assert!(same.is_well_formed());
}

#[test]
fn grid_from_walls_errors() {
    let walls = vec![vec![false, false], vec![false, false]];
    let at = |x, y| Pos { x, y };
    let err = |w: &Vec<Vec<bool>>, s, e, x, y| Grid::from_walls(w, s, e, x, y).err();
    assert_eq!(err(&walls, at(0, 0), at(1, 1), 0, 2), Some(GridError::EmptyGrid));
    assert_eq!(err(&walls, at(0, 0), at(1, 1), 50_000, 50_000), Some(GridError::TooLarge));
    assert_eq!(err(&walls, at(0, 0), at(1, 1), 3, 2), Some(GridError::OutOfBounds));
    assert_eq!(err(&walls, at(0, 0), at(1, 1), 2, 3), Some(GridError::OutOfBounds));
    assert_eq!(err(&walls, at(2, 0), at(1, 1), 2, 2), Some(GridError::OutOfBounds));
    assert_eq!(err(&walls, at(0, 0), at(1, 2), 2, 2), Some(GridError::OutOfBounds));
    let ragged = vec![vec![false, false], vec![false]];
    assert_eq!(err(&ragged, at(0, 0), at(0, 1), 2, 2), Some(GridError::OutOfBounds));
    assert_eq!(err(&walls, at(0, 0), at(1, 1), 2, 2), None);
}

#[test]
fn random_grid_is_well_formed() {
    for seed in 0..40 {
        let mut rng = StdRng::seed_from_u64(seed);
        let grid = Grid::generate_random_grid(7, 9, &mut rng).unwrap();
        assert_eq!((grid.x_size, grid.y_size), (7, 9));
        assert!(grid.is_well_formed());
        assert!(grid.is_unsearched());
        let all: Vec<NodeState> = states(&grid).concat();
        assert_eq!(all.len(), 63);
        assert_eq!(all.iter().filter(|s| **s == NodeState::Destination).count(), 1);
        let starts = all.iter().filter(|s| **s == NodeState::Start).count();
        assert_eq!(starts, if grid.start_pos == grid.end_pos { 0 } else { 1 });
    }
}

#[test]
fn random_grid_has_walls_on_about_three_cells_in_ten() {
    let mut rng = StdRng::seed_from_u64(2024);
    let grid = Grid::generate_random_grid(100, 100, &mut rng).unwrap();
    let walls = states(&grid).concat().iter().filter(|s| **s == NodeState::Wall).count();
    assert!(2_500 < walls && walls < 3_500);
}

#[test]
fn random_grid_of_one_cell_is_searched_at_once() {
    let mut rng = StdRng::seed_from_u64(1);
    let mut grid = Grid::generate_random_grid(1, 1, &mut rng).unwrap();
    assert_eq!(grid.start_pos, grid.end_pos);
    assert_eq!(grid.run_a_star().map(|p| p.len()), Some(0));
}

#[test]
fn random_grid_errors() {
    let mut rng = StdRng::seed_from_u64(3);
    assert_eq!(Grid::generate_random_grid(0, 5, &mut rng).err(), Some(GridError::EmptyGrid));
    assert_eq!(Grid::generate_random_grid(5, 0, &mut rng).err(), Some(GridError::EmptyGrid));
    assert_eq!(
        Grid::generate_random_grid(40_000, 40_000, &mut rng).err(),
        Some(GridError::TooLarge)
    );
}

#[test]
fn random_grid_can_be_searched() {
    for seed in 0..20 {
        let mut rng = StdRng::seed_from_u64(seed);
        let mut grid = Grid::generate_random_grid(12, 12, &mut rng).unwrap();
        let mut twin = Grid::generate_random_grid(12, 12, &mut StdRng::seed_from_u64(seed)).unwrap();
        let end = grid.end_pos;
        let one = grid.run_a_star();
        let two = twin.run_a_star();
        assert_eq!(one.is_some(), two.is_some());
        assert_eq!(grid.map[end.x][end.y].g, twin.map[end.x][end.y].g);
        if let Some(path) = one {
            assert!(path.iter().all(|n| n.node_state != NodeState::Wall));
            assert!(grid.map[end.x][end.y].g >= grid.map[grid.start_pos.x][grid.start_pos.y].h);
        } else {
            assert_eq!(grid.map[end.x][end.y].g, UNREACHED);
        }
    }
}

#[test]
fn changed_grid_is_not_well_formed() {
    let fresh = || Grid::from(lines(&["O ", " X"]), 2, 2).unwrap();
    let mut grid = fresh();
    grid.map[0][1].h += 1;
    assert!(!grid.is_well_formed());
    let mut grid = fresh();
    grid.map[0][1].node_state = NodeState::Destination;
    assert!(!grid.is_well_formed());
    let mut grid = fresh();
    grid.map[1].pop();
    assert!(!grid.is_well_formed());
    let mut grid = fresh();
    grid.map[1][0].pos = Pos { x: 0, y: 1 };
    assert!(!grid.is_well_formed());
    let mut grid = fresh();
    grid.end_pos = Pos { x: 0, y: 1 };
    assert!(!grid.is_well_formed());
    let mut grid = fresh();
    grid.map[1][0].parent = Some(0);
    assert!(!grid.is_well_formed());
    let mut grid = fresh();
    grid.map[1][0].g = 5;
    assert!(grid.is_well_formed());
    assert!(!grid.is_unsearched());
}
