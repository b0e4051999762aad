use pathfinder::cost::{DIAGONAL, STRAIGHT, UNREACHED};
use pathfinder::frontier::Frontier;
use pathfinder::grid::Grid;
use pathfinder::node::{Node, NodeState, Pos};

fn open_walls(x_size: usize, y_size: usize) -> Vec<Vec<bool>> {
    vec![vec![false; y_size]; x_size]
}

fn cells_of(path: &[Node]) -> Vec<(usize, usize)> {
    path.iter().map(|n| (n.pos.x, n.pos.y)).collect()
}

fn grid_of(walls: &Vec<Vec<bool>>, start: (usize, usize), end: (usize, usize)) -> Grid {
    let x_size = walls.len();
    let y_size = walls[0].len();
    Grid::from_walls(
        walls,
        Pos { x: start.0, y: start.1 },
        Pos { x: end.0, y: end.1 },
        x_size,
        y_size,
    )
    .unwrap()
}

/// The cost of a path that ends at `end`, summed step by step.
fn steps_cost(path: &[Node], end: (usize, usize)) -> u64 {
    let mut cells = cells_of(path);
    cells.reverse();
    cells.push(end);
    let mut cost = 0;
    for pair in cells.windows(2) {
        let dx = pair[0].0.abs_diff(pair[1].0);
        let dy = pair[0].1.abs_diff(pair[1].1);
        assert!(dx <= 1 && dy <= 1 && dx + dy >= 1);
        cost += if dx + dy == 2 { DIAGONAL } else { STRAIGHT };
    }
    cost
}

#[test]
fn diagonal_across_an_open_grid() {
    let mut grid = grid_of(&open_walls(5, 5), (0, 0), (4, 4));
    let path = grid.run_a_star().expect("a path exists");
    assert_eq!(cells_of(&path), vec![(3, 3), (2, 2), (1, 1), (0, 0)]);
    assert_eq!(grid.map[4][4].g, 4 * DIAGONAL);
    assert_eq!(grid.map[4][4].g, 5_656_856);
    let cost = grid.map[4][4].g as f64 / STRAIGHT as f64;
    assert!((cost - 4.0 * 2f64.sqrt()).abs() < 1e-5);
    assert_eq!(path[0].g, 3 * DIAGONAL);
    assert_eq!(path[3].g, 0);
    assert!(path.iter().all(|n| n.parent.is_none()));
    assert!(path.iter().all(|n| n.f == n.g + n.h));
}

#[test]
fn start_on_the_destination_gives_an_empty_path() {
    let mut grid = grid_of(&open_walls(3, 3), (1, 1), (1, 1));
    let path = grid.run_a_star();
    assert_eq!(path.map(|p| p.len()), Some(0));
    assert_eq!(grid.map[1][1].g, 0);
    assert_eq!(grid.map[1][1].node_state, NodeState::Destination);
}

#[test]
fn walled_off_destination_gives_no_path() {
    let mut walls = open_walls(3, 3);
    walls[1][2] = true;
    walls[1][1] = true;
    walls[2][1] = true;
    let mut grid = grid_of(&walls, (0, 0), (2, 2));
    assert!(grid.run_a_star().is_none());
    assert_eq!(grid.map[2][2].g, UNREACHED);
    assert_eq!(grid.map[0][0].g, 0);
    assert_eq!(grid.map[0][2].g, 2 * STRAIGHT);
}

#[test]
fn cross_of_walls_is_passed_through_its_open_centre() {
    let mut walls = open_walls(3, 3);
    walls[1][0] = true;
    walls[1][2] = true;
    walls[0][1] = true;
    walls[2][1] = true;
    let mut grid = grid_of(&walls, (0, 0), (2, 2));
    let path = grid.run_a_star().expect("the centre is open");
    assert_eq!(cells_of(&path), vec![(1, 1), (0, 0)]);
    assert_eq!(grid.map[2][2].g, 2 * DIAGONAL);
}

#[test]
fn cross_of_walls_with_a_closed_centre_has_no_path() {
    let mut walls = open_walls(3, 3);
    walls[1][0] = true;
    walls[1][1] = true;
    walls[1][2] = true;
    walls[0][1] = true;
    walls[2][1] = true;
    let mut grid = grid_of(&walls, (0, 0), (2, 2));
    assert!(grid.run_a_star().is_none());
}

#[test]
fn neighbour_of_the_destination_gives_a_path_of_one_cell() {
    let mut grid = grid_of(&open_walls(2, 2), (0, 0), (0, 1));
    let path = grid.run_a_star().unwrap();
    assert_eq!(cells_of(&path), vec![(0, 0)]);
    assert_eq!(grid.map[0][1].g, STRAIGHT);
}

#[test]
fn path_goes_round_a_wall_at_the_least_cost() {
    let mut walls = open_walls(3, 3);
    walls[1][1] = true;
    let mut grid = grid_of(&walls, (0, 0), (2, 2));
    let path = grid.run_a_star().unwrap();
    assert_eq!(path.len(), 3);
    assert_eq!(grid.map[2][2].g, 2 * STRAIGHT + DIAGONAL);
    assert_eq!(steps_cost(&path, (2, 2)), 2 * STRAIGHT + DIAGONAL);
    assert!(path.iter().all(|n| (n.pos.x, n.pos.y) != (1, 1)));
}

#[test]
fn path_through_a_gap_in_a_long_wall() {
    // A wall across the whole grid with one gap at the far side.
    let mut walls = open_walls(5, 6);
    for y in 0..5 {
        walls[2][y] = true;
    }
    let mut grid = grid_of(&walls, (0, 0), (4, 0));
    let path = grid.run_a_star().unwrap();
    let cost = grid.map[4][0].g;
    assert_eq!(cost, steps_cost(&path, (4, 0)));
    // Four steps to the right and back, the gap crossed on the diagonal.
    assert_eq!(cost, 6 * STRAIGHT + 4 * DIAGONAL);
    assert_eq!(path.len(), 10);
    assert!(path.iter().any(|n| (n.pos.x, n.pos.y) == (2, 5)));
    assert_eq!(path.last().map(|n| (n.pos.x, n.pos.y)), Some((0, 0)));
}

#[test]
fn open_grid_path_has_as_many_cells_as_a_king_needs_steps() {
    for &(start, end) in &[((3, 0), (0, 6)), ((0, 0), (3, 6)), ((2, 5), (2, 1)), ((0, 3), (3, 3))] {
        let mut grid = grid_of(&open_walls(4, 7), start, end);
        let path = grid.run_a_star().unwrap();
        let dx = start.0.abs_diff(end.0);
        let dy = start.1.abs_diff(end.1);
        let king = dx.max(dy);
        let diagonal = dx.min(dy) as u64;
        assert_eq!(path.len(), king);
        let cost = grid.map[end.0][end.1].g;
        assert_eq!(cost, (king as u64 - diagonal) * STRAIGHT + diagonal * DIAGONAL);
        assert_eq!(cost, steps_cost(&path, end));
    }
}

#[test]
fn search_on_the_same_terrain_gives_the_same_path() {
    let mut walls = open_walls(6, 6);
    walls[1][1] = true;
    walls[2][3] = true;
    walls[3][3] = true;
    walls[4][2] = true;
    let mut first = grid_of(&walls, (0, 0), (5, 5));
    let mut second = grid_of(&walls.clone(), (0, 0), (5, 5));
    let one = first.run_a_star().unwrap();
    let two = second.run_a_star().unwrap();
    assert_eq!(cells_of(&one), cells_of(&two));
    assert_eq!(first.map[5][5].g, second.map[5][5].g);
    assert_eq!(steps_cost(&one, (5, 5)), steps_cost(&two, (5, 5)));
}

#[test]
fn search_on_the_same_terrain_fails_alike() {
    let mut walls = open_walls(4, 4);
    for x in 0..4 {
        walls[x][2] = true;
    }
    let mut first = grid_of(&walls, (0, 0), (3, 3));
    let mut second = grid_of(&walls, (0, 0), (3, 3));
    assert!(first.run_a_star().is_none());
    assert!(second.run_a_star().is_none());
}

#[test]
fn search_keeps_terrain_and_estimates() {
    let mut walls = open_walls(4, 4);
    walls[1][2] = true;
    let mut grid = grid_of(&walls, (0, 0), (3, 3));
    let before: Vec<Vec<(NodeState, u64)>> =
        grid.map.iter().map(|row| row.iter().map(|n| (n.node_state, n.h)).collect()).collect();
    assert!(grid.is_well_formed());
    assert!(grid.is_unsearched());
    let _ = grid.run_a_star();
    let after: Vec<Vec<(NodeState, u64)>> =
        grid.map.iter().map(|row| row.iter().map(|n| (n.node_state, n.h)).collect()).collect();
    assert_eq!(before, after);
    assert!(grid.is_well_formed());
    assert!(!grid.is_unsearched());
    assert_eq!(grid.map[0][0].f, grid.map[0][0].h);
    assert_eq!(grid.map[2][2].f, UNREACHED);
    assert_eq!(grid.map[1][2].g, UNREACHED);
}

#[test]
fn path_cells_hold_the_cost_of_the_way_to_them() {
    let mut walls = open_walls(5, 5);
    walls[1][1] = true;
    walls[2][2] = true;
    walls[3][1] = true;
    let mut grid = grid_of(&walls, (0, 0), (4, 4));
    let path = grid.run_a_star().unwrap();
    for i in 0..path.len() {
        let node = &path[i];
        assert_eq!(node.g, steps_cost(&path[i + 1..], (node.pos.x, node.pos.y)));
        assert_eq!(node.h, grid.map[node.pos.x][node.pos.y].h);
        assert_eq!(node.node_state, grid.map[node.pos.x][node.pos.y].node_state);
        assert_eq!(node.f, node.g + node.h);
        assert!(node.parent.is_none());
    }
    assert_eq!(grid.map[4][4].g, steps_cost(&path, (4, 4)));
}

#[test]
fn estimate_never_exceeds_the_cost_found() {
    // Searching from every cell for the destination finds no cost below the estimate.
    let mut walls = open_walls(4, 5);
    walls[1][3] = true;
    walls[2][1] = true;
    for x in 0..4 {
        for y in 0..5 {
            if walls[x][y] || (x, y) == (3, 4) {
                continue;
            }
            let mut grid = grid_of(&walls, (x, y), (3, 4));
            let h = grid.map[x][y].h;
            let found = grid.run_a_star().is_some();
            assert!(found);
            assert!(h <= grid.map[3][4].g);
        }
    }
}

#[test]
fn is_goal_tells_the_destination() {
    let grid = grid_of(&open_walls(3, 3), (0, 0), (2, 1));
    assert!(grid.is_goal(&grid.map[2][1]));
    assert!(!grid.is_goal(&grid.map[1][2]));
    assert!(!grid.is_goal(&grid.map[0][0]));
}

#[test]
fn backtrack_lists_the_snapshots_before_the_last() {
    let grid = grid_of(&open_walls(3, 3), (0, 0), (2, 2));
    let mut frontier = Frontier::new();
    let start = Node { g: 0, ..grid.map[0][0] };
    let middle = Node { parent: Some(0), g: DIAGONAL, ..grid.map[1][1] };
    let aside = Node { parent: Some(0), g: STRAIGHT, ..grid.map[0][1] };
    let last = Node { parent: Some(1), g: 2 * DIAGONAL, ..grid.map[2][2] };
    assert_eq!(frontier.push(start), 0);
    assert_eq!(frontier.push(middle), 1);
    assert_eq!(frontier.push(aside), 2);
    assert_eq!(frontier.push(last), 3);
    let path = grid.backtrack(&frontier, &last);
    assert_eq!(cells_of(&path), vec![(1, 1), (0, 0)]);
    assert!(path.iter().all(|n| n.parent.is_none()));
    assert_eq!(path[0].g, DIAGONAL);
    assert!(grid.backtrack(&frontier, &start).is_empty());
}

/// The least cost from `start` to every cell, found by trying every step
/// again and again until no cost falls.
fn least_costs(walls: &Vec<Vec<bool>>, start: (usize, usize)) -> Vec<Vec<u64>> {
    let x_size = walls.len();
    let y_size = walls[0].len();
    let mut cost = vec![vec![UNREACHED; y_size]; x_size];
    cost[start.0][start.1] = 0;
    let mut changed = true;
    while changed {
        changed = false;
        for x in 0..x_size {
            for y in 0..y_size {
                if cost[x][y] == UNREACHED {
                    continue;
                }
                for nx in x.saturating_sub(1)..(x + 2).min(x_size) {
                    for ny in y.saturating_sub(1)..(y + 2).min(y_size) {
                        if (nx, ny) == (x, y) || walls[nx][ny] {
                            continue;
                        }
                        let step = if nx != x && ny != y { DIAGONAL } else { STRAIGHT };
                        if cost[x][y] + step < cost[nx][ny] {
                            cost[nx][ny] = cost[x][y] + step;
                            changed = true;
                        }
                    }
                }
            }
        }
    }
    cost
}

#[test]
fn search_cost_agrees_with_an_exhaustive_search() {
    // Walls laid out by a fixed rule, dense enough to force detours.
    for round in 0..12u64 {
        let x_size = 9 + (round as usize % 4);
        let y_size = 8 + (round as usize % 5);
        let mut walls = open_walls(x_size, y_size);
        let mut state = 0x9e37_79b9_7f4a_7c15u64.wrapping_mul(round + 1);
        for x in 0..x_size {
            for y in 0..y_size {
                state = state.wrapping_mul(6_364_136_223_846_793_005).wrapping_add(1_442_695_040_888_963_407);
                walls[x][y] = (state >> 33) % 10 < 3;
            }
        }
        let start = (0, 0);
        let end = (x_size - 1, y_size - 1);
        walls[start.0][start.1] = false;
        walls[end.0][end.1] = false;
        let expected = least_costs(&walls, start)[end.0][end.1];
        let mut grid = grid_of(&walls, start, end);
        match grid.run_a_star() {
            None => assert_eq!(expected, UNREACHED),
            Some(path) => {
                assert_eq!(grid.map[end.0][end.1].g, expected);
                assert_eq!(steps_cost(&path, end), expected);
                assert!(path.iter().all(|n| !walls[n.pos.x][n.pos.y]));
                assert_eq!(path.last().map(|n| (n.pos.x, n.pos.y)), Some(start));
            }
        }
        // No cell is left with a cost below the least one.
        let least = least_costs(&walls, start);
        for x in 0..x_size {
            for y in 0..y_size {
                assert!(grid.map[x][y].g >= least[x][y]);
            }
        }
    }
}

#[test]
fn search_of_a_large_open_grid_ends() {
    let mut grid = grid_of(&open_walls(150, 150), (0, 0), (149, 100));
    let path = grid.run_a_star().unwrap();
    assert_eq!(path.len(), 149);
    assert_eq!(grid.map[149][100].g, 49 * STRAIGHT + 100 * DIAGONAL);
}
