use pathfinder::grid::Grid;
use pathfinder::node::{Node, Pos};
use pathfinder::render::Paint::{Destination, Frame, Open, Path, Start, Wall};
use pathfinder::render::{path_holds, Paint, Span};
use pathfinder::text::{chars_of, check_fits, find_symbol, table_of, terrain_from_text};

fn lines(text: &[&str]) -> Vec<String> {
    text.iter().map(|line| line.to_string()).collect()
}

fn paints(rows: &[Vec<Span>]) -> Vec<Vec<Paint>> {
    rows.iter().map(|row| row.iter().map(|span| span.paint).collect()).collect()
}

#[test]
fn picture_of_a_grid_has_a_frame_round_the_cells() {
    let grid = Grid::from(lines(&["O\u{2588} ", "  X"]), 2, 3).unwrap();
    let rows = grid.render_grid();
    assert_eq!(
        paints(&rows),
        vec![
            vec![Frame; 6],
            vec![Frame, Start, Wall, Open, Frame],
            vec![Frame, Open, Open, Destination, Frame],
            vec![Frame; 6],
        ]
    );
    assert!(rows[0].iter().all(|span| span.width == 2));
    assert!(rows[3].iter().all(|span| span.width == 2));
    let widths: Vec<usize> = rows[1].iter().map(|span| span.width).collect();
    assert_eq!(widths, vec![3, 2, 2, 2, 3]);
    let total = |row: &Vec<Span>| row.iter().map(|span| span.width).sum::<usize>();
    assert!(rows.iter().all(|row| total(row) == 12));
}

#[test]
fn picture_with_a_path_marks_the_open_cells_of_the_path() {
    let mut grid = Grid::from(lines(&["O   ", " \u{2588}\u{2588} ", "   X"]), 3, 4).unwrap();
    let path = grid.run_a_star().unwrap();
    let rows = grid.render_path(&path);
    let shown = paints(&rows);
    assert_eq!(shown[1][1], Start);
    assert_eq!(shown[3][4], Destination);
    assert_eq!(shown[2][2], Wall);
    assert_eq!(shown[2][3], Wall);
    let marked = shown.concat().iter().filter(|p| **p == Path).count();
    assert_eq!(marked, path.len() - 1);
    for node in &path[..path.len() - 1] {
        assert_eq!(shown[node.pos.x + 1][node.pos.y + 1], Path);
    }
    let plain = paints(&grid.render_grid());
    assert!(plain.concat().iter().all(|p| *p != Path));
    for (with, without) in shown.concat().iter().zip(plain.concat()) {
        assert!(*with == without || (*with == Path && without == Open));
    }
}

#[test]
fn picture_shows_the_layout_of_the_text() {
    let text = ["O \u{2588} ", "\u{2588}  \u{2588}", " \u{2588}X "];
    let grid = Grid::from(lines(&text), 3, 4).unwrap();
    let rows = grid.render_grid();
    for (i, line) in text.iter().enumerate() {
        let back: String = rows[i + 1][1..5]
            .iter()
            .map(|span| match span.paint {
                Wall => '\u{2588}',
                Start => 'O',
                Destination => 'X',
                Open | Path => ' ',
                Frame => '?',
            })
            .collect();
        assert_eq!(&back, line);
    }
}

#[test]
fn path_holds_the_positions_of_its_cells() {
    let mut a = Node::new();
    a.pos = Pos { x: 1, y: 2 };
    let mut b = Node::new();
    b.pos = Pos { x: 3, y: 0 };
    let path = vec![a, b];
    assert!(path_holds(&path, Pos { x: 1, y: 2 }));
    assert!(path_holds(&path, Pos { x: 3, y: 0 }));
    assert!(!path_holds(&path, Pos { x: 2, y: 1 }));
    assert!(!path_holds(&Vec::new(), Pos { x: 1, y: 2 }));
}

#[test]
fn text_is_taken_apart_into_characters() {
    assert_eq!(chars_of("O\u{2588} X"), vec!['O', '\u{2588}', ' ', 'X']);
    assert_eq!(chars_of(""), Vec::<char>::new());
    let table = table_of(&lines(&["O ", "", "\u{2588}X"]));
    assert_eq!(table, vec![vec!['O', ' '], vec![], vec!['\u{2588}', 'X']]);
    assert!(check_fits(&table, 3, 2));
    assert!(check_fits(&table, 4, 5));
    assert!(!check_fits(&table, 2, 2));
    assert!(!check_fits(&table, 3, 1));
}

#[test]
fn symbols_are_found_in_a_text() {
    let table = table_of(&lines(&[" X ", "O X", "  O"]));
    assert_eq!(find_symbol(&table, 'O'), (Some(Pos { x: 1, y: 0 }), true));
    assert_eq!(find_symbol(&table, 'X'), (Some(Pos { x: 0, y: 1 }), true));
    assert_eq!(find_symbol(&table, '\u{2588}'), (None, false));
    let single = table_of(&lines(&["  ", " O"]));
    assert_eq!(find_symbol(&single, 'O'), (Some(Pos { x: 1, y: 1 }), false));
}

#[test]
fn terrain_is_read_from_a_text_and_padded_with_open_cells() {
    let table = table_of(&lines(&["O\u{2588}", "X"]));
    let terrain = terrain_from_text(&table, 3, 3);
    let open = pathfinder::node::NodeState::Open;
    assert_eq!(
        terrain,
        vec![
            vec![pathfinder::node::NodeState::Start, pathfinder::node::NodeState::Wall, open],
            vec![pathfinder::node::NodeState::Destination, open, open],
            vec![open, open, open],
        ]
    );
}
