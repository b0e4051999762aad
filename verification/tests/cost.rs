use pathfinder::cost::{dist, isqrt_ceil, DIAGONAL, MAX_CELLS, STRAIGHT, UNREACHED};
use pathfinder::node::Pos;

#[test]
fn square_roots_are_rounded_up() {
    assert_eq!(isqrt_ceil(0), 0);
    assert_eq!(isqrt_ceil(1), 1);
    assert_eq!(isqrt_ceil(2), 2);
    assert_eq!(isqrt_ceil(4), 2);
    assert_eq!(isqrt_ceil(5), 3);
    assert_eq!(isqrt_ceil(9), 3);
    assert_eq!(isqrt_ceil(10), 4);
    assert_eq!(isqrt_ceil(1_000_000_000_000), 1_000_000);
    assert_eq!(isqrt_ceil(1_000_000_000_001), 1_000_001);
    assert_eq!(isqrt_ceil(2_000_000_000_000), 1_414_214);
    assert_eq!(isqrt_ceil(1u128 << 124), 1u64 << 62);
    assert_eq!(isqrt_ceil((1u128 << 124) - 1), 1u64 << 62);
}

#[test]
fn square_root_is_the_least_number_whose_square_suffices() {
    for v in 0..2_000u128 {
        let r = isqrt_ceil(v) as u128;
        assert!(r * r >= v);
        assert!(r == 0 || (r - 1) * (r - 1) < v);
    }
}

#[test]
fn step_costs_are_the_distances_of_neighbours() {
    let centre = Pos { x: 5, y: 5 };
    assert_eq!(STRAIGHT, 1_000_000);
    assert_eq!(DIAGONAL, 1_414_214);
    assert_eq!(UNREACHED, u64::MAX);
    for x in 4..=6 {
        for y in 4..=6 {
            let d = dist(&Pos { x, y }, &centre);
            let expected = match (x != 5, y != 5) {
                (false, false) => 0,
                (true, true) => DIAGONAL,
                _ => STRAIGHT,
            };
            assert_eq!(d, expected);
        }
    }
}

#[test]
fn distances_are_straight_lines_in_millionths() {
    let at = |x, y| Pos { x, y };
    assert_eq!(dist(&at(0, 0), &at(3, 4)), 5_000_000);
    assert_eq!(dist(&at(3, 4), &at(0, 0)), 5_000_000);
    assert_eq!(dist(&at(7, 1), &at(1, 9)), 10_000_000);
    assert_eq!(dist(&at(0, 0), &at(1, 2)), 2_236_068);
    assert_eq!(dist(&at(2, 2), &at(2, 2)), 0);
    assert_eq!(dist(&at(0, 0), &at(4, 4)), 5_656_855);
    assert_eq!(dist(&at(0, 0), &at(MAX_CELLS, 0)), 1_000_000_000_000_000);
    assert_eq!(dist(&at(0, 0), &at(MAX_CELLS, MAX_CELLS)), 1_414_213_562_373_096);
}

#[test]
fn distance_is_close_to_the_square_root() {
    for x in 0..30usize {
        for y in 0..30usize {
            let d = dist(&Pos { x: 0, y: 0 }, &Pos { x, y }) as f64;
            let exact = ((x * x + y * y) as f64).sqrt() * 1e6;
            assert!(d >= exact - 1e-6 && d < exact + 1.0 + 1e-6);
        }
    }
}
