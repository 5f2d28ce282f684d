use solvers::grid::{Grid, Point};
use solvers::solution::Solution;

#[test]
fn rotate_90_clockwise() {
    assert_eq!(Point::north().rotate_90_clockwise(), Point::east());
    assert_eq!(Point::east().rotate_90_clockwise(), Point::south());
    assert_eq!(Point::south().rotate_90_clockwise(), Point::west());
    assert_eq!(Point::west().rotate_90_clockwise(), Point::north());
}

#[test]
fn rotate_90_counterclockwise() {
    assert_eq!(Point::north().rotate_90_counterclockwise(), Point::west());
    assert_eq!(Point::east().rotate_90_counterclockwise(), Point::north());
    assert_eq!(Point::south().rotate_90_counterclockwise(), Point::east());
    assert_eq!(Point::west().rotate_90_counterclockwise(), Point::south());
}

#[test]
fn rotate_180() {
    assert_eq!(Point::north().rotate_180(), Point::south());
    assert_eq!(Point::east().rotate_180(), Point::west());
    assert_eq!(Point::south().rotate_180(), Point::north());
    assert_eq!(Point::west().rotate_180(), Point::east());
}

#[test]
fn is_identity() {
    assert!(Point(0, 0).is_identity());
    assert!(!Point::north().is_identity());
}

#[test]
fn valid_index() {
    let g = Grid::new("1234\n5678\n");
    assert!(g.valid_index(0));
    assert!(g.valid_index(1));
    assert!(g.valid_index(7));
    assert!(g.valid_index(g.size() - 1));
    assert!(!g.valid_index(g.size()));
}

#[test]
fn checked_position() {
    let g = Grid::new("1234\n5678\n");
    assert_eq!(Some(Point(0, 0)), g.checked_position(0));
    assert_eq!(Some(Point(1, 1)), g.checked_position(5));
    assert_eq!(None, g.checked_position(g.size()));
    assert_eq!(None, g.checked_position(100));
}

#[test]
fn strict_position() {
    let g = Grid::new("1234\n5678\n");
    assert_eq!(Point(0, 0), g.strict_position(0));
    assert_eq!(Point(1, 1), g.strict_position(5));
}

#[test]
fn find() {
    let g = Grid::new("1234\n5678\n");
    assert_eq!(None, g.find(|v| *v == '0'));
    assert_eq!(Some(&'8'), g.find(|v| *v == '8'));
}

#[test]
fn position() {
    let g = Grid::new("1234\n5678\n");
    assert_eq!(None, g.position(|v| *v == '0'));
    assert_eq!(Some(Point(1, 3)), g.position(|v| *v == '8'));
}

#[test]
fn taxicab() {
    assert_eq!(Point(0, 0).taxicab_distance(&Point(3, -4)), 7);
    assert_eq!(Point(2, 2).taxicab_distance(&Point(2, 2)), 0);
}

#[test]
fn grid_updates() {
    let mut g = Grid::new("ab\ncd\n");
    assert_eq!(g.update(&Point(1, 0), 'x'), Some('c'));
    assert_eq!(g.strict_get(&Point(1, 0)), &'x');
    assert_eq!(g.update(&Point(5, 0), 'y'), None);
    g.set_at(0, 'z');
    assert_eq!(g.at(0, 0), Some(&'z'));
    assert_eq!(g.at(9, 9), None);
    assert_eq!(g.get(&Point(0, 1)), Some(&'b'));
    assert_eq!(g.unchecked_get(&Point(1, 1)), &'d');
    assert_eq!(g.strict_index(&Point(1, 1)), 3);
    assert_eq!(g.checked_index(&Point(1, 1)), Some(3));
    assert_eq!(g.checked_index(&Point(2, 0)), None);
    assert_eq!(g.unchecked_index(&Point(0, 1)), 1);
    assert!(g.valid_position(&Point(1, 1)));
    assert!(!g.valid_position(&Point(-1, 0)));
    assert!(g.valid_coordinates(1, 1));
    assert!(!g.valid_coordinates(2, 0));
    assert_eq!(g.iter().len(), 4);
    let doubled = g.new_from(|c: &char| *c);
    assert_eq!(doubled.size(), 4);
    let steps = g.step(&Point(0, 0), &Point(1, 1));
    assert_eq!(steps, Some(Point(1, 1)));
    assert_eq!(g.step(&Point(1, 1), &Point(1, 0)), None);
}

#[test]
fn answer_text() {
    assert_eq!(Solution::U64(0).text(), "0");
    assert_eq!(Solution::U64(1026594680).text(), "1026594680");
    assert_eq!(Solution::Usize(63920).text(), "63920");
    assert_eq!(Solution::Str("ok".to_string()).text(), "ok");
    assert_eq!(Solution::Unimplemented.text(), "TODO");
}
