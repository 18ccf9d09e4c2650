use everybody_codes::grid::{Compass, Grid, Point};
use std::str::FromStr;

#[test]
fn point_add_sub_basic() {
    let a = Point::new(3, 4);
    let b = Point::new(-1, 2);
    assert_eq!(a + b, Point::new(2, 6));
    assert_eq!(a - b, Point::new(4, 2));
}

#[test]
fn neighbors_and_moves() {
    let p = Point::new(2, 2);
    let n = p.neighbours4();
    assert_eq!(n[0], Point::new(2, 1)); // north
    assert_eq!(n[1], Point::new(3, 2)); // east
    assert_eq!(n[2], Point::new(2, 3)); // south
    assert_eq!(n[3], Point::new(1, 2)); // west

    let n8 = p.neighbours8();
    assert_eq!(n8[0], Point::new(2, 1)); // N
    assert_eq!(n8[1], Point::new(3, 1)); // NE
    assert_eq!(n8[2], Point::new(3, 2)); // E
    assert_eq!(n8[3], Point::new(3, 3)); // SE
    assert_eq!(n8[4], Point::new(2, 3)); // S
    assert_eq!(n8[5], Point::new(1, 3)); // SW
    assert_eq!(n8[6], Point::new(1, 2)); // W
    assert_eq!(n8[7], Point::new(1, 1)); // NW

    assert_eq!(p.step(Compass::North), Point::new(2, 1));
    assert_eq!(p.moved(Compass::West, 3), Point::new(-1, 2));

    // Manhattan distance
    assert_eq!(p.manhattan_distance(Point::new(5, 7)), 8); // dx=3 dy=5 -> 8
    assert_eq!(Point::new(-1, -1).manhattan_distance(Point::new(1, 2)), 5);
}

#[test]
fn grid_at_behaviour() {
    let rows = vec![vec![1, 2, 3], vec![4, 5, 6]];
    let grid = Grid::from_rows(rows);
    assert_eq!(grid.at(Point::new(0, 0)), Some(&1));
    assert_eq!(grid.at(Point::new(2, 1)), Some(&6));
    assert_eq!(grid.at(Point::new(3, 0)), None);
    assert_eq!(grid.at(Point::new(-1, 0)), None);
}

#[test]
fn grid_at_mut() {
    let rows = vec![vec![10, 20], vec![30, 40]];
    let mut grid = Grid::from_rows(rows);
    if let Some(v) = grid.at_mut(Point::new(1, 0)) {
        *v = 42;
    }
    assert_eq!(grid.at(Point::new(1, 0)), Some(&42));
}

#[test]
fn point_in_bounds() {
    let rows = vec![vec![0; 3], vec![0; 3]]; // 2 rows x 3 cols
    let grid = Grid::from_rows(rows);

    assert!(Point::new(0, 0).in_bounds(&grid));
    assert!(Point::new(2, 1).in_bounds(&grid));

    assert!(!Point::new(3, 0).in_bounds(&grid)); // x out of bounds
    assert!(!Point::new(0, 2).in_bounds(&grid)); // y out of bounds
    assert!(!Point::new(-1, 0).in_bounds(&grid)); // negative x
    assert!(!Point::new(0, -1).in_bounds(&grid)); // negative y
}

#[test]
fn grid_from_str() {
    let grid = Grid::from_str("ab\ncd").unwrap();
    assert_eq!(grid.width(), 2);
    assert_eq!(grid.height(), 2);
    assert_eq!(grid.at(Point::new(0, 0)), Some(&'a'));
    assert_eq!(grid.at(Point::new(1, 1)), Some(&'d'));
}

#[test]
fn iterate_rows_by_ref_and_value() {
    let grid = Grid::from_rows(vec![vec![1, 2], vec![3, 4]]);

    // by reference
    let mut seen = Vec::new();
    for row in &grid {
        seen.push(row.clone());
    }
    assert_eq!(seen, vec![vec![1, 2], vec![3, 4]]);

    // by value
    let grid2 = Grid::from_rows(vec![vec![5, 6], vec![7, 8]]);
    let rows: Vec<Vec<i32>> = grid2.into_iter().collect();
    assert_eq!(rows, vec![vec![5, 6], vec![7, 8]]);
}

#[test]
fn iterate_rows_slices_and_mutate() {
    let mut grid = Grid::from_rows(vec![vec![1, 2], vec![3, 4]]);
    let rows: Vec<Vec<i32>> = grid.rows().map(|s| s.to_vec()).collect();
    assert_eq!(rows, vec![vec![1, 2], vec![3, 4]]);

    for row in grid.rows_mut() {
        if !row.is_empty() {
            row[0] = 9;
            break;
        }
    }
    assert_eq!(grid.at(Point::new(0, 0)), Some(&9));
}

#[test]
fn manhattan_distance_is_symmetric_and_zero_only_at_home() {
    let points = [
        Point::new(0, 0),
        Point::new(3, -4),
        Point::new(-1_000_000, 7),
        Point::new(5, 5),
    ];
    for a in points {
        for b in points {
            assert_eq!(a.manhattan_distance(b), b.manhattan_distance(a));
            assert_eq!(a.manhattan_distance(b) == 0, a == b);
            assert!(a.manhattan_distance(b) >= 0);
        }
    }
    assert_eq!(Point::new(3, -4).manhattan_distance(Point::new(-1_000_000, 7)), 1_000_014);
    assert_eq!(
        Point::new(i32::MAX, 0).manhattan_distance(Point::new(0, 0)),
        i32::MAX
    );
}

#[test]
fn four_neighbours_are_one_step_away_and_differ() {
    for p in [Point::new(0, 0), Point::new(-3, 8), Point::new(i32::MAX - 1, i32::MIN + 1)] {
        let n = p.neighbours4();
        for i in 0..4 {
            assert_eq!(n[i].manhattan_distance(p), 1);
            for j in 0..i {
                assert_ne!(n[i], n[j]);
            }
        }
    }
}

#[test]
fn eight_neighbours_go_round_clockwise() {
    let p = Point::new(-1, 0);
    let n8 = p.neighbours8();
    let n4 = p.neighbours4();
    assert_eq!([n8[0], n8[2], n8[4], n8[6]], n4);
    assert_eq!(n8[1], Point::new(0, -1));
    assert_eq!(n8[3], Point::new(0, 1));
    assert_eq!(n8[5], Point::new(-2, 1));
    assert_eq!(n8[7], Point::new(-2, -1));
}

#[test]
fn directions_and_steps() {
    let p = Point::new(4, 4);
    assert_eq!(Point::zero(), Point::new(0, 0));
    assert_eq!(p.north(), Point::new(4, 3));
    assert_eq!(p.south(), Point::new(4, 5));
    assert_eq!(p.east(), Point::new(5, 4));
    assert_eq!(p.west(), Point::new(3, 4));
    assert_eq!(Compass::North.delta(), (0, -1));
    assert_eq!(Compass::East.delta(), (1, 0));
    assert_eq!(Compass::South.delta(), (0, 1));
    assert_eq!(Compass::West.delta(), (-1, 0));
    assert_eq!(p.step(Compass::North), p.north());
    assert_eq!(p.step(Compass::East), p.east());
    assert_eq!(p.step(Compass::South), p.south());
    assert_eq!(p.step(Compass::West), p.west());
    // a negative count of steps goes backwards
    assert_eq!(p.moved(Compass::North, -3), Point::new(4, 7));
    assert_eq!(p.moved(Compass::East, -5), Point::new(-1, 4));
    assert_eq!(p.moved(Compass::South, 0), p);
    assert_eq!(p.moved(Compass::South, 10), Point::new(4, 14));
}

#[test]
fn points_convert_and_compare() {
    let p = Point::new(3, -9);
    assert_eq!(p.to_tuple(), (3, -9));
    assert_eq!(Point::from((3, -9)), p);
    let t: (i32, i32) = p.into();
    assert_eq!(t, (3, -9));

    // first by x, then by y
    assert!(Point::new(1, 9) < Point::new(2, 0));
    assert!(Point::new(2, 0) < Point::new(2, 1));
    assert!(Point::new(2, 1) > Point::new(2, -1));
    assert!(Point::new(2, 1) <= Point::new(2, 1));
    assert_eq!(
        Point::new(1, 9).partial_cmp(&Point::new(2, 0)),
        Some(std::cmp::Ordering::Less)
    );
    assert_eq!(Point::new(1, 9).cmp(&Point::new(1, 9)), std::cmp::Ordering::Equal);
    assert_eq!(Point::new(5, 0).max(Point::new(4, 100)), Point::new(5, 0));
}

#[test]
fn points_add_and_subtract_in_place() {
    let mut p = Point::new(3, 4);
    p += Point::new(-1, 2);
    assert_eq!(p, Point::new(2, 6));
    p -= Point::new(2, 7);
    assert_eq!(p, Point::new(0, -1));
}

#[test]
fn from_rows_keeps_the_shape() {
    let grid = Grid::from_rows(vec![vec![1, 2, 3], vec![4, 5, 6]]);
    assert_eq!(grid.width(), 3);
    assert_eq!(grid.height(), 2);
    assert_eq!(grid.at(Point::new(0, 0)), Some(&1));
    assert_eq!(grid.at(Point::new(2, 1)), Some(&6));
    assert_eq!(grid.at(Point::new(3, 0)), None);
    assert_eq!(grid.at(Point::new(-1, 0)), None);
    assert_eq!(grid.at(Point::new(0, 2)), None);
    assert_eq!(grid.at(Point::new(0, -1)), None);
}

#[test]
fn no_rows_give_a_grid_of_no_size() {
    let mut grid: Grid<u8> = Grid::from_rows(vec![]);
    assert_eq!(grid.width(), 0);
    assert_eq!(grid.height(), 0);
    assert_eq!(grid.at(Point::new(0, 0)), None);
    assert_eq!(grid.at_mut(Point::new(0, 0)), None);
    assert!(!Point::new(0, 0).in_bounds(&grid));
    assert_eq!(grid.rows().count(), 0);
    assert!(grid.rows_mut().is_empty());

    let empty_rows: Grid<u8> = Grid::from_rows(vec![vec![], vec![]]);
    assert_eq!(empty_rows.width(), 0);
    assert_eq!(empty_rows.height(), 2);
    assert_eq!(empty_rows.at(Point::new(0, 0)), None);
}

#[test]
fn rows_of_unequal_length_are_told_apart() {
    assert!(Grid::is_rectangular(&vec![vec![1, 2], vec![3, 4]]));
    assert!(Grid::<i32>::is_rectangular(&vec![]));
    assert!(Grid::<i32>::is_rectangular(&vec![vec![], vec![]]));
    assert!(!Grid::is_rectangular(&vec![vec![1, 2], vec![3]]));
    assert!(!Grid::is_rectangular(&vec![vec![], vec![3]]));
    assert!(!Grid::is_rectangular(&vec![vec![1], vec![2], vec![3, 4]]));
}

#[test]
fn at_mut_outside_changes_nothing() {
    let mut grid = Grid::from_rows(vec![vec![10, 20], vec![30, 40]]);
    assert!(grid.at_mut(Point::new(2, 0)).is_none());
    assert!(grid.at_mut(Point::new(0, -1)).is_none());
    *grid.at_mut(Point::new(0, 1)).unwrap() += 1;
    let rows: Vec<Vec<i32>> = grid.into_iter().collect();
    assert_eq!(rows, vec![vec![10, 20], vec![31, 40]]);
}

#[test]
fn rows_mut_reaches_every_row() {
    let mut grid = Grid::from_rows(vec![vec![1, 2], vec![3, 4], vec![5, 6]]);
    for (y, row) in grid.rows_mut().into_iter().enumerate() {
        assert_eq!(row.len(), 2);
        row[1] = 10 * y as i32;
    }
    assert_eq!(grid.width(), 2);
    assert_eq!(grid.height(), 3);
    let rows: Vec<Vec<i32>> = grid.rows().map(|r| r.to_vec()).collect();
    assert_eq!(rows, vec![vec![1, 0], vec![3, 10], vec![5, 20]]);
}

#[test]
fn from_str_takes_both_line_endings() {
    let grid = Grid::from_str("ab\r\ncd\nef\n").unwrap();
    assert_eq!(grid.width(), 2);
    assert_eq!(grid.height(), 3);
    assert_eq!(grid.at(Point::new(1, 0)), Some(&'b'));
    assert_eq!(grid.at(Point::new(0, 2)), Some(&'e'));

    let none = Grid::from_str("").unwrap();
    assert_eq!(none.height(), 0);
    assert_eq!(none.width(), 0);

    let wide = Grid::from_str("äöü\nxyz").unwrap();
    assert_eq!(wide.width(), 3);
    assert_eq!(wide.at(Point::new(2, 0)), Some(&'ü'));
}
