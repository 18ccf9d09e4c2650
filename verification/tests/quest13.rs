use everybody_codes::graph::Graph;
use everybody_codes::grid::{Grid, Point};
use everybody_codes::chart::find_cells;
use everybody_codes::quest13::{build_graph, parse_grid, part1_and_2, part3};

#[test]
fn quest13_test_part1_example() {
    let input = [
        "#######",
        "#6769##",
        "S50505E",
        "#97434#",
        "#######",
    ]
    .join("\n")
    .to_string();

    assert_eq!(part1_and_2(&input), 28);
}

#[test]
fn part3_takes_the_nearest_start() {
    let input = [
        "SS1S",
        "##1#",
        "##E#",
    ]
    .join("\n");
    // from (1, 0): east onto level 1 in 2 s, south in 1 s, south onto level 0 in 2 s;
    // from (3, 0) the way is as long, from (0, 0) one second longer
    assert_eq!(part3(&input), 5);
    assert_eq!(part1_and_2(&input), 6);
}

#[test]
fn levels_go_round() {
    // from 0 to 9 is one level down, not nine up
    assert_eq!(part1_and_2("S9E"), 2 + 2);
    assert_eq!(part1_and_2("S5E"), 6 + 6);
}

#[test]
fn parse_grid_reads_levels_and_walls() {
    let grid = parse_grid("S1#\n9E.");
    assert_eq!(grid.width(), 3);
    assert_eq!(grid.height(), 2);
    assert_eq!(grid.at(Point::new(0, 0)), Some(&Some(0)));
    assert_eq!(grid.at(Point::new(1, 0)), Some(&Some(1)));
    assert_eq!(grid.at(Point::new(2, 0)), Some(&None));
    assert_eq!(grid.at(Point::new(0, 1)), Some(&Some(9)));
    assert_eq!(grid.at(Point::new(1, 1)), Some(&Some(0)));
    assert_eq!(grid.at(Point::new(2, 1)), Some(&None));
}

#[test]
fn find_cells_in_reading_order() {
    let rows: Vec<Vec<char>> = vec!["aSb".chars().collect(), "SSc".chars().collect()];
    assert_eq!(
        find_cells(&rows, 'S'),
        vec![Point::new(1, 0), Point::new(0, 1), Point::new(1, 1)]
    );
    assert_eq!(find_cells(&rows, 'E'), vec![]);
}

#[test]
fn build_graph_leaves_out_what_cannot_be_reached() {
    let grid: Grid<Option<u32>> = Grid::from_rows(vec![
        vec![Some(0), Some(3), None, Some(1), Some(1)],
    ]);
    let graph: Graph = build_graph(&grid, Point::new(0, 0));
    assert_eq!(graph.dijkstra(Point::new(0, 0), Point::new(1, 0)), Some(4));
    assert_eq!(graph.dijkstra(Point::new(1, 0), Point::new(0, 0)), Some(4));
    assert_eq!(graph.dijkstra(Point::new(0, 0), Point::new(3, 0)), None);
    assert_eq!(graph.dijkstra(Point::new(3, 0), Point::new(4, 0)), None);
}
