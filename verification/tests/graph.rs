use everybody_codes::graph::Graph;
use everybody_codes::grid::Point;

#[test]
fn simple_shortest_path() {
    let a = Point::new(0, 0);
    let b = Point::new(1, 0);
    let c = Point::new(2, 0);

    let mut g = Graph::new();
    g.add_edge(a, b, 5);
    g.add_edge(b, c, 2);
    g.add_edge(a, c, 10);

    assert_eq!(g.dijkstra(a, c), Some(7));
    assert_eq!(g.dijkstra(a, b), Some(5));
    assert_eq!(g.dijkstra(b, a), None); // directed edge only
}

#[test]
fn disconnected_nodes() {
    let a = Point::new(0, 0);
    let b = Point::new(1, 1);
    let mut g = Graph::new();
    g.add_edge(a, a, 0); // self-loop to create node a
    // b exists but no edges in or out
    g.add_edge(b, b, 0);
    // remove any connecting edges
    assert_eq!(g.dijkstra(a, Point::new(10, 10)), None);
}

#[test]
fn start_equals_goal_returns_zero() {
    let p = Point::new(3, 4);
    let mut g = Graph::new();
    // even if node not present, we consider start==goal -> 0
    assert_eq!(g.dijkstra(p, p), Some(0));

    // when nodes are present
    g.add_edge(p, Point::new(0, 0), 1);
    assert_eq!(g.dijkstra(p, p), Some(0));
}

#[test]
fn same_start_and_goal_is_zero_for_unknown_points() {
    let g = Graph::new();
    let p = Point::new(-7, 2_000_000_000);
    assert_eq!(g.dijkstra(p, p), Some(0));
    assert_eq!(g.dijkstra_many(&[Point::new(1, 1), p], p), Some(0));
}

#[test]
fn a_leaf_is_a_goal_but_leads_nowhere() {
    let a = Point::new(0, 0);
    let b = Point::new(0, 1);
    let leaf = Point::new(5, 5);
    let mut g = Graph::new();
    g.add_edge(a, b, 3);
    g.add_edge(b, leaf, 4);
    g.add_edge(a, leaf, 9);

    assert_eq!(g.dijkstra(a, leaf), Some(7));
    assert_eq!(g.dijkstra(b, leaf), Some(4));
    assert_eq!(g.dijkstra(leaf, a), None);
    assert_eq!(g.dijkstra(leaf, b), None);
}

#[test]
fn a_point_in_no_edge_is_never_reached_nor_left() {
    let a = Point::new(0, 0);
    let b = Point::new(0, 1);
    let nowhere = Point::new(-1, -1);
    let mut g = Graph::new();
    g.add_edge(a, b, 3);
    g.add_edge(b, a, 3);

    assert_eq!(g.dijkstra(a, nowhere), None);
    assert_eq!(g.dijkstra(nowhere, a), None);
    assert_eq!(g.dijkstra_many(&[nowhere], b), None);
    assert_eq!(g.dijkstra_many(&[nowhere, a], b), Some(3));
}

#[test]
fn many_starts_answer_the_nearest() {
    let s1 = Point::new(0, 0);
    let s2 = Point::new(9, 9);
    let m = Point::new(4, 4);
    let goal = Point::new(5, 5);
    let far = Point::new(7, 7);
    let mut g = Graph::new();
    g.add_edge(s1, m, 10);
    g.add_edge(s2, m, 4);
    g.add_edge(m, goal, 1);
    g.add_edge(s1, far, 2);

    let one = g.dijkstra(s1, goal);
    let two = g.dijkstra(s2, goal);
    assert_eq!(one, Some(11));
    assert_eq!(two, Some(5));
    assert_eq!(g.dijkstra_many(&[s1, s2], goal), Some(5));
    assert_eq!(g.dijkstra_many(&[s2, s1], goal), Some(5));
    assert_eq!(g.dijkstra_many(&[s1, s1], goal), one);

    // only one of the two reaches `far`
    assert_eq!(g.dijkstra(s2, far), None);
    assert_eq!(g.dijkstra_many(&[s1, s2], far), Some(2));
    assert_eq!(g.dijkstra_many(&[s2, s1], far), Some(2));

    // neither reaches back
    assert_eq!(g.dijkstra_many(&[m, goal], s1), None);
    assert_eq!(g.dijkstra_many(&[], goal), None);
}

#[test]
fn asking_again_answers_the_same() {
    let a = Point::new(0, 0);
    let b = Point::new(1, 0);
    let c = Point::new(2, 0);
    let mut g = Graph::new();
    g.add_edge(a, b, 1);
    g.add_edge(a, c, 1);
    g.add_edge(b, c, 0);
    g.add_edge(c, b, 0);

    let first = g.dijkstra(a, c);
    for _ in 0..5 {
        assert_eq!(g.dijkstra(a, c), first);
        assert_eq!(g.dijkstra_many(&[a, b], c), Some(0));
    }
    assert_eq!(first, Some(1));
}

#[test]
fn a_cheaper_edge_between_the_same_pair_is_taken() {
    let a = Point::new(0, 0);
    let b = Point::new(1, 0);
    let c = Point::new(2, 0);
    let mut g = Graph::new();
    g.add_edge(a, b, 10);
    g.add_edge(b, c, 1);
    assert_eq!(g.dijkstra(a, b), Some(10));
    assert_eq!(g.dijkstra(a, c), Some(11));

    g.add_edge(a, b, 4);
    assert_eq!(g.dijkstra(a, b), Some(4));
    assert_eq!(g.dijkstra(a, c), Some(5));

    // a dearer one changes nothing
    g.add_edge(a, b, 7);
    assert_eq!(g.dijkstra(a, b), Some(4));
    assert_eq!(g.dijkstra(a, c), Some(5));
}

#[test]
fn costs_are_clamped_at_the_limit() {
    let a = Point::new(0, 0);
    let b = Point::new(1, 0);
    let c = Point::new(2, 0);
    let mut g = Graph::new();
    g.add_edge(a, b, usize::MAX - 1);
    g.add_edge(b, c, 5);
    assert_eq!(g.dijkstra(a, b), Some(usize::MAX - 1));
    // the sum is clamped, and the path is still a path
    assert_eq!(g.dijkstra(a, c), Some(usize::MAX));
    assert_eq!(g.dijkstra(b, c), Some(5));
    assert_eq!(g.dijkstra(c, a), None);

    let mut h = Graph::new();
    h.add_edge(a, b, usize::MAX);
    assert_eq!(h.dijkstra(a, b), Some(usize::MAX));
    h.add_edge(a, b, usize::MAX - 7);
    assert_eq!(h.dijkstra(a, b), Some(usize::MAX - 7));
}

#[test]
fn loops_and_cycles_do_not_trap_the_search() {
    let a = Point::new(0, 0);
    let b = Point::new(1, 0);
    let c = Point::new(2, 0);
    let mut g = Graph::new();
    g.add_edge(a, a, 0);
    g.add_edge(a, b, 2);
    g.add_edge(b, a, 0);
    g.add_edge(b, b, 1);
    g.add_edge(b, c, 3);
    g.add_edge(c, a, 0);
    assert_eq!(g.dijkstra(a, c), Some(5));
    assert_eq!(g.dijkstra(c, b), Some(2));
    assert_eq!(g.dijkstra(b, a), Some(0));
}

#[test]
fn default_is_the_empty_graph() {
    let g = Graph::default();
    assert_eq!(g.dijkstra(Point::new(0, 0), Point::new(0, 1)), None);
}

/// The least costs from `start` by relaxing every edge over and over.
fn by_relaxing(edges: &[(Point, Point, usize)], start: Point, goal: Point) -> Option<usize> {
    let mut best: std::collections::HashMap<Point, usize> = std::collections::HashMap::new();
    best.insert(start, 0);
    loop {
        let mut changed = false;
        for &(from, to, cost) in edges {
            if let Some(&d) = best.get(&from) {
                let next = d + cost;
                if best.get(&to).map_or(true, |&old| next < old) {
                    best.insert(to, next);
                    changed = true;
                }
            }
        }
        if !changed {
            return best.get(&goal).copied();
        }
    }
}

#[test]
fn agrees_with_relaxing_every_edge_on_a_lattice() {
    let side = 12;
    let mut edges = Vec::new();
    let mut seed: u64 = 0x2545_f491_4f6c_dd1d;
    for y in 0..side {
        for x in 0..side {
            let p = Point::new(x, y);
            for q in [p.east(), p.south(), p.west(), p.north()] {
                if q.x < 0 || q.y < 0 || q.x >= side || q.y >= side {
                    continue;
                }
                seed ^= seed << 13;
                seed ^= seed >> 7;
                seed ^= seed << 17;
                // leave some edges out, so that the ways are crooked
                if seed % 5 != 0 {
                    edges.push((p, q, (seed >> 8) as usize % 20));
                }
            }
        }
    }
    let mut g = Graph::new();
    for &(from, to, cost) in &edges {
        g.add_edge(from, to, cost);
    }
    let start = Point::new(0, 0);
    for y in 0..side {
        for x in 0..side {
            let goal = Point::new(x, y);
            assert_eq!(g.dijkstra(start, goal), by_relaxing(&edges, start, goal));
        }
    }
    let corner = Point::new(side - 1, side - 1);
    let middle = Point::new(side / 2, side / 2);
    for y in 0..side {
        let goal = Point::new(3, y);
        let nearest = [
            by_relaxing(&edges, start, goal),
            by_relaxing(&edges, corner, goal),
            by_relaxing(&edges, middle, goal),
        ]
        .into_iter()
        .flatten()
        .min();
        assert_eq!(g.dijkstra_many(&[start, corner, middle], goal), nearest);
    }
}

#[test]
fn a_path_of_the_greatest_cost_is_still_a_path() {
    let a = Point::new(0, 0);
    let b = Point::new(1, 0);
    let c = Point::new(2, 0);
    let mut g = Graph::new();
    g.add_edge(a, b, usize::MAX);
    assert_eq!(g.dijkstra_many(&[a], b), Some(usize::MAX));
    assert_eq!(g.dijkstra(a, b), Some(usize::MAX));
    assert_eq!(g.dijkstra(b, a), None);
    // a sum that overflows is told as the greatest cost
    g.add_edge(b, c, 5);
    assert_eq!(g.dijkstra(a, c), Some(usize::MAX));
    assert_eq!(g.dijkstra(b, c), Some(5));
    // a cheaper way is preferred once there is one
    g.add_edge(a, b, usize::MAX - 7);
    assert_eq!(g.dijkstra(a, b), Some(usize::MAX - 7));
    assert_eq!(g.dijkstra(a, c), Some(usize::MAX - 2));
    g.add_edge(a, c, 3);
    assert_eq!(g.dijkstra(a, c), Some(3));
}
