use everybody_codes::frontier::{Frontier, State};
use everybody_codes::grid::Point;
use everybody_codes::point_map::{code, PointMap};

#[test]
fn states_come_out_by_cost() {
    let mut frontier = Frontier::new();
    assert_eq!(frontier.len(), 0);
    assert_eq!(frontier.pop(), None);

    let costs = [5usize, 3, 9, 3, 0, 7, 7, 1, usize::MAX, 2];
    for (i, &cost) in costs.iter().enumerate() {
        frontier.push(State { cost, node: Point::new(i as i32, 0) });
    }
    assert_eq!(frontier.len(), costs.len());

    let mut out = Vec::new();
    let mut nodes = Vec::new();
    while let Some(state) = frontier.pop() {
        out.push(state.cost);
        nodes.push(state.node.x);
    }
    let mut sorted = costs.to_vec();
    sorted.sort();
    assert_eq!(out, sorted);
    // every state comes out once
    nodes.sort();
    assert_eq!(nodes, (0..costs.len() as i32).collect::<Vec<i32>>());
    assert_eq!(frontier.len(), 0);
}

#[test]
fn pushing_and_popping_in_turn() {
    let mut frontier = Frontier::new();
    let mut seed: u32 = 12345;
    let mut held: Vec<usize> = Vec::new();
    for round in 0..500 {
        seed = seed.wrapping_mul(1664525).wrapping_add(1013904223);
        if seed % 3 != 0 || held.is_empty() {
            let cost = (seed >> 16) as usize % 50;
            frontier.push(State { cost, node: Point::new(round, round) });
            held.push(cost);
        } else {
            let least = *held.iter().min().unwrap();
            let state = frontier.pop().unwrap();
            assert_eq!(state.cost, least);
            let at = held.iter().position(|&c| c == least).unwrap();
            held.swap_remove(at);
        }
        assert_eq!(frontier.len(), held.len());
    }
}

#[test]
fn codes_of_points_differ() {
    let extremes = [i32::MIN, -1, 0, 1, i32::MAX];
    let mut codes = Vec::new();
    for x in extremes {
        for y in extremes {
            codes.push(code(Point::new(x, y)));
        }
    }
    let count = codes.len();
    codes.sort();
    codes.dedup();
    assert_eq!(codes.len(), count);
    assert_eq!(code(Point::new(i32::MIN, i32::MIN)), 0);
    assert_eq!(code(Point::new(i32::MAX, i32::MAX)), u64::MAX);
}

#[test]
fn a_map_keyed_by_points() {
    let mut map: PointMap<&str> = PointMap::new();
    let a = Point::new(1, 2);
    let b = Point::new(2, 1);
    assert!(!map.contains_key(a));
    assert_eq!(map.get(a), None);
    map.insert(a, "a");
    map.insert(b, "b");
    assert_eq!(map.get(a), Some(&"a"));
    assert_eq!(map.get(b), Some(&"b"));
    map.insert(a, "again");
    assert_eq!(map.get(a), Some(&"again"));
    assert_eq!(map.remove(a), Some("again"));
    assert_eq!(map.remove(a), None);
    assert!(!map.contains_key(a));
    assert!(map.contains_key(b));
}
