use everybody_codes::quest14::{parse_growths, part1, part2, part3, Direction3D, Point3D, Registry};

#[test]
fn test_part3_example_1() {
    let input = [
        "U5,R3,D2,L5,U4,R5,D2",
        "U6,L1,D2,R3,U2,L1"
    ]
    .join("\n")
    .to_string();

    assert_eq!(part3(&input), 5);
}

#[test]
fn test_part3_example_2() {
    let input = [
        "U20,L1,B1,L2,B1,R2,L1,F1,U1",
        "U10,F1,B1,R1,L1,B1,L1,F1,R2,U1",
        "U30,L2,F1,R1,B1,R1,F2,U1,F1",
        "U25,R1,L2,B1,U1,R2,F1,L2",
        "U16,L1,B1,L1,B3,L1,B1,F1",
    ]
    .join("\n")
    .to_string();

    assert_eq!(part3(&input), 46);
}

#[test]
fn steps_of_growth_are_read() {
    let steps = parse_growths(&"U5,R30,B-2,D+1".chars().collect::<Vec<char>>());
    assert_eq!(steps.len(), 4);
    assert_eq!(steps[0].direction, Direction3D::Up);
    assert_eq!(steps[0].steps, 5);
    assert_eq!(steps[1].direction, Direction3D::Right);
    assert_eq!(steps[1].steps, 30);
    assert_eq!(steps[2].direction, Direction3D::Backwards);
    assert_eq!(steps[2].steps, -2);
    assert_eq!(steps[3].direction, Direction3D::Down);
    assert_eq!(steps[3].steps, 1);
    assert_eq!(Direction3D::Forwards.delta(), Point3D { x: 0, y: 0, z: 1 });
    assert_eq!(Direction3D::Left.delta(), Point3D { x: -1, y: 0, z: 0 });
}

#[test]
fn part1_finds_the_greatest_height() {
    assert_eq!(part1("U5,R3,D2,L5,U4,R5,D2"), 7);
    assert_eq!(part1("R5,L2"), 0);
    // a height below zero is taken for a great one
    assert_eq!(part1("D10,U3"), u32::MAX - 6);
}

#[test]
fn part2_counts_each_segment_once() {
    assert_eq!(part2("U5,R3,D2,L5,U4,R5,D2\nU6,L1,D2,R3,U2,L1"), 32);
    // up to 2, down through 1 to the root, up to 3
    assert_eq!(part2("U2,D2,U3"), 4);
    assert_eq!(part2("U3\nU3\nU-7"), 3);
    assert_eq!(part2(""), 0);
}

#[test]
fn a_registry_keeps_each_point_once() {
    let mut seen = Registry::new();
    let a = Point3D { x: 1, y: -2, z: 3 };
    let b = Point3D { x: 3, y: -2, z: 1 };
    assert_eq!(seen.add(a), 0);
    assert_eq!(seen.add(b), 1);
    assert_eq!(seen.add(a), 0);
    assert_eq!(seen.len(), 2);
    assert_eq!(seen.get(1), b);
    assert_eq!(seen.find(b), Some(1));
    assert_eq!(seen.find(Point3D { x: 1, y: -2, z: 4 }), None);
    let far = Point3D { x: i32::MIN, y: i32::MAX, z: i32::MIN };
    assert_eq!(seen.add(far), 2);
    assert_eq!(seen.find(Point3D { x: i32::MIN, y: i32::MAX, z: i32::MAX }), None);
}
