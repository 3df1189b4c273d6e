use aoc2023::arrays::MapError;
use aoc2023::day17::{dijkstra_constraints, input_gen, neighbours, part1, part2, Dir};

const EXAMPLE: &[u8] = br#"2413432311323
3215453535623
3255245654254
3446585845452
4546657867536
1438598798454
4457876987766
3637877979653
4654967986887
4564679986453
1224686865563
2546548887735
4322674655533"#;

const EXAMPLE2: &[u8] = br#"111111111111
999999999991
999999999991
999999999991
999999999991"#;

#[test]
fn day17_part1_example() {
    assert_eq!(part1(&input_gen(EXAMPLE).unwrap()), 102);
}

#[test]
fn day17_part2_example() {
    assert_eq!(part2(&input_gen(EXAMPLE).unwrap()), 94);
}

#[test]
fn part2_example2() {
    assert_eq!(part2(&input_gen(EXAMPLE2).unwrap()), 71);
}

#[test]
fn day17_reader_errors() {
    assert_eq!(input_gen(b"12\n3x\n").err(), Some(MapError::Syntax));
    assert_eq!(input_gen(b"").err(), Some(MapError::Syntax));
    assert_eq!(input_gen(b"12\n345\n").err(), Some(MapError::Shape));
    // rows of uneven length that still make up the rectangle are read row after row
    let m = input_gen(b"12\n3\n456\n").unwrap();
    assert_eq!(dijkstra_constraints(&m, (0, 0), (2, 1), 0, 3), 12);
    assert!(input_gen(b"12\n34\n").is_ok());
}

#[test]
fn day17_neighbours_follow_the_rules() {
    let m = input_gen(b"123\n456\n789").unwrap();
    // at the start nothing has been moved: every way but back is open
    assert_eq!(neighbours(&m, (1, 1), Dir::Right, 0, 4, 10), vec![((1, 2), Dir::Right), ((0, 1), Dir::Up), ((2, 1), Dir::Down)]);
    // too few blocks in a row to turn
    assert_eq!(neighbours(&m, (1, 1), Dir::Right, 2, 4, 10), vec![((1, 2), Dir::Right)]);
    // too many blocks in a row to go on
    assert_eq!(neighbours(&m, (1, 1), Dir::Right, 3, 0, 3), vec![((0, 1), Dir::Up), ((2, 1), Dir::Down)]);
    // the edge of the map
    assert_eq!(neighbours(&m, (0, 0), Dir::Left, 1, 0, 3), vec![((1, 0), Dir::Down)]);
}

#[test]
fn day17_small_searches() {
    let m = input_gen(b"19\n11\n").unwrap();
    assert_eq!(dijkstra_constraints(&m, (0, 0), (1, 1), 0, 3), 2);
    assert_eq!(dijkstra_constraints(&m, (0, 0), (0, 0), 0, 3), 0);
    // the start is the goal, but the crucible has not moved enough
    assert_eq!(dijkstra_constraints(&m, (0, 0), (0, 0), 4, 10), u32::MAX);
    // four blocks in a row cannot be moved on this map
    assert_eq!(dijkstra_constraints(&m, (0, 0), (1, 1), 4, 10), u32::MAX);
}

#[test]
fn day17_no_way() {
    // A crucible that must move five blocks in a row cannot stop one block on.
    let m = input_gen(b"12").unwrap();
    assert_eq!(dijkstra_constraints(&m, (0, 0), (0, 1), 5, 10), u32::MAX);
    assert_eq!(dijkstra_constraints(&m, (0, 0), (0, 1), 0, 3), 2);
}

#[test]
fn day17_least_journey_takes_the_detour() {
    // right then down loses 9 + 1; down then right loses 1 + 1
    assert_eq!(part1(&input_gen(b"19\n11").unwrap()), 2);
    // at most three blocks in a row: three along the top, then down and right
    assert_eq!(part1(&input_gen(b"11111\n99991").unwrap()), 13);
}
