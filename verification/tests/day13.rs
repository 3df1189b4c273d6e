use aoc2023::day13::{find_lane_reflection, input_gen, part1, part2};

const EXAMPLE: &[u8] = br#"#.##..##.
..#.##.#.
##......#
##......#
..#.##.#.
..##..##.
#.#.##.#.

#...##..#
#....#..#
..##..###
#####.##.
#####.##.
..##..###
#....#..#"#;

#[test]
fn day13_part1_example() {
    assert_eq!(part1(&input_gen(EXAMPLE).unwrap()), 405);
}

#[test]
fn day13_part2_example() {
    assert_eq!(part2(&input_gen(EXAMPLE).unwrap()), 400);
}

#[test]
fn day13_lines_of_reflection() {
    let ps = input_gen(EXAMPLE).unwrap();
    assert_eq!(ps.len(), 2);
    assert_eq!(find_lane_reflection(&ps[0], 1, 0), 5);
    assert_eq!(find_lane_reflection(&ps[0], 0, 0), 0);
    assert_eq!(find_lane_reflection(&ps[1], 1, 0), 0);
    assert_eq!(find_lane_reflection(&ps[1], 0, 0), 4);
    assert_eq!(find_lane_reflection(&ps[0], 0, 1), 3);
    assert_eq!(find_lane_reflection(&ps[1], 0, 1), 1);
}

#[test]
fn day13_reader_stops_at_other_text() {
    let ps = input_gen(b"#.\n.#\n\n##\n\nxyz").unwrap();
    assert_eq!(ps.len(), 2);
    assert_eq!(input_gen(b"").unwrap().len(), 0);
    // a single row mirrors nothing along the rows
    assert_eq!(find_lane_reflection(&ps[1], 0, 0), 0);
    assert_eq!(find_lane_reflection(&ps[1], 1, 0), 1);
}
