use aoc2023::day22::{init, input_gen, part1, part2, Brick, Pos};
use aoc2023::text::ParseError;

const EXAMPLE: &[u8] = br#"1,0,1~1,2,1
0,0,2~2,0,2
0,2,3~2,2,3
0,0,4~0,2,4
2,0,5~2,2,5
0,1,6~2,1,6
1,1,8~1,1,9"#;

#[test]
fn day22_part1_example() {
    assert_eq!(part1(&input_gen(EXAMPLE).unwrap()), 5);
}

#[test]
fn day22_part2_example() {
    assert_eq!(part2(&input_gen(EXAMPLE).unwrap()), 7);
}

#[test]
fn day22_settling() {
    let (bricks, _) = init(&input_gen(EXAMPLE).unwrap());
    let heights: Vec<(usize, usize)> = bricks.iter().map(|b| (b.from.z, b.to.z)).collect();
    assert_eq!(heights, vec![(1, 1), (2, 2), (2, 2), (3, 3), (3, 3), (4, 4), (5, 6)]);
}

#[test]
fn day22_tower() {
    // two bricks on one column: the lower one is sorted first and carries the upper one
    let bricks = input_gen(b"0,0,5~0,0,5\n0,0,2~0,0,3\n").unwrap();
    let (settled, _) = init(&bricks);
    assert_eq!(settled[0], Brick { from: Pos { x: 0, y: 0, z: 1 }, to: Pos { x: 0, y: 0, z: 2 } });
    assert_eq!(settled[1].from.z, 3);
    assert_eq!(part1(&bricks), 1);
    assert_eq!(part2(&bricks), 1);
}

#[test]
fn day22_reader() {
    assert_eq!(input_gen(b"1,2,3~4,5,6").unwrap(), vec![Brick { from: Pos { x: 1, y: 2, z: 3 }, to: Pos { x: 4, y: 5, z: 6 } }]);
    assert_eq!(input_gen(b"").unwrap_err(), ParseError::Syntax);
    assert_eq!(input_gen(b"01,2,3~4,5,6").unwrap_err(), ParseError::Syntax);
    assert_eq!(input_gen(b"1,2,3~4,5,6\nx").unwrap_err(), ParseError::Syntax);
}
