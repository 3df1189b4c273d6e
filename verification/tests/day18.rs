use aoc2023::day18::{get_lagoon_size, input_gen, part1, part2, Dir, Step};
use aoc2023::text::ParseError;

const EXAMPLE: &[u8] = br#"R 6 (#70c710)
D 5 (#0dc571)
L 2 (#5713f0)
D 2 (#d2c081)
R 2 (#59c680)
D 2 (#411b91)
L 5 (#8ceee2)
U 2 (#caa173)
L 1 (#1b58a2)
U 2 (#caa171)
R 2 (#7807d2)
U 3 (#a77fa3)
L 2 (#015232)
U 2 (#7a21e3)"#;

#[test]
fn day18_part1_example() {
    assert_eq!(part1(&input_gen(EXAMPLE).unwrap()), 62);
}

#[test]
fn day18_part2_example() {
    assert_eq!(part2(&input_gen(EXAMPLE).unwrap()), 952408144115);
}

#[test]
fn day18_square() {
    // a 3 by 3 square of trench around one dug tile
    let steps = [(Dir::Right, 2), (Dir::Down, 2), (Dir::Left, 2), (Dir::Up, 2)];
    assert_eq!(get_lagoon_size(&steps), 9);
}

#[test]
fn day18_reader() {
    assert_eq!(
        input_gen(b"R 6 (#70c710)\n").unwrap(),
        vec![Step { dir: Dir::Right, count: 6, color: 0x70c710 }]
    );
    assert_eq!(input_gen(b"X 6 (#70c710)").unwrap_err(), ParseError::Syntax);
    assert_eq!(input_gen(b"R 6 (#70C710)").unwrap_err(), ParseError::Syntax);
}
