use aoc2023::arrays::MapError;
use aoc2023::day21::{input_gen, part1, part2, tiles_within_steps};

const EXAMPLE: &[u8] = br#"...........
.....###.#.
.###.##..#.
..#.#...#..
....#.#....
.##..S####.
.##..#...#.
.......##..
.##.#.####.
.##..##.##.
..........."#;

#[test]
fn day21_part1_example() {
    assert_eq!(tiles_within_steps(&input_gen(EXAMPLE).unwrap(), 6, false), 16);
}

#[test]
fn day21_part2_example() {
    assert_eq!(tiles_within_steps(&input_gen(EXAMPLE).unwrap(), 50, true), 1594);
}

#[test]
fn day21_more_walks_of_the_example() {
    let g = input_gen(EXAMPLE).unwrap();
    assert_eq!(tiles_within_steps(&g, 10, true), 50);
    assert_eq!(tiles_within_steps(&g, 100, true), 6536);
    assert_eq!(tiles_within_steps(&g, 0, true), 0);
    assert_eq!(tiles_within_steps(&g, -3, false), 0);
}

#[test]
fn day21_open_field() {
    // on an open map, the plots an even number of steps away in a diamond
    let g = input_gen(b".....\n.....\n..S..\n.....\n.....").unwrap();
    assert_eq!(tiles_within_steps(&g, 1, false), 4);
    assert_eq!(tiles_within_steps(&g, 2, false), 9);
    // off the map, the walk does not go on, but the plots it stepped on count
    assert_eq!(part1(&g), 21);
    assert_eq!(part2(&g), 674229516591972);
}

#[test]
fn day21_reader_errors() {
    assert_eq!(input_gen(b"..S\n.x.").err(), Some(MapError::Syntax));
    assert_eq!(input_gen(b"..S\n..\n").err(), Some(MapError::Shape));
}
