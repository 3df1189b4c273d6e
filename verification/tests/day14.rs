use aoc2023::arrays::MapError;
use aoc2023::day14::{cycle, input_gen, load, part1, part2, tilt};

const EXAMPLE: &[u8] = br#"O....#....
O.OO#....#
.....##...
OO.#O....O
.O.....O#.
O.#..O.#.#
..O..#O..O
.......O..
#....###..
#OO..#...."#;

#[test]
fn day14_part1_example() {
    assert_eq!(part1(&input_gen(EXAMPLE).unwrap()), 136);
}

#[test]
fn day14_part2_example() {
    assert_eq!(part2(&input_gen(EXAMPLE).unwrap()), 64);
}

#[test]
fn day14_tilts() {
    // one column: O . O # . O
    let mut m = input_gen(b"O\n.\nO\n#\n.\nO").unwrap();
    // loads 6 + 4 + 1
    assert_eq!(load(&m), 11);
    tilt(&mut m, 1, 1);
    // north: O O . # O .  -> loads 6 + 5 + 2
    assert_eq!(load(&m), 13);
    tilt(&mut m, 1, -1);
    // south: . O O # . O -> loads 5 + 4 + 1
    assert_eq!(load(&m), 10);
    let mut r = input_gen(b".O.#O.").unwrap();
    tilt(&mut r, 0, 1);
    tilt(&mut r, 0, -1);
    cycle(&mut r);
    assert_eq!(load(&r), 2);
}

#[test]
fn day14_cycle_of_the_example() {
    let mut m = input_gen(EXAMPLE).unwrap();
    let after = input_gen(b".....#....\n....#...O#\n...OO##...\n.OO#......\n.....OOO#.\n.O#...O#.#\n....O#....\n......OOOO\n#...O###..\n#..OO#....").unwrap();
    cycle(&mut m);
    assert_eq!(load(&m), load(&after));
}

#[test]
fn day14_reader_errors() {
    assert_eq!(input_gen(b"x").err(), Some(MapError::Syntax));
    assert_eq!(input_gen(b"O.\nO\n").err(), Some(MapError::Shape));
}

#[test]
fn day14_tilting_twice_is_tilting_once() {
    for (axis, dir) in [(1usize, 1i32), (0, 1), (1, -1), (0, -1)] {
        let mut once = input_gen(EXAMPLE).unwrap();
        tilt(&mut once, axis, dir);
        let mut twice = input_gen(EXAMPLE).unwrap();
        tilt(&mut twice, axis, dir);
        tilt(&mut twice, axis, dir);
        assert_eq!(load(&once), load(&twice));
    }
    // the tilted example read north: cube rocks stay, round rocks settle
    let mut m = input_gen(EXAMPLE).unwrap();
    tilt(&mut m, 1, 1);
    let north = input_gen(b"OOOO.#.O..\nOO..#....#\nOO..O##..O\nO..#.OO...\n........#.\n..#....#.#\n..O..#.O.O\n..O.......\n#....###..\n#....#....").unwrap();
    assert_eq!(load(&m), load(&north));
    assert_eq!(load(&m), 136);
}
