use aoc2023::day11::{distances_with_factor, expand_cols, expand_rows, get_galaxies, input_gen, part1, Pos};

const EXAMPLE: &[u8] = br#"...#......
.......#..
#.........
..........
......#...
.#........
.........#
..........
.......#..
#...#....."#;

#[test]
fn day11_part1_example() {
    assert_eq!(part1(&input_gen(EXAMPLE).unwrap()), 374);
}

#[test]
fn day11_part2_example() {
    assert_eq!(distances_with_factor(&input_gen(EXAMPLE).unwrap(), 100), 8410);
}

#[test]
fn day11_factor_ten() {
    assert_eq!(distances_with_factor(&input_gen(EXAMPLE).unwrap(), 10), 1030);
}

#[test]
fn day11_expansion() {
    let m = input_gen(b"#..\n...\n..#").unwrap();
    assert_eq!(expand_rows(&m, 5), vec![1, 5, 1]);
    assert_eq!(expand_cols(&m, 5), vec![1, 5, 1]);
    assert_eq!(get_galaxies(&m, 5), vec![Pos { x: 0, y: 0 }, Pos { x: 6, y: 6 }]);
    assert_eq!(distances_with_factor(&m, 5), 12);
}

#[test]
fn day11_total_grows_linearly() {
    let m = input_gen(EXAMPLE).unwrap();
    let one = distances_with_factor(&m, 1);
    let two = distances_with_factor(&m, 2);
    assert_eq!(one, 292);
    for f in [3i64, 10, 100, 1000] {
        assert_eq!(distances_with_factor(&m, f), one + (f - 1) * (two - one));
    }
}
