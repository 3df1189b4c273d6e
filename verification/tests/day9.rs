use aoc2023::day9::{extrapolate_first, extrapolate_last, get_tree, input_gen, part1, part2};
use aoc2023::text::ParseError;

const EXAMPLE: &[u8] = br#"0 3 6 9 12 15
1 3 6 10 15 21
10 13 16 21 30 45"#;

#[test]
fn day9_part1_example() {
    assert_eq!(part1(&input_gen(EXAMPLE).unwrap()), 114);
}

#[test]
fn day9_part2_example() {
    assert_eq!(part2(&input_gen(EXAMPLE).unwrap()), 2);
}

#[test]
fn day9_tree_and_extrapolation() {
    assert_eq!(get_tree(&[1, 3, 6, 10]), vec![vec![1, 3, 6, 10], vec![2, 3, 4], vec![1, 1], vec![0]]);
    assert_eq!(extrapolate_last(&[10, 13, 16, 21, 30, 45]), 68);
    assert_eq!(extrapolate_first(&[10, 13, 16, 21, 30, 45]), 5);
    assert_eq!(extrapolate_last(&[-3, -1, 1]), 3);
}

#[test]
fn day9_reader() {
    let r = input_gen(b"-1 0 7\n3").unwrap();
    assert_eq!(r.lines, vec![vec![-1, 0, 7], vec![3]]);
    // a newline at the end makes an empty last line
    assert_eq!(input_gen(b"1 2\n").unwrap().lines, vec![vec![1, 2], vec![]]);
    assert_eq!(input_gen(b"1  2").unwrap_err(), ParseError::Syntax);
    assert_eq!(input_gen(b"01").unwrap_err(), ParseError::Syntax);
}
