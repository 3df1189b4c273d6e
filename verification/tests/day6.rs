use aoc2023::day6::{input_adapt_part2, input_gen, part1, part2, viable_count};

const EXAMPLE: &str = r#"Time:      7  15   30
Distance:  9  40  200"#;

#[test]
fn day6_part1_example() {
    assert_eq!(part1(&input_gen(EXAMPLE).unwrap()).unwrap(), 288);
}

#[test]
fn day6_part2_example() {
    assert_eq!(part2(&input_gen(EXAMPLE).unwrap()).unwrap(), 71503);
}

#[test]
fn day6_parse() {
    let d = input_gen(EXAMPLE).unwrap();
    assert_eq!(d.times, vec![7, 15, 30]);
    assert_eq!(d.distances, vec![9, 40, 200]);
}

#[test]
fn day6_viable_count() {
    assert_eq!(viable_count(7, 9), 4);
    assert_eq!(viable_count(15, 40), 8);
    assert_eq!(viable_count(30, 200), 9);
    assert_eq!(viable_count(2, 0), 0);
}

#[test]
fn day6_adapt() {
    let d = input_adapt_part2(&input_gen(EXAMPLE).unwrap());
    assert_eq!(d.times, vec![71530]);
    assert_eq!(d.distances, vec![940200]);
}

#[test]
fn day6_syntax_error() {
    // The keyword tokens are read but not checked.
    let d = input_gen("Distance: 1\nTime: 2").unwrap();
    assert_eq!((d.times, d.distances), (vec![1], vec![2]));
    assert!(input_gen("Time: 7 x\nDistance: 9").is_err());
}
