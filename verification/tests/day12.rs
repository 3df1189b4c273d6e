use aoc2023::day12::{input_gen, part1, part2};

const EXAMPLE: &[u8] = br#"???.### 1,1,3
.??..??...?##. 1,1,3
?#?#?#?#?#?#?#? 1,3,1,6
????.#...#... 4,1,1
????.######..#####. 1,6,5
?###???????? 3,2,1"#;

#[test]
fn day12_part1_example() {
    assert_eq!(part1(&input_gen(EXAMPLE).unwrap()), 21);
}

#[test]
fn day12_part2_example() {
    assert_eq!(part2(&input_gen(EXAMPLE).unwrap()), 525152);
}

#[test]
fn day12_rows_and_groups() {
    let m = input_gen(b"#.? 1,0\n").unwrap();
    assert_eq!(m.data.len(), 1);
    assert_eq!(m.data[0].groups, vec![1, 0]);
    assert!(input_gen(b"abc 1").is_err());
}

#[test]
fn day12_counts_are_arrangements() {
    // each count is the number of fillings whose damaged runs are the groups
    let one = |s: &[u8]| part1(&input_gen(s).unwrap());
    assert_eq!(one(b"???.### 1,1,3"), 1);
    assert_eq!(one(b".??..??...?##. 1,1,3"), 4);
    assert_eq!(one(b"?###???????? 3,2,1"), 10);
    // `??` with one group of 1: `#.` or `.#`
    assert_eq!(one(b"?? 1"), 2);
    // a run at the very end counts
    assert_eq!(one(b"# 1"), 1);
    // no run has length 0
    assert_eq!(one(b"#.? 1,0"), 0);
}
