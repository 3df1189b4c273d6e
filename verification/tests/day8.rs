use aoc2023::day8::{input_gen, part1, part2, Direction, NetworkError};

const EXAMPLE1: &str = r#"LLR

AAA = (BBB, BBB)
BBB = (AAA, ZZZ)
ZZZ = (ZZZ, ZZZ)"#;
const EXAMPLE2: &str = r#"LR

11A = (11B, XXX)
11B = (XXX, 11Z)
11Z = (11B, XXX)
22A = (22B, XXX)
22B = (22C, 22C)
22C = (22Z, 22Z)
22Z = (22B, 22B)
XXX = (XXX, XXX)"#;

#[test]
fn day8_part1_example() {
    assert_eq!(part1(&input_gen(EXAMPLE1).unwrap()).unwrap(), 6);
}

#[test]
fn day8_part2_example() {
    assert_eq!(part2(&input_gen(EXAMPLE2).unwrap()).unwrap(), 6);
}

#[test]
fn day8_reader() {
    let n = input_gen(EXAMPLE1).unwrap();
    assert_eq!(n.directions, vec![Direction::Left, Direction::Left, Direction::Right]);
    assert_eq!(n.nodes.len(), 3);
    assert_eq!(n.nodes[1].name, b"BBB".to_vec());
    assert_eq!(n.nodes[1].left, b"AAA".to_vec());
    assert_eq!(n.nodes[1].right, b"ZZZ".to_vec());
}

#[test]
fn day8_reader_rejects_bad_turn() {
    assert_eq!(input_gen("LXR\n\nAAA = (ZZZ, ZZZ)").unwrap_err(), NetworkError::Syntax);
    assert_eq!(input_gen("LR\n\nAAA = ZZZ, ZZZ)").unwrap_err(), NetworkError::Syntax);
}

#[test]
fn day8_missing_node() {
    let n = input_gen("L\n\nAAA = (BBB, CCC)").unwrap();
    assert_eq!(part1(&n).unwrap_err(), NetworkError::NoNextNode);
}

#[test]
fn day8_later_line_wins() {
    let n = input_gen("R\n\nAAA = (BBB, BBB)\nAAA = (ZZZ, ZZZ)").unwrap();
    assert_eq!(part1(&n).unwrap(), 1);
}
