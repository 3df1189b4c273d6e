use aoc2023::day3::{input_gen, is_adjacent, part1, part2, Part, Symbol};

const EXAMPLE: &'static str = r#"467..114..
...*......
..35..633.
......#...
617*......
.....+.58.
..592.....
......755.
...$.*....
.664.598.."#;

#[test]
fn day3_part1_example() {
    assert_eq!(part1(&input_gen(EXAMPLE).unwrap()), 4361);
}

#[test]
fn day3_part2_example() {
    assert_eq!(part2(&input_gen(EXAMPLE).unwrap()), 467835);
}

#[test]
fn day3_reader_places() {
    let m = input_gen("..12\n*...").unwrap();
    assert_eq!(m.parts, vec![Part { id: 12, x0: 2, x1: 3, y: 0 }]);
    assert_eq!(m.symbols, vec![Symbol { c: '*', x: 0, y: 1 }]);
    assert!(input_gen("99999999999").is_err());
}

#[test]
fn day3_adjacency() {
    let p = Part { id: 1, x0: 2, x1: 3, y: 5 };
    assert!(is_adjacent(&p, &Symbol { c: '#', x: 4, y: 6 }));
    assert!(is_adjacent(&p, &Symbol { c: '#', x: 1, y: 4 }));
    assert!(!is_adjacent(&p, &Symbol { c: '#', x: 5, y: 5 }));
    assert!(!is_adjacent(&p, &Symbol { c: '#', x: 2, y: 7 }));
}
