use aoc2023::day10::{build_graph, get_loop, get_s_tile, input_gen, part1, part2, Tile};
use aoc2023::text::ParseError;

const EXAMPLE1: &[u8] = br#"7-F7-
.FJ|7
SJLL7
|F--J
LJ.LJ"#;

const EXAMPLE2: &[u8] = br#"FF7FSF7F7F7F7F7F---7
L|LJ||||||||||||F--J
FL-7LJLJ||||||LJL-77
F--JF--7||LJLJ7F7FJ-
L---JF-JLJ.||-FJLJJ7
|F|F-JF---7F7-L7L|7|
|FFJF7L7F-JF7|JL---7
7-L-JL7||F7|L7F-7F7|
L.L7LFJ|||||FJL7||LJ
L7JLJL-JLJLJL--JLJ.L"#;

#[test]
fn day10_part1_example() {
    assert_eq!(part1(&input_gen(EXAMPLE1).unwrap()), 8);
}

#[test]
fn day10_part2_example() {
    assert_eq!(part2(&input_gen(EXAMPLE2).unwrap()), 10);
}

#[test]
fn day10_small_loop() {
    let m = input_gen(b".....\n.S-7.\n.|.|.\n.L-J.\n.....").unwrap();
    assert_eq!(part1(&m), 4);
    assert_eq!(part2(&m), 1);
    let (g, s) = build_graph(&m);
    assert_eq!(s, 6);
    assert_eq!(get_s_tile(&g, s), Tile::F);
    let mut lp = get_loop(&g, s);
    lp.sort();
    assert_eq!(lp, vec![6, 7, 8, 11, 13, 16, 17, 18]);
}

#[test]
fn day10_reader() {
    let m = input_gen(b"S-7\n|.|\nL-J\nrest").unwrap();
    assert_eq!(m.data.len(), 3);
    assert_eq!(m.data[0], vec![Tile::S, Tile::H, Tile::N7]);
    assert_eq!(input_gen(b"x").unwrap_err(), ParseError::Syntax);
}
