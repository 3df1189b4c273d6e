use aoc2023::day16::{energize, input_gen, part1, part2, Beam, BeamDir, State, Tile};
use aoc2023::text::ParseError;

const EXAMPLE: &[u8] = br#".|...\....
|.-.\.....
.....|-...
........|.
..........
.........\
..../.\\..
.-.-/..|..
.|....-|.\
..//.|...."#;

#[test]
fn day16_part1_example() {
    assert_eq!(part1(&input_gen(EXAMPLE).unwrap()), 46);
}

#[test]
fn day16_part2_example() {
    assert_eq!(part2(&input_gen(EXAMPLE).unwrap()), 51);
}

#[test]
fn day16_reader_rejects_other_bytes() {
    assert_eq!(input_gen(b"..x.\n....").unwrap_err(), ParseError::Syntax);
    assert_eq!(input_gen(b"").unwrap_err(), ParseError::Syntax);
}

#[test]
fn day16_reader_reads_tiles() {
    let g = input_gen(b".|\n-\\\n/.\n").unwrap();
    assert_eq!(
        g,
        vec![
            vec![Tile::Empty, Tile::VSplit],
            vec![Tile::HSplit, Tile::LMirror],
            vec![Tile::RMirror, Tile::Empty]
        ]
    );
}

#[test]
fn day16_advance_stops_at_edges() {
    let mut b = Beam { x: 0, y: 0, dir: BeamDir::Left };
    assert!(!b.advance(3, 3));
    assert_eq!(b, Beam { x: 0, y: 0, dir: BeamDir::Left });
    let mut b = Beam { x: 1, y: 2, dir: BeamDir::Right };
    assert!(b.advance(3, 3));
    assert_eq!(b, Beam { x: 2, y: 2, dir: BeamDir::Right });
    assert!(!b.advance(3, 3));
}

#[test]
fn day16_energize_skips_lit_tiles() {
    // a straight corridor of three tiles; the middle one already carries a beam
    let row = vec![
        State { ty: Tile::Empty, beams: 0 },
        State { ty: Tile::Empty, beams: 1 },
        State { ty: Tile::Empty, beams: 0 },
    ];
    assert_eq!(energize(vec![row.clone()], Beam { x: 0, y: 0, dir: BeamDir::Right }), 2);
    // a beam already recorded in the middle tile stops the walk there
    let mut blocked = row.clone();
    blocked[1].beams = 2;
    assert_eq!(energize(vec![blocked], Beam { x: 0, y: 0, dir: BeamDir::Right }), 1);
}
