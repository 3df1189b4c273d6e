use aoc2023::day24::{input_gen, Coords, Hailstone};
use aoc2023::text::ParseError;

const EXAMPLE: &[u8] = br#"19, 13, 30 @ -2,  1, -2
18, 19, 22 @ -1, -1, -2
20, 25, 34 @ -2, -2, -4
12, 31, 28 @ -1, -2, -1
20, 19, 15 @  1, -5, -3"#;

#[test]
fn day24_reader() {
    let hs = input_gen(EXAMPLE).unwrap();
    assert_eq!(hs.len(), 5);
    assert_eq!(hs[0], Hailstone { pos: Coords { x: 19, y: 13, z: 30 }, vel: Coords { x: -2, y: 1, z: -2 } });
    assert_eq!(hs[4].vel, Coords { x: 1, y: -5, z: -3 });
}

#[test]
fn day24_reader_rejects() {
    assert_eq!(input_gen(b"").unwrap_err(), ParseError::Syntax);
    assert_eq!(input_gen(b"1, 2 @ 3, 4, 5").unwrap_err(), ParseError::Syntax);
    assert_eq!(input_gen(b"1, 2, 3 @ 4, 5, 6\n\n").unwrap_err(), ParseError::Syntax);
    assert_eq!(input_gen(b"01, 2, 3 @ 4, 5, 6").unwrap_err(), ParseError::Syntax);
    assert_eq!(input_gen(b"1,2,3@4,5,-0").unwrap()[0].vel.z, 0);
}
