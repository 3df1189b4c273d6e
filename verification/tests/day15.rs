use aoc2023::day15::{hash, input_gen, part1, part2, Step};
use aoc2023::text::ParseError;

const EXAMPLE: &[u8] = br#"rn=1,cm-,qp=3,cm=2,qp-,pc=4,ot=9,ab=5,pc-,pc=6,ot=7"#;

#[test]
fn day15_part1_example() {
    assert_eq!(part1(&input_gen(EXAMPLE).unwrap()), 1320);
}

#[test]
fn day15_part2_example() {
    assert_eq!(part2(&input_gen(EXAMPLE).unwrap()), 145);
}

#[test]
fn day15_hash_of_words() {
    assert_eq!(hash(&b"HASH".to_vec()), 52);
    assert_eq!(hash(&b"rn".to_vec()), 0);
    assert_eq!(hash(&Step::Assign(b"rn".to_vec(), 1)), 30);
    assert_eq!(hash(&Step::Remove(b"cm".to_vec())), 253);
}

#[test]
fn day15_reader() {
    assert_eq!(
        input_gen(b"ab=3,cd-").unwrap(),
        vec![Step::Assign(b"ab".to_vec(), 3), Step::Remove(b"cd".to_vec())]
    );
    assert_eq!(input_gen(b"").unwrap(), vec![]);
    assert_eq!(input_gen(b"ab=0").unwrap_err(), ParseError::Syntax);
    assert_eq!(input_gen(b"ab=1,").unwrap_err(), ParseError::Syntax);
}

#[test]
fn day15_replacing_keeps_the_place() {
    // rn=1,qp=3 share box 0 and 1; relabelling rn keeps its slot
    let steps = input_gen(b"rn=1,cm=2,rn=5").unwrap();
    // rn and cm both hash to box 0: 1*1*5 + 1*2*2
    assert_eq!(part2(&steps), 9);
}
