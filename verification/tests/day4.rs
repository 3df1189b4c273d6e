use aoc2023::day4::{input_gen, lex, part1, part2_fast, part2_slow, Card, Token};

const EXAMPLE: &str = r#"Card 1: 41 48 83 86 17 | 83 86  6 31 17  9 48 53
Card 2: 13 32 20 16 61 | 61 30 68 82 17 32 24 19
Card 3:  1 21 53 59 44 | 69 82 63 72 16 21 14  1
Card 4: 41 92 73 84 69 | 59 84 76 51 58  5 54 83
Card 5: 87 83 26 28 32 | 88 30 70 12 93 22 82 36
Card 6: 31 18 13 56 72 | 74 77 10 23 35 67 36 11"#;

#[test]
fn day4_part1_example() {
    assert_eq!(part1(&input_gen(EXAMPLE).unwrap()), 13);
}

#[test]
fn part2_slow_example() {
    assert_eq!(part2_slow(&input_gen(EXAMPLE).unwrap()), 30);
}

#[test]
fn part2_fast_example() {
    assert_eq!(part2_fast(&input_gen(EXAMPLE).unwrap()), 30);
}

#[test]
fn day4_points_per_card() {
    let cards = input_gen(EXAMPLE).unwrap();
    let pts: Vec<u32> = cards.iter().map(|c| c.points).collect();
    assert_eq!(pts, vec![4, 2, 2, 1, 0, 0]);
    assert_eq!(cards[5].id, 6);
}

#[test]
fn day4_lex() {
    assert_eq!(
        lex(b"Card 12: 3 | 4\n"),
        vec![Token::Card, Token::Num(12), Token::Num(3), Token::Separator, Token::Num(4), Token::Newline]
    );
}

#[test]
fn day4_new_card() {
    let c = Card::new(7);
    assert_eq!((c.id, c.points), (7, 0));
}

#[test]
fn day4_slow_and_fast_agree() {
    let cards = input_gen("Card 1: 1 2 | 1 2\nCard 2: 3 | 3\nCard 3: 4 | 5").unwrap();
    assert_eq!(part2_slow(&cards), part2_fast(&cards));
    assert_eq!(part1(&cards), 3);
}

#[test]
fn day4_syntax_error() {
    assert!(input_gen("Card x: 1 | 2").is_err());
}
