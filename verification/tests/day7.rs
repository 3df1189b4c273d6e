use aoc2023::day7::{hand_cmp, hand_kind, input_gen, part1, part2, Card, Hand, HandKind};
use aoc2023::day7::Card::{Joker, A, J, K, N2, N3, N4, N5, N6, N7, Q, T};

const EXAMPLE: &str = r#"32T3K 765
T55J5 684
KK677 28
KTJJT 220
QQQJA 483"#;

#[test]
fn day7_part1_example() {
    assert_eq!(part1(&input_gen(EXAMPLE).unwrap()), 6440);
}

#[test]
fn day7_part2_example() {
    assert_eq!(part2(&input_gen(EXAMPLE).unwrap()), 5905);
}

#[test]
fn day7_kinds() {
    assert_eq!(hand_kind([N3, N2, T, N3, K]), HandKind::OnePair);
    assert_eq!(hand_kind([T, N5, N5, J, N5]), HandKind::Three);
    assert_eq!(hand_kind([K, K, N6, N7, N7]), HandKind::TwoPair);
    assert_eq!(hand_kind([A, A, A, A, A]), HandKind::Five);
    assert_eq!(hand_kind([A, A, K, K, K]), HandKind::Full);
    assert_eq!(hand_kind([N2, N3, N4, N5, N6]), HandKind::High);
    assert_eq!(hand_kind([Joker, Joker, Joker, Joker, Joker]), HandKind::Five);
    assert_eq!(hand_kind([Q, Q, Q, Joker, A]), HandKind::Four);
    assert_eq!(hand_kind([K, T, Joker, Joker, T]), HandKind::Four);
}

#[test]
fn day7_compare() {
    let a = Hand { cards: [K, K, N6, N7, N7], bid: 1 };
    let b = Hand { cards: [K, T, J, J, T], bid: 2 };
    assert_eq!(hand_cmp(&a, &b), std::cmp::Ordering::Greater);
    assert_eq!(hand_cmp(&b, &a), std::cmp::Ordering::Less);
    assert_eq!(hand_cmp(&a, &a), std::cmp::Ordering::Equal);
}

#[test]
fn day7_parse() {
    let h = input_gen(EXAMPLE).unwrap();
    assert_eq!(h.len(), 5);
    assert_eq!(h[0].cards, [Card::N3, Card::N2, Card::T, Card::N3, Card::K]);
    assert_eq!(h[4].bid, 483);
    assert!(input_gen("32T3 765").is_err());
}
