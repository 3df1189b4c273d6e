use aoc2023::day2::{input_gen, part1, part2, Game, Round};
use aoc2023::text::ParseError;

const EXAMPLE: &'static str = r#"Game 1: 3 blue, 4 red; 1 red, 2 green, 6 blue; 2 green
Game 2: 1 blue, 2 green; 3 green, 4 blue, 1 red; 1 green, 1 blue
Game 3: 8 green, 6 blue, 20 red; 5 blue, 4 red, 13 green; 5 green, 1 red
Game 4: 1 green, 3 red, 6 blue; 3 green, 6 red; 3 green, 15 blue, 14 red
Game 5: 6 red, 1 blue, 3 green; 2 blue, 1 red, 2 green"#;

#[test]
fn day2_part1_example() {
    assert_eq!(part1(&input_gen(EXAMPLE).unwrap()), 8);
}

#[test]
fn day2_part2_example() {
    assert_eq!(part2(&input_gen(EXAMPLE).unwrap()), 2286);
}

#[test]
fn day2_parse_rounds() {
    let g = input_gen("Game 7: 1 red, 2 red; 3 blue\n").unwrap();
    assert_eq!(g.len(), 1);
    assert_eq!(g[0].id, 7);
    assert_eq!(g[0].rounds, vec![Round { blue: 0, green: 0, red: 3 }, Round { blue: 3, green: 0, red: 0 }]);
}

#[test]
fn day2_syntax_errors() {
    assert_eq!(input_gen("Game x").err(), Some(ParseError::Syntax));
    assert_eq!(input_gen("Game 1: 3 purple").err(), Some(ParseError::Syntax));
    assert_eq!(input_gen("Game 1: 3 red 4 blue").err(), Some(ParseError::Syntax));
}

#[test]
fn day2_new_game_is_empty() {
    let g = Game::new(4);
    assert_eq!(g.id, 4);
    assert!(g.rounds.is_empty());
}
