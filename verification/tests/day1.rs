use aoc2023::day1::{day1, input_digits, input_digits_words};
use aoc2023::text::ParseError;

#[test]
fn part1_simple() {
    assert_eq!(day1(&input_digits_words("1").unwrap()), 11);
}

#[test]
fn part2_simple() {
    assert_eq!(day1(&input_digits_words("one").unwrap()), 11);
}

#[test]
fn day1_part2_example() {
    let input = r#"two1nine
eightwothree
abcone2threexyz
xtwone3four
4nineeightseven2
zoneight234
7pqrstsixteen"#;
    assert_eq!(
        &input_digits_words(input).unwrap(),
        &[29, 83, 13, 24, 42, 14, 76]
    );
    assert_eq!(day1(&input_digits_words(input).unwrap()), 281);
}

#[test]
fn day1_part1_example() {
    let input = "1abc2\npqr3stu8vwx\na1b2c3d4e5f\ntreb7uchet";
    assert_eq!(input_digits(input).unwrap(), vec![12, 38, 15, 77]);
    assert_eq!(day1(&input_digits(input).unwrap()), 142);
}

#[test]
fn day1_line_without_digit_is_refused() {
    assert_eq!(input_digits("12\nabc\n"), Err(ParseError::NoDigits));
}

#[test]
fn day1_trailing_newline_ends_last_line() {
    assert_eq!(input_digits("5\n").unwrap(), vec![55]);
    assert_eq!(input_digits("").unwrap(), Vec::<u32>::new());
}

#[test]
fn day1_words_overlap_and_no_digit() {
    assert_eq!(input_digits_words("oneight").unwrap(), vec![18]);
    assert_eq!(input_digits_words("xyz").unwrap(), vec![9]);
}
