use aoc2023::day20::{find_period, input_gen, make_graph, part1, push_button, ModuleState, ModuleType};
use aoc2023::text::ParseError;

const EXAMPLE: &[u8] = br#"broadcaster -> a, b, c
%a -> b
%b -> c
%c -> inv
&inv -> a"#;
const EXAMPLE2: &[u8] = br#"broadcaster -> a
%a -> inv, con
&inv -> b
%b -> con
&con -> output"#;

fn index_of(idx: &[(Vec<u8>, usize)], name: &[u8]) -> usize {
    idx.iter().rev().find(|(n, _)| n.as_slice() == name).unwrap().1
}

#[test]
fn day20_part1_example() {
    assert_eq!(part1(&input_gen(EXAMPLE).unwrap()), 32000000);
}

#[test]
fn part1_example2() {
    assert_eq!(part1(&input_gen(EXAMPLE2).unwrap()), 11687500);
}

#[test]
fn day20_part2_example() {}

#[test]
fn day20_parse_modules() {
    let mods = input_gen(EXAMPLE2).unwrap();
    assert_eq!(mods.len(), 5);
    assert_eq!(mods[0].name, b"broadcaster".to_vec());
    assert_eq!(mods[0].ty, ModuleType::Plain);
    assert_eq!(mods[1].ty, ModuleType::FlipFlop);
    assert_eq!(mods[1].succs, vec![b"inv".to_vec(), b"con".to_vec()]);
    assert_eq!(mods[2].ty, ModuleType::Conjunction);
}

#[test]
fn day20_parse_errors() {
    assert_eq!(input_gen(b"").unwrap_err(), ParseError::Syntax);
    assert_eq!(input_gen(b"a -> ").unwrap()[0].succs.len(), 0);
    assert_eq!(input_gen(b"a => b").unwrap_err(), ParseError::Syntax);
    assert_eq!(input_gen(b"a -> b\n\n").unwrap_err(), ParseError::Syntax);
    assert!(input_gen(b"a -> b\n").is_ok());
}

#[test]
fn day20_one_press() {
    // A single press of the first example: 8 low and 4 high pulses.
    let mods = input_gen(EXAMPLE).unwrap();
    let (mut g, idx) = make_graph(&mods);
    let b = index_of(&idx, b"broadcaster");
    assert_eq!(push_button(&mut g, b, None), (8, 4, None));
}

#[test]
fn day20_press_stops_at_high() {
    // In the second example `inv` first sends high on the second press.
    let mods = input_gen(EXAMPLE2).unwrap();
    let (mut g, idx) = make_graph(&mods);
    let b = index_of(&idx, b"broadcaster");
    let inv = index_of(&idx, b"inv");
    let (_, _, p) = push_button(&mut g, b, Some(inv));
    assert_eq!(p, None);
    let (_, _, p) = push_button(&mut g, b, Some(inv));
    assert_eq!(p, Some(true));
    let (mut g2, _) = make_graph(&mods);
    assert_eq!(find_period(&mut g2, b, inv), 2);
}

#[test]
fn day20_flip_flop() {
    let mut m = ModuleState::new(b"a".to_vec(), ModuleType::FlipFlop);
    m.state.push(false);
    assert_eq!(m.recv_pulse(0, true), None);
    assert_eq!(m.recv_pulse(0, false), Some(true));
    assert_eq!(m.recv_pulse(0, false), Some(false));
}

#[test]
fn day20_conjunction() {
    let mut m = ModuleState::new(b"c".to_vec(), ModuleType::Conjunction);
    m.state.push(false);
    m.state.push(false);
    assert_eq!(m.recv_pulse(0, true), Some(true));
    assert_eq!(m.recv_pulse(1, true), Some(false));
    let mut p = ModuleState::new(b"p".to_vec(), ModuleType::Plain);
    assert_eq!(p.recv_pulse(0, true), Some(true));
}
