use aoc2023::day19::{
    input_gen, match_cond, part1, part2, Category, Condition, Constraints, Dest, Op, Part, PartProbe,
};
use aoc2023::text::ParseError;

const EXAMPLE: &[u8] = br#"px{a<2006:qkq,m>2090:A,rfg}
pv{a>1716:R,A}
lnx{m>1548:A,A}
rfg{s<537:gd,x>2440:R,A}
qs{s>3448:A,lnx}
qkq{x<1416:A,crn}
crn{x>2662:A,R}
in{s<1351:px,qqz}
qqz{s>2770:qs,m<1801:hdj,R}
gd{a>3333:R,R}
hdj{m>838:A,pv}

{x=787,m=2655,a=1222,s=2876}
{x=1679,m=44,a=2067,s=496}
{x=2036,m=264,a=79,s=2244}
{x=2461,m=1339,a=466,s=291}
{x=2127,m=1623,a=2188,s=1013}"#;

#[test]
fn day19_part1_example() {
    assert_eq!(part1(&input_gen(EXAMPLE).unwrap()), 19114);
}

#[test]
fn day19_part2_example() {
    assert_eq!(part2(&input_gen(EXAMPLE).unwrap()), 167409079868000);
}

#[test]
fn day19_reader() {
    let sys = input_gen(EXAMPLE).unwrap();
    assert_eq!(sys.workflows.len(), 11);
    assert_eq!(sys.parts.len(), 5);
    assert_eq!(sys.parts[0], Part { scores: [787, 2655, 1222, 2876] });
    let px = &sys.workflows[0];
    assert_eq!(px.name, b"px".to_vec());
    assert_eq!(
        px.conditions[0],
        Condition { categ: Category::A, op: Op::Lt, thresh: 2006, dest: Dest::Forward(b"qkq".to_vec()) }
    );
    assert_eq!(px.default, Dest::Forward(b"rfg".to_vec()));
}

#[test]
fn day19_reader_rejects() {
    // no blank line between workflows and parts
    assert_eq!(input_gen(b"in{A}\n{x=1,m=2,a=3,s=4}").unwrap_err(), ParseError::Syntax);
    // a leading zero
    assert_eq!(input_gen(b"in{x<01:A,R}\n\n{x=1,m=2,a=3,s=4}").unwrap_err(), ParseError::Syntax);
}

#[test]
fn day19_conditions() {
    let c = Condition { categ: Category::M, op: Op::Gt, thresh: 10, dest: Dest::A };
    assert!(match_cond(&c, &Part { scores: [0, 11, 0, 0] }));
    assert!(!match_cond(&c, &Part { scores: [99, 10, 99, 99] }));
    let r = Constraints { min: 1, max: 4000 };
    assert_eq!(r.add(Op::Gt, 100), Some(Constraints { min: 101, max: 4000 }));
    assert_eq!(r.add(Op::Lt, 2), None);
    let (yes, no) = PartProbe::default().constrain(&c);
    assert_eq!(yes.unwrap().scores[1], Constraints { min: 11, max: 4000 });
    assert_eq!(no.unwrap().scores[1], Constraints { min: 1, max: 10 });
}

#[test]
fn day19_single_workflow() {
    let sys = input_gen(b"in{x>2000:A,R}\n\n{x=2001,m=1,a=1,s=1}\n{x=5,m=1,a=1,s=1}\n").unwrap();
    assert_eq!(part1(&sys), 2004);
    assert_eq!(part2(&sys), 2000 * 4000 * 4000 * 4000);
}
