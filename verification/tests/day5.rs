use aoc2023::day5::{input_gen, map_range, part1, part2, AlmanacError, Mapping};

const EXAMPLE: &str = r#"seeds: 79 14 55 13

seed-to-soil map:
50 98 2
52 50 48

soil-to-fertilizer map:
0 15 37
37 52 2
39 0 15

fertilizer-to-water map:
49 53 8
0 11 42
42 0 7
57 7 4

water-to-light map:
88 18 7
18 25 70

light-to-temperature map:
45 77 23
81 45 19
68 64 13

temperature-to-humidity map:
0 69 1
1 0 69

humidity-to-location map:
60 56 37
56 93 4"#;

#[test]
fn day5_part1_example() {
    assert_eq!(part1(&input_gen(EXAMPLE).unwrap()).unwrap(), 35);
}

#[test]
fn day5_part2_example() {
    assert_eq!(part2(&input_gen(EXAMPLE).unwrap()).unwrap(), 46);
}

#[test]
fn day5_reader_rejects_missing_seeds() {
    assert_eq!(input_gen("soil-to-seed map:\n1 2 3").unwrap_err(), AlmanacError::Syntax);
}

#[test]
fn day5_reader_counts_maps() {
    let a = input_gen(EXAMPLE).unwrap();
    assert_eq!(a.seeds, vec![79, 14, 55, 13]);
    assert_eq!(a.dir.len(), 7);
    assert_eq!(a.dir[0].orig, b"seed".to_vec());
    assert_eq!(a.dir[0].dest, b"soil".to_vec());
    assert_eq!(a.dir[0].mappings[0].from, 98..100);
    assert_eq!(a.dir[0].mappings[0].to, 50..52);
}

#[test]
fn day5_missing_key() {
    let a = input_gen("seeds: 1 2\n\nseed-to-soil map:\n5 0 10").unwrap();
    assert_eq!(part1(&a).unwrap_err(), AlmanacError::MissingKey);
    assert_eq!(part2(&a).unwrap_err(), AlmanacError::MissingKey);
}

#[test]
fn day5_map_range_cuts() {
    let ms = vec![
        Mapping { from: 10..20, to: 100..110 },
        Mapping { from: 30..40, to: 0..10 },
    ];
    assert_eq!(map_range(5..15, &ms), vec![5..10, 100..105]);
    assert_eq!(map_range(15..35, &ms), vec![105..110, 20..30, 0..5]);
    assert_eq!(map_range(50..60, &ms), vec![50..60]);
    assert_eq!(map_range(7..7, &ms), Vec::<std::ops::Range<u64>>::new());
}

#[test]
fn day5_map_range_reads_only_the_target_start() {
    // the target range is shorter than the source: only its start counts
    let ms = vec![Mapping { from: 0..10, to: 100..101 }];
    assert_eq!(map_range(0..5, &ms), vec![100..105]);
    assert_eq!(map_range(8..12, &ms), vec![108..110, 8..12]);
}
